//! Greatest-common-divisor theory: the Euclidean recursion as a spec
//! function, and the facts about it that the binary inverse loop preserves
//! step by step (symmetry, subtraction of the smaller remainder, and
//! halving an even remainder against an odd one).

use vstd::arithmetic::div_mod::{
    lemma_add_mod_noop, lemma_fundamental_div_mod, lemma_fundamental_div_mod_converse,
    lemma_mod_multiples_basic, lemma_mod_self_0, lemma_mul_mod_noop_right, lemma_small_mod,
    lemma_sub_mod_noop,
};
use vstd::arithmetic::mul::{lemma_mul_inequality, lemma_mul_is_commutative};
use vstd::prelude::*;

verus! {

/// Greatest common divisor by the Euclidean recursion; `spec_gcd(0, b)` is
/// `b`, so the remainder left when the inverse loop ends is the gcd itself.
pub open spec fn spec_gcd(a: nat, b: nat) -> nat
    decreases a,
{
    if a == 0 {
        b
    } else {
        spec_gcd(b % a, a)
    }
}

/// The gcd of two numbers, not both zero, is positive.
pub proof fn lemma_gcd_pos(a: nat, b: nat)
    requires
        a > 0 || b > 0,
    ensures
        spec_gcd(a, b) > 0,
    decreases a,
{
    if a != 0 {
        lemma_gcd_pos(b % a, a);
    }
}

/// `k * a` is divisible by any divisor of `a`.
proof fn lemma_divides_mul(a: int, k: int, d: int)
    requires
        d > 0,
        a % d == 0,
    ensures
        (k * a) % d == 0,
{
    lemma_mul_mod_noop_right(k, a, d);
    lemma_small_mod(0nat, d as nat);
}

/// A divisor of two numbers divides their sum.
pub proof fn lemma_divides_add(x: int, y: int, d: int)
    requires
        d > 0,
        x % d == 0,
        y % d == 0,
    ensures
        (x + y) % d == 0,
{
    lemma_add_mod_noop(x, y, d);
    lemma_small_mod(0nat, d as nat);
}

/// A divisor of two numbers divides their difference.
pub proof fn lemma_divides_sub(x: int, y: int, d: int)
    requires
        d > 0,
        x % d == 0,
        y % d == 0,
    ensures
        (x - y) % d == 0,
{
    lemma_sub_mod_noop(x, y, d);
    lemma_small_mod(0nat, d as nat);
}

/// A positive divisor of a positive number is no larger than it.
proof fn lemma_divides_le(n: int, d: int)
    requires
        d > 0,
        n > 0,
        n % d == 0,
    ensures
        d <= n,
{
    lemma_fundamental_div_mod(n, d);
    let q = n / d;
    lemma_mul_is_commutative(d, q);
    if q <= 0 {
        lemma_mul_inequality(q, 0, d);
        assert(false);
    }
    lemma_mul_inequality(1, q, d);
}

/// Two positive numbers that divide each other are equal.
proof fn lemma_divides_antisym(x: int, y: int)
    requires
        x > 0,
        y > 0,
        x % y == 0,
        y % x == 0,
    ensures
        x == y,
{
    lemma_divides_le(x, y);
    lemma_divides_le(y, x);
}

/// The gcd divides both of its arguments.
pub proof fn lemma_gcd_divides(a: nat, b: nat)
    requires
        a > 0 || b > 0,
    ensures
        spec_gcd(a, b) > 0,
        a % spec_gcd(a, b) == 0,
        b % spec_gcd(a, b) == 0,
    decreases a,
{
    lemma_gcd_pos(a, b);
    let g = spec_gcd(a, b) as int;
    if a == 0 {
        lemma_mod_self_0(b as int);
        lemma_small_mod(0nat, b);
    } else {
        lemma_gcd_divides(b % a, a);
        lemma_fundamental_div_mod(b as int, a as int);
        lemma_divides_mul(a as int, b as int / a as int, g);
        lemma_mul_is_commutative(a as int, b as int / a as int);
        lemma_divides_add(a as int * (b as int / a as int), (b % a) as int, g);
    }
}

/// Any common divisor of `a` and `b` divides their gcd.
pub proof fn lemma_gcd_greatest(a: nat, b: nat, d: int)
    requires
        d > 0,
        a as int % d == 0,
        b as int % d == 0,
    ensures
        spec_gcd(a, b) as int % d == 0,
    decreases a,
{
    if a != 0 {
        lemma_fundamental_div_mod(b as int, a as int);
        lemma_divides_mul(a as int, b as int / a as int, d);
        lemma_mul_is_commutative(a as int, b as int / a as int);
        lemma_divides_sub(b as int, a as int * (b as int / a as int), d);
        lemma_gcd_greatest(b % a, a, d);
    }
}

/// The gcd does not depend on the order of its arguments.
pub proof fn lemma_gcd_swap(a: nat, b: nat)
    ensures
        spec_gcd(a, b) == spec_gcd(b, a),
{
    if a == 0 && b == 0 {
    } else if a == 0 {
        lemma_small_mod(0nat, b);
        assert(spec_gcd(b, 0) == spec_gcd(0nat, b));
    } else if b == 0 {
        lemma_small_mod(0nat, a);
        assert(spec_gcd(a, 0) == spec_gcd(0nat, a));
    } else {
        let g1 = spec_gcd(a, b);
        let g2 = spec_gcd(b, a);
        lemma_gcd_divides(a, b);
        lemma_gcd_divides(b, a);
        lemma_gcd_greatest(b, a, g1 as int);
        lemma_gcd_greatest(a, b, g2 as int);
        lemma_divides_antisym(g1 as int, g2 as int);
    }
}

/// Subtracting the smaller argument from the larger keeps the gcd.
pub proof fn lemma_gcd_sub(a: nat, b: nat)
    requires
        b <= a,
    ensures
        spec_gcd((a - b) as nat, b) == spec_gcd(a, b),
{
    if b == 0 {
    } else {
        let c = (a - b) as nat;
        let g1 = spec_gcd(c, b);
        let g2 = spec_gcd(a, b);
        lemma_gcd_divides(c, b);
        lemma_gcd_divides(a, b);
        lemma_divides_add(c as int, b as int, g1 as int);
        lemma_gcd_greatest(a, b, g1 as int);
        lemma_divides_sub(a as int, b as int, g2 as int);
        lemma_gcd_greatest(c, b, g2 as int);
        lemma_divides_antisym(g1 as int, g2 as int);
    }
}

/// The product of two odd numbers is odd.
pub proof fn lemma_odd_times_odd(p: int, q: int)
    requires
        p % 2 == 1,
        q % 2 == 1,
    ensures
        (p * q) % 2 == 1,
{
    lemma_fundamental_div_mod(p, 2);
    lemma_fundamental_div_mod(q, 2);
    let i = p / 2;
    let j = q / 2;
    assert(p * q == 2 * (2 * i * j + i + j) + 1) by (nonlinear_arith)
        requires
            p == 2 * i + 1,
            q == 2 * j + 1,
    ;
    lemma_fundamental_div_mod_converse(p * q, 2, 2 * i * j + i + j, 1);
}

/// An even number divided by an odd divisor has an even quotient, so the
/// divisor also divides its half; halving the even argument against an odd
/// one therefore keeps the gcd.
pub proof fn lemma_gcd_halve_odd(a: nat, b: nat)
    requires
        a % 2 == 0,
        b % 2 == 1,
    ensures
        spec_gcd((a / 2) as nat, b) == spec_gcd(a, b),
{
    if a == 0 {
    } else {
        let h = (a / 2) as nat;
        let g1 = spec_gcd(h, b);
        let g2 = spec_gcd(a, b);
        lemma_gcd_divides(h, b);
        lemma_gcd_divides(a, b);
        lemma_fundamental_div_mod(a as int, 2);

        // a divisor of the half divides the whole
        lemma_divides_add(h as int, h as int, g1 as int);
        lemma_gcd_greatest(a, b, g1 as int);

        // g2 divides the odd b, so g2 is odd
        lemma_fundamental_div_mod(b as int, g2 as int);
        let qb = b as int / g2 as int;
        if g2 % 2 == 0 {
            lemma_fundamental_div_mod(g2 as int, 2);
            assert(b as int == 2 * ((g2 as int / 2) * qb)) by (nonlinear_arith)
                requires
                    b as int == g2 as int * qb,
                    g2 as int == 2 * (g2 as int / 2),
            ;
            lemma_fundamental_div_mod_converse(b as int, 2, (g2 as int / 2) * qb, 0);
            assert(false);
        }

        // g2 odd and a even force an even quotient, so g2 divides a / 2
        lemma_fundamental_div_mod(a as int, g2 as int);
        let qa = a as int / g2 as int;
        if qa % 2 == 1 {
            lemma_odd_times_odd(g2 as int, qa);
            lemma_mul_is_commutative(g2 as int, qa);
            lemma_odd_times_odd(qa, g2 as int);
            assert(false);
        }
        lemma_fundamental_div_mod(qa, 2);
        assert(a as int == 2 * (g2 as int * (qa / 2))) by (nonlinear_arith)
            requires
                a as int == g2 as int * qa,
                qa == 2 * (qa / 2),
        ;
        lemma_fundamental_div_mod_converse(a as int, 2, g2 as int * (qa / 2), 0);
        lemma_mul_is_commutative(g2 as int, qa / 2);
        lemma_mod_multiples_basic(qa / 2, g2 as int);
        lemma_gcd_greatest(h, b, g2 as int);

        lemma_divides_antisym(g1 as int, g2 as int);
    }
}

} // verus!
