//! The modular inverse engine: binary extended Euclid (Stein's algorithm),
//! built from halving, wrapping addition and subtraction, and the signed
//! order, with no multiplication or division.
//!
//! The loop keeps two remainders `a` (the receiver) and `b`, and two
//! coefficients `x` and `y` with `a0 * x = a` and `a0 * y = b` modulo the
//! modulus; when `a` reaches zero, `b` is the gcd (one, for coprime inputs)
//! and `y` is the inverse.

use crate::gcd::{
    lemma_gcd_halve_odd, lemma_gcd_sub, lemma_gcd_swap, lemma_odd_times_odd, spec_gcd,
};
use crate::i320::{pow2_319, I320};
use vstd::arithmetic::div_mod::{
    lemma_add_mod_noop, lemma_fundamental_div_mod, lemma_mod_multiples_basic,
    lemma_mod_multiples_vanish, lemma_small_mod, lemma_sub_mod_noop,
};
use vstd::arithmetic::mul::{lemma_mul_inequality, lemma_mul_is_commutative};
use vstd::prelude::*;

verus! {

/// 2^300, the headroom bound on the modulus: it keeps every remainder,
/// coefficient and intermediate sum of the inverse loop well inside the
/// signed 320-bit range, so no wraparound ever loses information.
#[verifier::inline]
pub open spec fn modulus_bound() -> int {
    0x1000_0000_0000_0000_0000_0000_0000_0000_0000_0000_0000_0000_0000_0000_0000_0000_0000_0000_0000int
}

/// 2^k for k >= 0 (and 1 below zero), used to count loop iterations: the
/// product of the remainders shrinks by at least this factor.
pub open spec fn two_to(k: int) -> int
    decreases k,
{
    if k <= 0 {
        1
    } else {
        2 * two_to(k - 1)
    }
}

proof fn lemma_two_to_pos(k: int)
    ensures
        two_to(k) >= 1,
    decreases k,
{
    if k > 0 {
        lemma_two_to_pos(k - 1);
    }
}

proof fn lemma_two_to_mono(j: int, k: int)
    requires
        j <= k,
    ensures
        two_to(j) <= two_to(k),
    decreases k - j,
{
    if j < k {
        lemma_two_to_mono(j, k - 1);
        lemma_two_to_pos(k - 1);
    }
}

proof fn lemma_two_to_adds(i: int, j: int)
    requires
        i >= 0,
        j >= 0,
    ensures
        two_to(i + j) == two_to(i) * two_to(j),
    decreases j,
{
    if j == 0 {
    } else {
        lemma_two_to_adds(i, j - 1);
        assert(two_to(i + j) == two_to(i) * two_to(j)) by (nonlinear_arith)
            requires
                two_to(i + j) == 2 * two_to(i + j - 1),
                two_to(i + j - 1) == two_to(i) * two_to(j - 1),
                two_to(j) == 2 * two_to(j - 1),
        ;
    }
}

proof fn lemma_two_to_300()
    ensures
        two_to(300) == modulus_bound(),
{
    assert(two_to(0) == 1);
    assert(two_to(1) == 2);
    lemma_two_to_adds(1, 1);
    assert(two_to(2) == 0x4int) by (nonlinear_arith)
        requires
            two_to(2) == two_to(1) * two_to(1),
            two_to(1) == 0x2int,
            two_to(1) == 0x2int,
    ;
    lemma_two_to_adds(2, 2);
    assert(two_to(4) == 0x10int) by (nonlinear_arith)
        requires
            two_to(4) == two_to(2) * two_to(2),
            two_to(2) == 0x4int,
            two_to(2) == 0x4int,
    ;
    lemma_two_to_adds(4, 4);
    assert(two_to(8) == 0x100int) by (nonlinear_arith)
        requires
            two_to(8) == two_to(4) * two_to(4),
            two_to(4) == 0x10int,
            two_to(4) == 0x10int,
    ;
    lemma_two_to_adds(8, 8);
    assert(two_to(16) == 0x10000int) by (nonlinear_arith)
        requires
            two_to(16) == two_to(8) * two_to(8),
            two_to(8) == 0x100int,
            two_to(8) == 0x100int,
    ;
    lemma_two_to_adds(16, 16);
    assert(two_to(32) == 0x100000000int) by (nonlinear_arith)
        requires
            two_to(32) == two_to(16) * two_to(16),
            two_to(16) == 0x10000int,
            two_to(16) == 0x10000int,
    ;
    lemma_two_to_adds(32, 32);
    assert(two_to(64) == 0x10000000000000000int) by (nonlinear_arith)
        requires
            two_to(64) == two_to(32) * two_to(32),
            two_to(32) == 0x100000000int,
            two_to(32) == 0x100000000int,
    ;
    lemma_two_to_adds(64, 64);
    assert(two_to(128) == 0x100000000000000000000000000000000int) by (nonlinear_arith)
        requires
            two_to(128) == two_to(64) * two_to(64),
            two_to(64) == 0x10000000000000000int,
            two_to(64) == 0x10000000000000000int,
    ;
    lemma_two_to_adds(128, 128);
    assert(two_to(256) == 0x10000000000000000000000000000000000000000000000000000000000000000int) by (nonlinear_arith)
        requires
            two_to(256) == two_to(128) * two_to(128),
            two_to(128) == 0x100000000000000000000000000000000int,
            two_to(128) == 0x100000000000000000000000000000000int,
    ;
    lemma_two_to_adds(256, 32);
    assert(two_to(288) == 0x1000000000000000000000000000000000000000000000000000000000000000000000000int) by (nonlinear_arith)
        requires
            two_to(288) == two_to(256) * two_to(32),
            two_to(256) == 0x10000000000000000000000000000000000000000000000000000000000000000int,
            two_to(32) == 0x100000000int,
    ;
    lemma_two_to_adds(288, 8);
    assert(two_to(296) == 0x100000000000000000000000000000000000000000000000000000000000000000000000000int) by (nonlinear_arith)
        requires
            two_to(296) == two_to(288) * two_to(8),
            two_to(288) == 0x1000000000000000000000000000000000000000000000000000000000000000000000000int,
            two_to(8) == 0x100int,
    ;
    lemma_two_to_adds(296, 4);
    assert(two_to(300) == 0x1000000000000000000000000000000000000000000000000000000000000000000000000000int) by (nonlinear_arith)
        requires
            two_to(300) == two_to(296) * two_to(4),
            two_to(296) == 0x100000000000000000000000000000000000000000000000000000000000000000000000000int,
            two_to(4) == 0x10int,
    ;
}

/// While the remainder product is still positive, at most 601 iterations can
/// have happened: each one halves a product that starts below 2^600.
proof fn lemma_counter_cap(k: int, m: int)
    requires
        0 <= k,
        0 < m < modulus_bound(),
        two_to(k) <= m * m,
    ensures
        k <= 601,
{
    if k >= 602 {
        lemma_two_to_mono(602, k);
        lemma_two_to_adds(300, 300);
        lemma_two_to_300();
        assert(two_to(602) == 2 * two_to(601) && two_to(601) == 2 * two_to(600));
        lemma_two_to_pos(600);
        assert(m * m < modulus_bound() * modulus_bound()) by (nonlinear_arith)
            requires
                0 < m < modulus_bound(),
        ;
        assert(false);
    }
}

/// If twice a value is divisible by an odd modulus, so is the value.
proof fn lemma_halve_cong(z: int, m: int)
    requires
        m > 0,
        m % 2 == 1,
        (2 * z) % m == 0,
    ensures
        z % m == 0,
{
    lemma_fundamental_div_mod(2 * z, m);
    let q = (2 * z) / m;
    lemma_mul_is_commutative(m, q);
    if q % 2 == 1 {
        lemma_odd_times_odd(m, q);
        lemma_mod_multiples_basic(z, 2);
        lemma_mul_is_commutative(z, 2);
        assert(false);
    }
    lemma_fundamental_div_mod(q, 2);
    assert(z == (q / 2) * m) by (nonlinear_arith)
        requires
            2 * z == m * q,
            q == 2 * (q / 2),
    ;
    lemma_mod_multiples_basic(q / 2, m);
}

/// One halving step keeps the coefficient congruence: if `a0 * x = w` modulo
/// `m`, the remainder is halved exactly (`2 * w2 == w`) and the coefficient
/// is halved modulo `m` (`2 * x2 == x + r * m`), then `a0 * x2 = w2`.
proof fn lemma_half_step(a0: int, x: int, x2: int, w: int, w2: int, m: int, r: int)
    requires
        m > 0,
        m % 2 == 1,
        (a0 * x - w) % m == 0,
        2 * x2 == x + r * m,
        2 * w2 == w,
    ensures
        (a0 * x2 - w2) % m == 0,
{
    assert(2 * (a0 * x2 - w2) == m * (r * a0) + (a0 * x - w)) by (nonlinear_arith)
        requires
            2 * x2 == x + r * m,
            2 * w2 == w,
    ;
    lemma_mod_multiples_vanish(r * a0, a0 * x - w, m);
    lemma_halve_cong(a0 * x2 - w2, m);
}

/// Congruent numbers leave the same remainder.
proof fn lemma_cong_mod(p: int, q: int, m: int)
    requires
        m > 0,
        (p - q) % m == 0,
    ensures
        p % m == q % m,
{
    lemma_fundamental_div_mod(p - q, m);
    lemma_mod_multiples_vanish((p - q) / m, q, m);
}

/// Halving against a bound: from `|w| <= s` and `2 * xn == w + r * m` with
/// `r` zero or one, `|xn| <= t` whenever `s + m <= 2 * t`.
proof fn lemma_half_bound(w: int, xn: int, m: int, r: int, s: int, t: int)
    requires
        -s <= w <= s,
        2 * xn == w + r * m,
        0 <= r <= 1,
        0 <= m,
        s + m <= 2 * t,
    ensures
        -t <= xn <= t,
{
    lemma_mul_inequality(0, r, m);
    lemma_mul_inequality(r, 1, m);
}


/// The even step of the inverse loop, on ghost values: remainder `aa`
/// halves to `an`, coefficient `xs` halves modulo `mm` to `xn`; congruence,
/// gcd, the iteration measure and the coefficient bound all carry over.
proof fn lemma_even_branch(a0: int, aa: int, an: int, bb: int, xs: int, xn: int, mm: int, k: int)
    requires
        mm > 0,
        mm % 2 == 1,
        aa % 2 == 0,
        bb % 2 == 1,
        0 <= aa,
        0 < bb,
        0 <= k,
        2 * an == aa,
        0 <= an,
        2 * xn == xs + (xs % 2) * mm,
        (a0 * xs - aa) % mm == 0,
        spec_gcd(aa as nat, bb as nat) == 1,
        two_to(k) * (aa * bb) <= mm * mm,
        -((k + 1) * mm) <= xs <= (k + 1) * mm,
    ensures
        (a0 * xn - an) % mm == 0,
        spec_gcd(an as nat, bb as nat) == 1,
        two_to(k + 1) * (an * bb) <= mm * mm,
        -((k + 2) * mm) <= xn <= (k + 2) * mm,
{
    lemma_half_step(a0, xs, xn, aa, an, mm, xs % 2);
    lemma_gcd_halve_odd(aa as nat, bb as nat);
    assert((k + 1) * mm + mm == (k + 2) * mm) by (nonlinear_arith);
    lemma_half_bound(xs, xn, mm, xs % 2, (k + 1) * mm, (k + 2) * mm);
    lemma_two_to_pos(k);
    assert(two_to(k + 1) * (an * bb) <= two_to(k) * (aa * bb)) by (nonlinear_arith)
        requires
            two_to(k + 1) == 2 * two_to(k),
            two_to(k) >= 1,
            2 * an == aa,
            bb > 0,
    ;
}

/// The odd step of the inverse loop, on ghost values, after the swap has
/// put the larger remainder first: `an` is half the difference of the
/// remainders, `xn` is half the difference of the coefficients modulo `mm`.
proof fn lemma_odd_branch(
    a0: int,
    aa: int,
    an: int,
    bb: int,
    xs: int,
    ys: int,
    xn: int,
    mm: int,
    k: int,
)
    requires
        mm > 0,
        mm % 2 == 1,
        aa % 2 == 1,
        bb % 2 == 1,
        0 < bb <= aa,
        0 <= k,
        2 * an == aa - bb,
        0 <= an,
        2 * xn == (xs - ys) + (((xs - ys) % 2)) * mm,
        (a0 * xs - aa) % mm == 0,
        (a0 * ys - bb) % mm == 0,
        spec_gcd(aa as nat, bb as nat) == 1,
        two_to(k) * (aa * bb) <= mm * mm,
        -((k + 1) * mm) <= xs <= (k + 1) * mm,
        -((k + 1) * mm) <= ys <= (k + 1) * mm,
    ensures
        (a0 * xn - an) % mm == 0,
        spec_gcd(an as nat, bb as nat) == 1,
        two_to(k + 1) * (an * bb) <= mm * mm,
        -((k + 2) * mm) <= xn <= (k + 2) * mm,
{
    assert(a0 * (xs - ys) - (aa - bb) == (a0 * xs - aa) - (a0 * ys - bb)) by (nonlinear_arith);
    lemma_sub_mod_noop(a0 * xs - aa, a0 * ys - bb, mm);
    lemma_small_mod(0nat, mm as nat);
    lemma_half_step(a0, xs - ys, xn, aa - bb, an, mm, (xs - ys) % 2);
    lemma_gcd_sub(aa as nat, bb as nat);
    lemma_sub_mod_noop(aa, bb, 2);
    lemma_small_mod(0nat, 2nat);
    lemma_gcd_halve_odd((aa - bb) as nat, bb as nat);
    assert((k + 1) * mm + mm == (k + 2) * mm && 2 * ((k + 1) * mm) + mm <= 2 * ((k + 2) * mm))
        by (nonlinear_arith)
        requires
            mm > 0,
            k >= 0,
    ;
    lemma_half_bound(xs - ys, xn, mm, (xs - ys) % 2, 2 * ((k + 1) * mm), (k + 2) * mm);
    lemma_two_to_pos(k);
    assert(two_to(k + 1) * (an * bb) <= two_to(k) * (aa * bb)) by (nonlinear_arith)
        requires
            two_to(k + 1) == 2 * two_to(k),
            two_to(k) >= 1,
            2 * an == aa - bb,
            bb > 0,
            an >= 0,
    ;
}

impl I320 {
    /// Halves the value modulo an odd modulus: if the value is odd, the
    /// (odd) modulus is first added, which makes it even; then one exact
    /// halving. Doubling the result gives back the old value, plus the
    /// modulus in the odd case, so the result is "value / 2" modulo `m`.
    pub fn div2_mod(&mut self, m: &I320)
        requires
            m.unsigned_val() % 2 == 1,
            old(self).signed_val() + m.unsigned_val() < pow2_319(),
        ensures
            2 * final(self).signed_val() == old(self).signed_val() + (old(self).signed_val() % 2)
                * m.unsigned_val(),
    {
        proof {
            old(self).lemma_val_range();
            m.lemma_val_range();
        }
        if !self.is_even() {
            self.add_assign(m);
            proof {
                lemma_add_mod_noop(old(self).signed_val(), m.unsigned_val(), 2);
                assert(self.signed_val() % 2 == 0);
            }
        }
        self.div2();
    }

    /// One even step of the inverse loop: the remainder is even, so it is
    /// halved exactly and the coefficient is halved modulo the modulus.
    #[verifier::rlimit(100)]
    fn even_step(
        &mut self,
        x: &mut I320,
        m: &I320,
        Ghost(a0): Ghost<int>,
        Ghost(bb): Ghost<int>,
        Ghost(k): Ghost<int>,
    )
        requires
            m.unsigned_val() % 2 == 1,
            0 < m.unsigned_val() < modulus_bound(),
            0 <= k <= 601,
            old(self).unsigned_val() % 2 == 0,
            0 < old(self).unsigned_val() <= m.unsigned_val(),
            old(self).signed_val() == old(self).unsigned_val(),
            bb % 2 == 1,
            0 < bb <= m.unsigned_val(),
            spec_gcd(old(self).unsigned_val() as nat, bb as nat) == 1,
            (a0 * old(x).signed_val() - old(self).unsigned_val()) % m.unsigned_val() == 0,
            two_to(k) * (old(self).unsigned_val() * bb) <= m.unsigned_val() * m.unsigned_val(),
            -((k + 1) * m.unsigned_val()) <= old(x).signed_val() <= (k + 1) * m.unsigned_val(),
        ensures
            final(self).signed_val() == final(self).unsigned_val(),
            2 * final(self).unsigned_val() == old(self).unsigned_val(),
            spec_gcd(final(self).unsigned_val() as nat, bb as nat) == 1,
            (a0 * final(x).signed_val() - final(self).unsigned_val()) % m.unsigned_val() == 0,
            two_to(k + 1) * (final(self).unsigned_val() * bb) <= m.unsigned_val()
                * m.unsigned_val(),
            -((k + 2) * m.unsigned_val()) <= final(x).signed_val() <= (k + 2) * m.unsigned_val(),
    {
        let ghost mm = m.unsigned_val();
        let ghost aa = self.unsigned_val();
        let ghost xs = x.signed_val();
        proof {
            self.lemma_val_range();
            x.lemma_val_range();
            m.lemma_val_range();
            lemma_mul_inequality(k + 1, 602, mm);
            assert(1205 * mm < pow2_319()) by (nonlinear_arith)
                requires
                    0 < mm < modulus_bound(),
            ;
        }
        self.div2();
        x.div2_mod(m);
        proof {
            self.lemma_val_range();
            x.lemma_val_range();
            lemma_even_branch(a0, aa, self.unsigned_val(), bb, xs, x.signed_val(), mm, k);
        }
    }

    /// One odd step of the inverse loop: order the remainders so the larger
    /// comes first (swapping the coefficients alongside), subtract, halve
    /// the even difference, and update the first coefficient to match.
    #[verifier::rlimit(100)]
    fn odd_step(
        &mut self,
        b: &mut I320,
        x: &mut I320,
        y: &mut I320,
        m: &I320,
        Ghost(a0): Ghost<int>,
        Ghost(k): Ghost<int>,
    )
        requires
            m.unsigned_val() % 2 == 1,
            0 < m.unsigned_val() < modulus_bound(),
            0 <= k <= 601,
            old(self).unsigned_val() % 2 == 1,
            0 < old(self).unsigned_val() <= m.unsigned_val(),
            old(self).signed_val() == old(self).unsigned_val(),
            old(b).unsigned_val() % 2 == 1,
            0 < old(b).unsigned_val() <= m.unsigned_val(),
            old(b).signed_val() == old(b).unsigned_val(),
            spec_gcd(old(self).unsigned_val() as nat, old(b).unsigned_val() as nat) == 1,
            (a0 * old(x).signed_val() - old(self).unsigned_val()) % m.unsigned_val() == 0,
            (a0 * old(y).signed_val() - old(b).unsigned_val()) % m.unsigned_val() == 0,
            two_to(k) * (old(self).unsigned_val() * old(b).unsigned_val()) <= m.unsigned_val()
                * m.unsigned_val(),
            -((k + 1) * m.unsigned_val()) <= old(x).signed_val() <= (k + 1) * m.unsigned_val(),
            -((k + 1) * m.unsigned_val()) <= old(y).signed_val() <= (k + 1) * m.unsigned_val(),
        ensures
            final(self).signed_val() == final(self).unsigned_val(),
            0 <= final(self).unsigned_val() <= m.unsigned_val(),
            final(b).unsigned_val() % 2 == 1,
            0 < final(b).unsigned_val() <= m.unsigned_val(),
            final(b).signed_val() == final(b).unsigned_val(),
            final(self).unsigned_val() + final(b).unsigned_val()
                < old(self).unsigned_val() + old(b).unsigned_val(),
            spec_gcd(final(self).unsigned_val() as nat, final(b).unsigned_val() as nat) == 1,
            (a0 * final(x).signed_val() - final(self).unsigned_val()) % m.unsigned_val() == 0,
            (a0 * final(y).signed_val() - final(b).unsigned_val()) % m.unsigned_val() == 0,
            two_to(k + 1) * (final(self).unsigned_val() * final(b).unsigned_val())
                <= m.unsigned_val() * m.unsigned_val(),
            -((k + 2) * m.unsigned_val()) <= final(x).signed_val() <= (k + 2) * m.unsigned_val(),
            -((k + 2) * m.unsigned_val()) <= final(y).signed_val() <= (k + 2) * m.unsigned_val(),
    {
        let ghost mm = m.unsigned_val();
        proof {
            lemma_mul_inequality(k + 1, k + 2, mm);
            self.lemma_val_range();
            b.lemma_val_range();
            x.lemma_val_range();
            y.lemma_val_range();
            m.lemma_val_range();
            lemma_mul_inequality(k + 1, 602, mm);
            assert(1205 * mm < pow2_319()) by (nonlinear_arith)
                requires
                    0 < mm < modulus_bound(),
            ;
        }
        if *self < *b {
            let t: I320 = *self;
            *self = *b;
            *b = t;
            let tc: I320 = *x;
            *x = *y;
            *y = tc;
            proof {
                lemma_gcd_swap(b.unsigned_val() as nat, self.unsigned_val() as nat);
            }
        }
        self.reduce_step(b, x, y, m, Ghost(a0), Ghost(k));
    }

    /// The subtraction half of an odd step, once the remainders are ordered:
    /// `self` becomes half of `self - b`, and `x` becomes half of `x - y`
    /// modulo the modulus; `b` and `y` stay as they are.
    #[verifier::rlimit(100)]
    fn reduce_step(
        &mut self,
        b: &I320,
        x: &mut I320,
        y: &I320,
        m: &I320,
        Ghost(a0): Ghost<int>,
        Ghost(k): Ghost<int>,
    )
        requires
            m.unsigned_val() % 2 == 1,
            0 < m.unsigned_val() < modulus_bound(),
            0 <= k <= 601,
            old(self).unsigned_val() % 2 == 1,
            0 < old(self).unsigned_val() <= m.unsigned_val(),
            old(self).signed_val() == old(self).unsigned_val(),
            b.unsigned_val() % 2 == 1,
            0 < b.unsigned_val() <= old(self).unsigned_val(),
            b.signed_val() == b.unsigned_val(),
            spec_gcd(old(self).unsigned_val() as nat, b.unsigned_val() as nat) == 1,
            (a0 * old(x).signed_val() - old(self).unsigned_val()) % m.unsigned_val() == 0,
            (a0 * y.signed_val() - b.unsigned_val()) % m.unsigned_val() == 0,
            two_to(k) * (old(self).unsigned_val() * b.unsigned_val()) <= m.unsigned_val()
                * m.unsigned_val(),
            -((k + 1) * m.unsigned_val()) <= old(x).signed_val() <= (k + 1) * m.unsigned_val(),
            -((k + 1) * m.unsigned_val()) <= y.signed_val() <= (k + 1) * m.unsigned_val(),
        ensures
            final(self).signed_val() == final(self).unsigned_val(),
            0 <= final(self).unsigned_val() <= m.unsigned_val(),
            2 * final(self).unsigned_val() == old(self).unsigned_val() - b.unsigned_val(),
            spec_gcd(final(self).unsigned_val() as nat, b.unsigned_val() as nat) == 1,
            (a0 * final(x).signed_val() - final(self).unsigned_val()) % m.unsigned_val() == 0,
            two_to(k + 1) * (final(self).unsigned_val() * b.unsigned_val()) <= m.unsigned_val()
                * m.unsigned_val(),
            -((k + 2) * m.unsigned_val()) <= final(x).signed_val() <= (k + 2) * m.unsigned_val(),
    {
        let ghost mm = m.unsigned_val();
        let ghost aa = self.unsigned_val();
        let ghost bb = b.unsigned_val();
        let ghost xs = x.signed_val();
        let ghost ys = y.signed_val();
        proof {
            self.lemma_val_range();
            x.lemma_val_range();
            y.lemma_val_range();
            m.lemma_val_range();
            lemma_mul_inequality(k + 1, 602, mm);
            assert(1205 * mm < pow2_319()) by (nonlinear_arith)
                requires
                    0 < mm < modulus_bound(),
            ;
        }
        self.sub_assign(b);
        proof {
            self.lemma_val_range();
        }
        self.div2();
        x.sub_assign(y);
        x.div2_mod(m);
        proof {
            self.lemma_val_range();
            x.lemma_val_range();
            lemma_sub_mod_noop(aa, bb, 2);
            lemma_small_mod(0nat, 2nat);
            lemma_odd_branch(a0, aa, self.unsigned_val(), bb, xs, ys, x.signed_val(), mm, k);
        }
    }

    /// Replaces the value by its multiplicative inverse modulo the positive
    /// odd modulus `m`, computed with Stein's binary extended-Euclidean
    /// loop and then reduced into `[0, m)`. For a value in `[0, m)` coprime
    /// to `m`, the result is the unique representative `y` in `[0, m)` with
    /// `a * y = 1 (mod m)`. An input of one comes back as exactly one, and
    /// the only input the trivial modulus one admits comes back as zero.
    /// The modulus must stay below 2^300; that headroom (a little more than
    /// the proved-necessary bound of roughly 2^309) keeps every coefficient
    /// the loop builds inside the signed 320-bit range.
    #[verifier::rlimit(100)]
    pub fn modinv(&mut self, m: &I320)
        requires
            m.unsigned_val() % 2 == 1,
            0 < m.unsigned_val() < modulus_bound(),
            old(self).unsigned_val() < m.unsigned_val(),
            spec_gcd(old(self).unsigned_val() as nat, m.unsigned_val() as nat) == 1,
        ensures
            final(self).signed_val() == final(self).unsigned_val(),
            0 <= final(self).unsigned_val() < m.unsigned_val(),
            (old(self).unsigned_val() * final(self).unsigned_val()) % m.unsigned_val()
                == 1int % m.unsigned_val(),
            m.unsigned_val() == 1 ==> final(self).unsigned_val() == 0,
            m.unsigned_val() > 1 && old(self).unsigned_val() == 1 ==> final(self).unsigned_val()
                == 1,
    {
        let ghost a0 = old(self).unsigned_val();
        let ghost mm = m.unsigned_val();
        let mut b: I320 = *m;
        let mut x: I320 = I320::new(0, 0, 0, 0, 1);
        let mut y: I320 = I320::new(0, 0, 0, 0, 0);
        let ghost mut k: int = 0;

        proof {
            m.lemma_val_range();
            old(self).lemma_val_range();
            x.lemma_val_range();
            y.lemma_val_range();
            assert(x.unsigned_val() == 1 && y.unsigned_val() == 0);
            lemma_small_mod(0nat, mm as nat);
            assert((a0 * x.signed_val() - old(self).unsigned_val()) % mm == 0);
            lemma_mod_multiples_vanish(-1, 0, mm);
            assert((a0 * y.signed_val() - b.unsigned_val()) % mm == 0);
            lemma_mul_inequality(a0, mm, mm);
            assert(two_to(0) == 1);
        }

        while !self.is_zero()
            invariant
                mm == m.unsigned_val(),
                mm % 2 == 1,
                0 < mm < modulus_bound(),
                0 <= self.unsigned_val() <= mm,
                self.signed_val() == self.unsigned_val(),
                0 < b.unsigned_val() <= mm,
                b.signed_val() == b.unsigned_val(),
                b.unsigned_val() % 2 == 1,
                spec_gcd(self.unsigned_val() as nat, b.unsigned_val() as nat) == 1,
                (a0 * x.signed_val() - self.unsigned_val()) % mm == 0,
                (a0 * y.signed_val() - b.unsigned_val()) % mm == 0,
                0 <= k <= 602,
                two_to(k) * (self.unsigned_val() * b.unsigned_val()) <= mm * mm,
                -((k + 1) * mm) <= x.signed_val() <= (k + 1) * mm,
                -((k + 1) * mm) <= y.signed_val() <= (k + 1) * mm,
            decreases self.unsigned_val() + b.unsigned_val(),
        {
            proof {
                lemma_two_to_pos(k);
                assert(two_to(k) <= two_to(k) * (self.unsigned_val() * b.unsigned_val()))
                    by (nonlinear_arith)
                    requires
                        two_to(k) >= 1,
                        self.unsigned_val() >= 1,
                        b.unsigned_val() >= 1,
                ;
                lemma_counter_cap(k, mm);
            }
            if self.is_even() {
                self.even_step(&mut x, m, Ghost(a0), Ghost(b.unsigned_val()), Ghost(k));
            } else {
                self.odd_step(&mut b, &mut x, &mut y, m, Ghost(a0), Ghost(k));
            }
            proof {
                lemma_mul_inequality(k + 1, k + 2, mm);
                k = k + 1;
            }
        }

        proof {
            y.lemma_val_range();
            m.lemma_val_range();
            assert(spec_gcd(self.unsigned_val() as nat, b.unsigned_val() as nat)
                == b.unsigned_val());
            assert(b.unsigned_val() == 1);
            lemma_mul_inequality(k + 1, 603, mm);
            assert(604 * mm < pow2_319()) by (nonlinear_arith)
                requires
                    0 < mm < modulus_bound(),
            ;
        }

        // reduce the coefficient to the canonical representative in [0, m):
        // it is congruent to the inverse and within 603 moduli of zero, so
        // subtracting or adding the modulus a bounded number of times lands
        // in range without ever leaving the signed 320-bit range
        while *m <= y
            invariant
                mm == m.unsigned_val(),
                0 < mm,
                m.signed_val() == mm,
                604 * mm < pow2_319(),
                -(603 * mm) <= y.signed_val() <= 603 * mm,
                (a0 * y.signed_val() - 1) % mm == 0,
            decreases y.signed_val(),
        {
            let ghost ys = y.signed_val();
            y.sub_assign(m);
            proof {
                y.lemma_val_range();
                assert(a0 * y.signed_val() - 1 == mm * (-a0) + (a0 * ys - 1)) by (nonlinear_arith)
                    requires
                        y.signed_val() == ys - mm,
                ;
                lemma_mod_multiples_vanish(-a0, a0 * ys - 1, mm);
            }
        }
        let zero = I320::new(0, 0, 0, 0, 0);
        while y < zero
            invariant
                zero.signed_val() == 0,
                mm == m.unsigned_val(),
                0 < mm,
                m.signed_val() == mm,
                604 * mm < pow2_319(),
                -(603 * mm) <= y.signed_val() < mm,
                (a0 * y.signed_val() - 1) % mm == 0,
            decreases mm - y.signed_val(),
        {
            let ghost ys = y.signed_val();
            y.add_assign(m);
            proof {
                y.lemma_val_range();
                assert(a0 * y.signed_val() - 1 == mm * a0 + (a0 * ys - 1)) by (nonlinear_arith)
                    requires
                        y.signed_val() == ys + mm,
                ;
                lemma_mod_multiples_vanish(a0, a0 * ys - 1, mm);
            }
        }

        proof {
            y.lemma_val_range();
            lemma_cong_mod(a0 * y.signed_val(), 1, mm);
            if mm > 1 && a0 == 1 {
                assert(a0 * y.signed_val() == y.signed_val()) by (nonlinear_arith)
                    requires
                        a0 == 1,
                ;
                lemma_small_mod(1nat, mm as nat);
                lemma_small_mod(y.unsigned_val() as nat, mm as nat);
            }
        }
        *self = y;
    }
}

} // verus!
