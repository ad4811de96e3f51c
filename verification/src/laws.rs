//! Laws that relate several operations: the signed order is a total order
//! over distinct values, wrapping addition and subtraction undo each other,
//! and a modular inverse of an inverse returns the original value.

use crate::i320::{pow2_128, pow2_192, pow2_320, pow2_64, I320};
use vstd::arithmetic::div_mod::{
    lemma_fundamental_div_mod_converse, lemma_mod_multiples_vanish, lemma_mod_sub_multiples_vanish,
    lemma_mul_mod_noop_right, lemma_small_mod,
};
use vstd::prelude::*;

verus! {

/// Two values with the same unsigned reading have the same limbs: the
/// base-2^64 representation is unique.
pub proof fn lemma_unsigned_injective(p: I320, q: I320)
    requires
        p.unsigned_val() == q.unsigned_val(),
    ensures
        p == q,
{
    assert(pow2_128() == pow2_64() * pow2_64() && pow2_192() == pow2_128() * pow2_64()
        && pow2_64() * pow2_64() * pow2_64() == pow2_192() && pow2_64() * pow2_64() * pow2_64()
        * pow2_64() == pow2_192() * pow2_64()) by (nonlinear_arith);
    let u = p.unsigned_val();
    let rp: int = p.d1 + p.d2 * pow2_64() + p.d3 * pow2_128() + p.d4 * pow2_192();
    let rq: int = q.d1 + q.d2 * pow2_64() + q.d3 * pow2_128() + q.d4 * pow2_192();
    assert(u == rp * pow2_64() + p.d0 && u == rq * pow2_64() + q.d0) by (nonlinear_arith)
        requires
            u == p.d0 + p.d1 * pow2_64() + p.d2 * pow2_128() + p.d3 * pow2_192() + p.d4
                * (pow2_192() * pow2_64()),
            u == q.d0 + q.d1 * pow2_64() + q.d2 * pow2_128() + q.d3 * pow2_192() + q.d4
                * (pow2_192() * pow2_64()),
            rp == p.d1 + p.d2 * pow2_64() + p.d3 * pow2_128() + p.d4 * pow2_192(),
            rq == q.d1 + q.d2 * pow2_64() + q.d3 * pow2_128() + q.d4 * pow2_192(),
            pow2_128() == pow2_64() * pow2_64(),
            pow2_192() == pow2_128() * pow2_64(),
    ;
    lemma_fundamental_div_mod_converse(u, pow2_64(), rp, p.d0 as int);
    lemma_fundamental_div_mod_converse(u, pow2_64(), rq, q.d0 as int);
    let v = u / pow2_64();
    let sp: int = p.d2 + p.d3 * pow2_64() + p.d4 * pow2_128();
    let sq: int = q.d2 + q.d3 * pow2_64() + q.d4 * pow2_128();
    assert(v == sp * pow2_64() + p.d1 && v == sq * pow2_64() + q.d1) by (nonlinear_arith)
        requires
            v == p.d1 + p.d2 * pow2_64() + p.d3 * pow2_128() + p.d4 * pow2_192(),
            v == q.d1 + q.d2 * pow2_64() + q.d3 * pow2_128() + q.d4 * pow2_192(),
            sp == p.d2 + p.d3 * pow2_64() + p.d4 * pow2_128(),
            sq == q.d2 + q.d3 * pow2_64() + q.d4 * pow2_128(),
            pow2_128() == pow2_64() * pow2_64(),
            pow2_192() == pow2_128() * pow2_64(),
    ;
    lemma_fundamental_div_mod_converse(v, pow2_64(), sp, p.d1 as int);
    lemma_fundamental_div_mod_converse(v, pow2_64(), sq, q.d1 as int);
    let w = v / pow2_64();
    assert(w == (p.d3 + p.d4 * pow2_64()) * pow2_64() + p.d2 && w == (q.d3 + q.d4 * pow2_64())
        * pow2_64() + q.d2) by (nonlinear_arith)
        requires
            w == p.d2 + p.d3 * pow2_64() + p.d4 * pow2_128(),
            w == q.d2 + q.d3 * pow2_64() + q.d4 * pow2_128(),
            pow2_128() == pow2_64() * pow2_64(),
    ;
    lemma_fundamental_div_mod_converse(w, pow2_64(), p.d3 + p.d4 * pow2_64(), p.d2 as int);
    lemma_fundamental_div_mod_converse(w, pow2_64(), q.d3 + q.d4 * pow2_64(), q.d2 as int);
    let z = w / pow2_64();
    lemma_fundamental_div_mod_converse(z, pow2_64(), p.d4 as int, p.d3 as int);
    lemma_fundamental_div_mod_converse(z, pow2_64(), q.d4 as int, q.d3 as int);
}

/// Trichotomy of the signed order: for any two values exactly one of
/// "less", "bitwise equal" and "greater" holds; equal signed readings force
/// bitwise equality.
pub proof fn lemma_order_trichotomy(p: I320, q: I320)
    ensures
        p.signed_val() < q.signed_val() || p == q || p.signed_val() > q.signed_val(),
        p.signed_val() < q.signed_val() ==> p != q,
        p.signed_val() > q.signed_val() ==> p != q,
        p.signed_val() == q.signed_val() ==> p == q,
{
    if p.signed_val() == q.signed_val() {
        p.lemma_val_range();
        q.lemma_val_range();
        lemma_unsigned_injective(p, q);
    }
}

/// Transitivity of the signed order.
pub proof fn lemma_order_transitive(p: I320, q: I320, r: I320)
    requires
        p.signed_val() < q.signed_val(),
        q.signed_val() < r.signed_val(),
    ensures
        p.signed_val() < r.signed_val(),
{
}

/// Adding and then subtracting the same value returns the original,
/// exactly, despite the silent wraparound at 2^320: a value whose unsigned
/// reading is the wrapped sum, re-wrapped after subtraction, has the
/// original's limbs.
pub proof fn lemma_wrap_add_sub(p: I320, q: I320, s: I320, d: I320)
    requires
        s.unsigned_val() == (p.unsigned_val() + q.unsigned_val()) % pow2_320(),
        d.unsigned_val() == (s.unsigned_val() - q.unsigned_val()) % pow2_320(),
    ensures
        d == p,
{
    p.lemma_val_range();
    q.lemma_val_range();
    let a = p.unsigned_val();
    let b = q.unsigned_val();
    if a + b < pow2_320() {
        lemma_small_mod((a + b) as nat, pow2_320() as nat);
        lemma_small_mod(a as nat, pow2_320() as nat);
    } else {
        lemma_mod_sub_multiples_vanish(a + b, pow2_320());
        lemma_small_mod((a + b - pow2_320()) as nat, pow2_320() as nat);
        lemma_mod_multiples_vanish(1, a - pow2_320(), pow2_320());
        lemma_small_mod(a as nat, pow2_320() as nat);
    }
    lemma_unsigned_injective(d, p);
}

/// Subtracting and then adding the same value returns the original,
/// exactly, despite the silent wraparound at 2^320.
pub proof fn lemma_wrap_sub_add(p: I320, q: I320, d: I320, s: I320)
    requires
        d.unsigned_val() == (p.unsigned_val() - q.unsigned_val()) % pow2_320(),
        s.unsigned_val() == (d.unsigned_val() + q.unsigned_val()) % pow2_320(),
    ensures
        s == p,
{
    p.lemma_val_range();
    q.lemma_val_range();
    let a = p.unsigned_val();
    let b = q.unsigned_val();
    if a - b >= 0 {
        lemma_small_mod((a - b) as nat, pow2_320() as nat);
        lemma_small_mod(a as nat, pow2_320() as nat);
    } else {
        lemma_mod_multiples_vanish(1, a - b, pow2_320());
        lemma_small_mod((a - b + pow2_320()) as nat, pow2_320() as nat);
        lemma_mod_sub_multiples_vanish(a + pow2_320(), pow2_320());
        lemma_small_mod(a as nat, pow2_320() as nat);
    }
    lemma_unsigned_injective(s, p);
}

/// Uniqueness of the modular inverse: if `y` inverts `a` modulo `m` and `z`
/// inverts `y`, with `a` and `z` both reduced, then `z` is `a` again — the
/// round trip through two inversions is the identity on `[0, m)`.
pub proof fn lemma_modinv_round_trip(a: int, y: int, z: int, m: int)
    requires
        m > 0,
        0 <= a < m,
        0 <= z < m,
        (a * y) % m == 1int % m,
        (y * z) % m == 1int % m,
    ensures
        z == a,
{
    lemma_mul_mod_noop_right(z, a * y, m);
    lemma_mul_mod_noop_right(z, 1, m);
    lemma_small_mod(z as nat, m as nat);
    lemma_mul_mod_noop_right(a, y * z, m);
    lemma_mul_mod_noop_right(a, 1, m);
    lemma_small_mod(a as nat, m as nat);
    assert(z * (a * y) == a * (y * z)) by (nonlinear_arith);
}

} // verus!
