//! The 320-bit fixed-width integer: five 64-bit limbs, least-significant
//! first, read either as an unsigned value or as a two's-complement signed
//! value whose sign is the top bit of the most-significant limb.

use core::cmp::Ordering;
use vstd::arithmetic::power2::pow2;
use vstd::bits::lemma_u64_shr_is_div;
use vstd::arithmetic::div_mod::{
    lemma_fundamental_div_mod, lemma_fundamental_div_mod_converse, lemma_mod_multiples_basic,
    lemma_mod_multiples_vanish, lemma_mod_sub_multiples_vanish, lemma_small_mod,
};
use vstd::arithmetic::mul::lemma_mul_inequality;
use vstd::prelude::*;
use vstd::string::StringExecFns;

verus! {

/// 2^64, the weight of limb 1.
#[verifier::inline]
pub open spec fn pow2_64() -> int {
    0x1_0000_0000_0000_0000int
}

/// 2^128, the weight of limb 2.
#[verifier::inline]
pub open spec fn pow2_128() -> int {
    0x1_0000_0000_0000_0000_0000_0000_0000_0000int
}

/// 2^192, the weight of limb 3.
#[verifier::inline]
pub open spec fn pow2_192() -> int {
    0x1_0000_0000_0000_0000_0000_0000_0000_0000_0000_0000_0000_0000int
}

/// 2^256, the weight of limb 4.
#[verifier::inline]
pub open spec fn pow2_256() -> int {
    0x1_0000_0000_0000_0000_0000_0000_0000_0000_0000_0000_0000_0000_0000_0000_0000_0000int
}

/// 2^319, the weight of the sign bit.
#[verifier::inline]
pub open spec fn pow2_319() -> int {
    0x8000_0000_0000_0000_0000_0000_0000_0000_0000_0000_0000_0000_0000_0000_0000_0000_0000_0000_0000_0000int
}

/// 2^320, the size of the value space; addition and subtraction wrap here.
#[verifier::inline]
pub open spec fn pow2_320() -> int {
    0x1_0000_0000_0000_0000_0000_0000_0000_0000_0000_0000_0000_0000_0000_0000_0000_0000_0000_0000_0000_0000int
}

/// The lowercase hexadecimal digit for a value in [0, 16).
pub open spec fn hex_char_of(n: int) -> char {
    if n == 0 {
        '0'
    } else if n == 1 {
        '1'
    } else if n == 2 {
        '2'
    } else if n == 3 {
        '3'
    } else if n == 4 {
        '4'
    } else if n == 5 {
        '5'
    } else if n == 6 {
        '6'
    } else if n == 7 {
        '7'
    } else if n == 8 {
        '8'
    } else if n == 9 {
        '9'
    } else if n == 10 {
        'a'
    } else if n == 11 {
        'b'
    } else if n == 12 {
        'c'
    } else if n == 13 {
        'd'
    } else if n == 14 {
        'e'
    } else {
        'f'
    }
}

/// One limb as 16 lowercase hex digits, most significant first and
/// zero-padded: digit i is the limb's bits 4*(15-i) and up, modulo 16.
pub open spec fn spec_hex16(v: u64) -> Seq<char> {
    Seq::new(16, |i: int| hex_char_of(((v as nat / pow2((4 * (15 - i)) as nat)) % 16) as int))
}

/// A 320-bit integer as five 64-bit limbs, `d0` least significant.
/// Every limb pattern is a valid value; equality is bitwise.
#[derive(Clone, Copy, Debug, PartialEq, Eq, Structural)]
pub struct I320 {
    pub d0: u64,
    pub d1: u64,
    pub d2: u64,
    pub d3: u64,
    pub d4: u64,
}

impl I320 {
    /// The limbs read as an unsigned base-2^64 number, in [0, 2^320).
    pub open spec fn unsigned_val(self) -> int {
        self.d0 + self.d1 * pow2_64() + self.d2 * pow2_128() + self.d3 * pow2_192()
            + self.d4 * pow2_256()
    }

    /// The limbs read as a two's-complement signed number, in
    /// [-2^319, 2^319); the sign is the top bit of limb 4.
    pub open spec fn signed_val(self) -> int {
        if self.d4 >= 0x8000_0000_0000_0000 {
            self.unsigned_val() - pow2_320()
        } else {
            self.unsigned_val()
        }
    }

    /// Range facts relating the two readings of a value.
    pub proof fn lemma_val_range(self)
        ensures
            0 <= self.unsigned_val() < pow2_320(),
            -pow2_319() <= self.signed_val() < pow2_319(),
            self.signed_val() == if self.unsigned_val() < pow2_319() {
                self.unsigned_val()
            } else {
                self.unsigned_val() - pow2_320()
            },
            (self.signed_val() - self.unsigned_val()) % pow2_320() == 0,
    {
        assert(self.d4 >= 0x8000_0000_0000_0000 <==> self.unsigned_val() >= pow2_319());
        if self.d4 >= 0x8000_0000_0000_0000 {
            lemma_mod_multiples_vanish(-1, 0, pow2_320());
        }
    }

    /// Builds a value from five limbs given most-significant first, so that
    /// literals read naturally; storage is least-significant first.
    pub fn new(d4: u64, d3: u64, d2: u64, d1: u64, d0: u64) -> (r: Self)
        ensures
            r == (I320 { d0, d1, d2, d3, d4 }),
    {
        Self { d0, d1, d2, d3, d4 }
    }

    /// True exactly when the value is even, i.e. the low bit of limb 0 is
    /// clear; the unsigned and signed readings agree on parity.
    pub fn is_even(&self) -> (r: bool)
        ensures
            r == (self.unsigned_val() % 2 == 0),
            r == (self.signed_val() % 2 == 0),
    {
        proof {
            let x = self.d0;
            assert((x & 0x1) == x % 2) by (bit_vector);
            lemma_mod_multiples_vanish(
                self.d1 * 0x8000_0000_0000_0000 + self.d2 * 0x8000_0000_0000_0000 * pow2_64()
                    + self.d3 * 0x8000_0000_0000_0000 * pow2_128() + self.d4
                    * 0x8000_0000_0000_0000 * pow2_192(),
                self.d0 as int,
                2,
            );
            if self.d4 >= 0x8000_0000_0000_0000 {
                lemma_mod_multiples_vanish(-pow2_319(), self.unsigned_val(), 2);
            }
        }
        self.d0 & 0x1 == 0x0
    }

    /// True exactly when every limb is zero, i.e. the value is zero.
    pub fn is_zero(&self) -> (r: bool)
        ensures
            r == (self.unsigned_val() == 0),
    {
        proof {
            let (x0, x1, x2, x3, x4) = (self.d0, self.d1, self.d2, self.d3, self.d4);
            assert((x0 | x1 | x2 | x3 | x4) == 0 <==> x0 == 0 && x1 == 0 && x2 == 0 && x3 == 0
                && x4 == 0) by (bit_vector);
        }
        (self.d0 | self.d1 | self.d2 | self.d3 | self.d4) == 0
    }

    /// One-bit right shift across the whole 320-bit field: the low bit of
    /// limb i+1 moves into the top bit of limb i, and limb 4 keeps its top
    /// bit, so on the signed reading this is exact division by two rounded
    /// toward minus infinity.
    pub fn div2(&mut self)
        ensures
            final(self).signed_val() == old(self).signed_val() / 2,
            2 * final(self).signed_val() == old(self).signed_val() - old(self).signed_val() % 2,
            old(self).unsigned_val() < pow2_319()
                ==> final(self).unsigned_val() == old(self).unsigned_val() / 2,
    {
        let (a0, a1, a2, a3, a4) = (self.d0, self.d1, self.d2, self.d3, self.d4);
        self.d0 = ((a1 & 0x1) << 63) | (a0 >> 1);
        self.d1 = ((a2 & 0x1) << 63) | (a1 >> 1);
        self.d2 = ((a3 & 0x1) << 63) | (a2 >> 1);
        self.d3 = ((a4 & 0x1) << 63) | (a3 >> 1);
        self.d4 = ((a4 >> 63) << 63) | (a4 >> 1);
        proof {
            let h: u64 = 0x8000_0000_0000_0000;
            assert(((a1 & 0x1) << 63) | (a0 >> 1) == (a1 % 2) * 0x8000_0000_0000_0000 + a0
                / 2) by (bit_vector);
            assert(((a2 & 0x1) << 63) | (a1 >> 1) == (a2 % 2) * 0x8000_0000_0000_0000 + a1
                / 2) by (bit_vector);
            assert(((a3 & 0x1) << 63) | (a2 >> 1) == (a3 % 2) * 0x8000_0000_0000_0000 + a2
                / 2) by (bit_vector);
            assert(((a4 & 0x1) << 63) | (a3 >> 1) == (a4 % 2) * 0x8000_0000_0000_0000 + a3
                / 2) by (bit_vector);
            assert(((a4 >> 63) << 63) | (a4 >> 1) == (a4 / 0x8000_0000_0000_0000)
                * 0x8000_0000_0000_0000 + a4 / 2) by (bit_vector);
            lemma_fundamental_div_mod(a0 as int, 2);
            lemma_fundamental_div_mod(a1 as int, 2);
            lemma_fundamental_div_mod(a2 as int, 2);
            lemma_fundamental_div_mod(a3 as int, 2);
            lemma_fundamental_div_mod(a4 as int, 2);
            lemma_fundamental_div_mod(a4 as int, h as int);
            let t = a4 as int / h as int;
            assert(0 <= t <= 1);
            let uo = old(self).unsigned_val();
            let un = self.unsigned_val();
            let r0 = a0 as int % 2;
            assert(2 * un == uo - r0 + t * pow2_320());
            old(self).lemma_val_range();
            self.lemma_val_range();
            let so = old(self).signed_val();
            let sn = self.signed_val();
            // the top bit of the result equals the old top bit, so the sign
            // correction cancels and the signed value is exactly halved
            assert(self.d4 >= 0x8000_0000_0000_0000 <==> t == 1);
            assert(2 * sn == so - r0);
            assert(so % 2 == r0) by {
                lemma_mod_multiples_vanish(
                    self.d1 as int * 0x8000_0000_0000_0000 + self.d2 as int
                        * 0x8000_0000_0000_0000 * pow2_64() + self.d3 as int
                        * 0x8000_0000_0000_0000 * pow2_128() + self.d4 as int
                        * 0x8000_0000_0000_0000 * pow2_192(),
                    self.d0 as int,
                    2,
                );
                lemma_mod_multiples_vanish(
                    a1 as int * 0x8000_0000_0000_0000 + a2 as int * 0x8000_0000_0000_0000
                        * pow2_64() + a3 as int * 0x8000_0000_0000_0000 * pow2_128() + a4 as int
                        * 0x8000_0000_0000_0000 * pow2_192(),
                    a0 as int,
                    2,
                );
                if old(self).d4 >= 0x8000_0000_0000_0000 {
                    lemma_mod_multiples_vanish(-pow2_319(), uo, 2);
                }
            };
            lemma_fundamental_div_mod_converse(so, 2, sn, r0);
            if uo < pow2_319() {
                lemma_fundamental_div_mod_converse(uo, 2, un, r0);
            }
        }
    }

    /// Adds `rhs` into `self`, limb-wise with a propagated carry; the carry
    /// out of limb 4 is discarded, so the unsigned value wraps at 2^320.
    #[verifier::rlimit(60)]
    pub fn add_assign(&mut self, rhs: &I320)
        ensures
            final(self).unsigned_val() == (old(self).unsigned_val() + rhs.unsigned_val())
                % pow2_320(),
            (-pow2_319() <= old(self).signed_val() + rhs.signed_val() < pow2_319())
                ==> final(self).signed_val() == old(self).signed_val() + rhs.signed_val(),
    {
        let (a0, a1, a2, a3, a4) = (self.d0, self.d1, self.d2, self.d3, self.d4);
        let (b0, b1, b2, b3, b4) = (rhs.d0, rhs.d1, rhs.d2, rhs.d3, rhs.d4);

        let t0: u128 = a0 as u128 + b0 as u128;
        proof { lemma_carry_parts(t0); }
        let c1: u128 = t0 >> 64;
        let t1: u128 = c1 + a1 as u128 + b1 as u128;
        proof { lemma_carry_parts(t1); }
        let c2: u128 = t1 >> 64;
        let t2: u128 = c2 + a2 as u128 + b2 as u128;
        proof { lemma_carry_parts(t2); }
        let c3: u128 = t2 >> 64;
        let t3: u128 = c3 + a3 as u128 + b3 as u128;
        proof { lemma_carry_parts(t3); }
        let c4: u128 = t3 >> 64;
        let t4: u128 = c4 + a4 as u128 + b4 as u128;
        proof { lemma_carry_parts(t4); }

        self.d0 = #[verifier::truncate] (t0 as u64);
        self.d1 = #[verifier::truncate] (t1 as u64);
        self.d2 = #[verifier::truncate] (t2 as u64);
        self.d3 = #[verifier::truncate] (t3 as u64);
        self.d4 = #[verifier::truncate] (t4 as u64);

        proof {
            let ua = old(self).unsigned_val();
            let ub = rhs.unsigned_val();
            let c5 = t4 as int / pow2_64();
            assert(self.unsigned_val() + c5 * pow2_320() == ua + ub);
            self.lemma_val_range();
            old(self).lemma_val_range();
            rhs.lemma_val_range();
            lemma_wrap_reduce(self.unsigned_val(), ua + ub);
            if -pow2_319() <= old(self).signed_val() + rhs.signed_val() < pow2_319() {
                lemma_signed_exact(*self, old(self).signed_val() + rhs.signed_val());
            }
        }
    }

    /// The sum of two values as a fresh value, with the same wraparound.
    pub fn add(&self, rhs: &I320) -> (r: I320)
        ensures
            r.unsigned_val() == (self.unsigned_val() + rhs.unsigned_val()) % pow2_320(),
            (-pow2_319() <= self.signed_val() + rhs.signed_val() < pow2_319()) ==> r.signed_val()
                == self.signed_val() + rhs.signed_val(),
    {
        let mut r = *self;
        r.add_assign(rhs);
        r
    }

    /// Subtracts `rhs` from `self`, limb-wise with a propagated borrow; the
    /// borrow out of limb 4 is discarded, so the unsigned value wraps at
    /// 2^320.
    #[verifier::rlimit(60)]
    pub fn sub_assign(&mut self, rhs: &I320)
        ensures
            final(self).unsigned_val() == (old(self).unsigned_val() - rhs.unsigned_val())
                % pow2_320(),
            (-pow2_319() <= old(self).signed_val() - rhs.signed_val() < pow2_319())
                ==> final(self).signed_val() == old(self).signed_val() - rhs.signed_val(),
    {
        let (a0, a1, a2, a3, a4) = (self.d0, self.d1, self.d2, self.d3, self.d4);
        let (b0, b1, b2, b3, b4) = (rhs.d0, rhs.d1, rhs.d2, rhs.d3, rhs.d4);

        let t0: u128 = (a0 as u128).wrapping_sub(b0 as u128);
        proof { lemma_borrow_parts(t0, a0, b0, 0); }
        let c1: u128 = (t0 >> 64) & 0x1;
        let t1: u128 = (a1 as u128).wrapping_sub(c1 + b1 as u128);
        proof { lemma_borrow_parts(t1, a1, b1, c1); }
        let c2: u128 = (t1 >> 64) & 0x1;
        let t2: u128 = (a2 as u128).wrapping_sub(c2 + b2 as u128);
        proof { lemma_borrow_parts(t2, a2, b2, c2); }
        let c3: u128 = (t2 >> 64) & 0x1;
        let t3: u128 = (a3 as u128).wrapping_sub(c3 + b3 as u128);
        proof { lemma_borrow_parts(t3, a3, b3, c3); }
        let c4: u128 = (t3 >> 64) & 0x1;
        let t4: u128 = (a4 as u128).wrapping_sub(c4 + b4 as u128);
        proof { lemma_borrow_parts(t4, a4, b4, c4); }
        let c5: u128 = (t4 >> 64) & 0x1;

        self.d0 = #[verifier::truncate] (t0 as u64);
        self.d1 = #[verifier::truncate] (t1 as u64);
        self.d2 = #[verifier::truncate] (t2 as u64);
        self.d3 = #[verifier::truncate] (t3 as u64);
        self.d4 = #[verifier::truncate] (t4 as u64);

        proof {
            let ua = old(self).unsigned_val();
            let ub = rhs.unsigned_val();
            assert(self.unsigned_val() - c5 * pow2_320() == ua - ub);
            self.lemma_val_range();
            old(self).lemma_val_range();
            rhs.lemma_val_range();
            lemma_wrap_reduce(self.unsigned_val(), ua - ub);
            if -pow2_319() <= old(self).signed_val() - rhs.signed_val() < pow2_319() {
                lemma_signed_exact(*self, old(self).signed_val() - rhs.signed_val());
            }
        }
    }

    /// The difference of two values as a fresh value, with the same
    /// wraparound.
    pub fn sub(&self, rhs: &I320) -> (r: I320)
        ensures
            r.unsigned_val() == (self.unsigned_val() - rhs.unsigned_val()) % pow2_320(),
            (-pow2_319() <= self.signed_val() - rhs.signed_val() < pow2_319()) ==> r.signed_val()
                == self.signed_val() - rhs.signed_val(),
    {
        let mut r = *self;
        r.sub_assign(rhs);
        r
    }

    /// The canonical hexadecimal rendering: `0x`, then the five limbs most
    /// significant first, each as 16 zero-padded lowercase hex digits, with
    /// no separators — 82 characters in all.
    pub fn to_hex(&self) -> (r: String)
        ensures
            r@ == seq!['0', 'x'] + spec_hex16(self.d4) + spec_hex16(self.d3) + spec_hex16(self.d2)
                + spec_hex16(self.d1) + spec_hex16(self.d0),
            r@.len() == 82,
    {
        let mut r = String::new();
        r.append("0x");
        proof {
            reveal_strlit("0x");
            assert(r@ =~= seq!['0', 'x']);
        }
        push_limb_hex(&mut r, self.d4);
        push_limb_hex(&mut r, self.d3);
        push_limb_hex(&mut r, self.d2);
        push_limb_hex(&mut r, self.d1);
        push_limb_hex(&mut r, self.d0);
        proof {
            assert(r@ =~= seq!['0', 'x'] + spec_hex16(self.d4) + spec_hex16(self.d3) + spec_hex16(
                self.d2,
            ) + spec_hex16(self.d1) + spec_hex16(self.d0));
        }
        r
    }
}

/// Appends one limb's 16 lowercase hex digits to `r`, most significant
/// digit first.
fn push_limb_hex(r: &mut String, v: u64)
    ensures
        final(r)@ == old(r)@ + spec_hex16(v),
{
    proof {
        assert(old(r)@ + spec_hex16(v).take(0) =~= old(r)@);
    }
    let mut i: usize = 0;
    while i < 16
        invariant
            0 <= i <= 16,
            r@ == old(r)@ + spec_hex16(v).take(i as int),
        decreases 16 - i,
    {
        let shift: u64 = (4 * (15 - i)) as u64;
        let q: u64 = v >> shift;
        let d: u64 = q & 0xf;
        proof {
            lemma_u64_shr_is_div(v, shift);
            assert((q & 0xf) == q % 16 && (q & 0xf) < 16) by (bit_vector);
            assert(d as int == ((v as nat / pow2((4 * (15 - i as int)) as nat)) % 16) as int);
            reveal_strlit("0");
            reveal_strlit("1");
            reveal_strlit("2");
            reveal_strlit("3");
            reveal_strlit("4");
            reveal_strlit("5");
            reveal_strlit("6");
            reveal_strlit("7");
            reveal_strlit("8");
            reveal_strlit("9");
            reveal_strlit("a");
            reveal_strlit("b");
            reveal_strlit("c");
            reveal_strlit("d");
            reveal_strlit("e");
            reveal_strlit("f");
        }
        let ghost pre = r@;
        if d == 0 {
            r.append("0");
        } else if d == 1 {
            r.append("1");
        } else if d == 2 {
            r.append("2");
        } else if d == 3 {
            r.append("3");
        } else if d == 4 {
            r.append("4");
        } else if d == 5 {
            r.append("5");
        } else if d == 6 {
            r.append("6");
        } else if d == 7 {
            r.append("7");
        } else if d == 8 {
            r.append("8");
        } else if d == 9 {
            r.append("9");
        } else if d == 10 {
            r.append("a");
        } else if d == 11 {
            r.append("b");
        } else if d == 12 {
            r.append("c");
        } else if d == 13 {
            r.append("d");
        } else if d == 14 {
            r.append("e");
        } else {
            r.append("f");
        }
        proof {
            assert(spec_hex16(v)[i as int] == hex_char_of(d as int));
            assert(r@ =~= pre + seq![spec_hex16(v)[i as int]]);
            assert(spec_hex16(v).take(i as int + 1) =~= spec_hex16(v).take(i as int) + seq![
                spec_hex16(v)[i as int],
            ]);
            assert(r@ =~= old(r)@ + spec_hex16(v).take(i as int + 1));
        }
        i = i + 1;
    }
    proof {
        assert(spec_hex16(v).take(16) =~= spec_hex16(v));
    }
}

/// Splits a limb sum `t = carry + a + b` (each at most one bit above 64
/// significant bits) into its low 64 bits and its carry bit.
proof fn lemma_carry_parts(t: u128)
    requires
        t < 0x2_0000_0000_0000_0000,
    ensures
        t as u64 == t % 0x1_0000_0000_0000_0000,
        t >> 64 == t as int / pow2_64(),
        t >> 64 <= 1,
        t == pow2_64() * ((t >> 64) as int) + (t as u64),
{
    assert(t as u64 == t % 0x1_0000_0000_0000_0000 && t >> 64 == t
        / 0x1_0000_0000_0000_0000) by (bit_vector);
    lemma_fundamental_div_mod(t as int, 0x1_0000_0000_0000_0000);
}

/// Splits a wrapping limb difference `t = (a - borrow - b) mod 2^128` into
/// its low 64 bits and its borrow bit, which is 0 or 1.
proof fn lemma_borrow_parts(t: u128, a: u64, b: u64, c: u128)
    requires
        c <= 1,
        t == if a - (c + b) < 0 {
            a - (c + b) + 0x1_0000_0000_0000_0000_0000_0000_0000_0000int
        } else {
            a - (c + b)
        },
    ensures
        ((t >> 64) & 0x1) <= 1,
        a - b - c == (t as u64) - pow2_64() * (((t >> 64) & 0x1) as int),
{
    assert(t as u64 == t % 0x1_0000_0000_0000_0000 && t >> 64 == t / 0x1_0000_0000_0000_0000 && ((
    t >> 64) & 0x1) == (t >> 64) % 2) by (bit_vector);
    let d = a - (c + b);
    if d >= 0 {
        lemma_fundamental_div_mod_converse(t as int, 0x1_0000_0000_0000_0000, 0, t as int);
    } else {
        lemma_fundamental_div_mod_converse(
            t as int,
            0x1_0000_0000_0000_0000,
            0xffff_ffff_ffff_ffff,
            d + 0x1_0000_0000_0000_0000int,
        );
    }
}

/// A value divisible by 2^320 and strictly inside (-2^320, 2^320) is zero.
proof fn lemma_small_multiple_is_zero(d: int)
    requires
        d % pow2_320() == 0,
        -pow2_320() < d < pow2_320(),
    ensures
        d == 0,
{
    lemma_fundamental_div_mod(d, pow2_320());
    let q = d / pow2_320();
    if q >= 1 {
        lemma_mul_inequality(1, q, pow2_320());
    }
    if q <= -1 {
        lemma_mul_inequality(q, -1, pow2_320());
    }
}

/// A result whose unsigned value differs from `s` by 0 or ±2^320 is the
/// 320-bit wraparound of `s`.
proof fn lemma_wrap_reduce(u: int, s: int)
    requires
        0 <= u < pow2_320(),
        u == s || u == s - pow2_320() || u == s + pow2_320(),
    ensures
        u == s % pow2_320(),
{
    if u == s {
        lemma_small_mod(u as nat, pow2_320() as nat);
    } else if u == s - pow2_320() {
        lemma_mod_sub_multiples_vanish(s, pow2_320());
        lemma_small_mod(u as nat, pow2_320() as nat);
    } else {
        lemma_mod_multiples_vanish(1, s, pow2_320());
        lemma_small_mod(u as nat, pow2_320() as nat);
    }
}

/// If a result's unsigned value is the 320-bit wraparound of `s` and `s`
/// lies in the signed range, the result's signed value is exactly `s`.
pub proof fn lemma_signed_exact(r: I320, s: int)
    requires
        r.unsigned_val() == s % pow2_320(),
        -pow2_319() <= s < pow2_319(),
    ensures
        r.signed_val() == s,
{
    r.lemma_val_range();
    lemma_fundamental_div_mod(s, pow2_320());
    let q = s / pow2_320();
    let d = r.signed_val() - s;
    if r.signed_val() == r.unsigned_val() {
        assert(d == (-q) * pow2_320());
        lemma_mod_multiples_basic(-q, pow2_320());
    } else {
        assert(d == (-q - 1) * pow2_320());
        lemma_mod_multiples_basic(-q - 1, pow2_320());
    }
    lemma_small_multiple_is_zero(d);
}

impl PartialOrd for I320 {
    /// Three-way comparison in two's-complement signed order: limb 4 decides
    /// by sign then raw magnitude, lower limbs compare as raw words.
    fn partial_cmp(&self, other: &Self) -> (r: Option<Ordering>) {
        proof {
            let (x, y) = (self.d4, other.d4);
            assert(((x ^ y) >> 63 == 0) <==> ((x >= 0x8000_0000_0000_0000) <==> (y
                >= 0x8000_0000_0000_0000))) by (bit_vector);
            self.lemma_val_range();
            other.lemma_val_range();
        }
        if self.d4 != other.d4 {
            let same_sign = (self.d4 ^ other.d4) >> 63 == 0;
            if self.d4 > other.d4 {
                if same_sign {
                    Some(Ordering::Greater)
                } else {
                    Some(Ordering::Less)
                }
            } else {
                if same_sign {
                    Some(Ordering::Less)
                } else {
                    Some(Ordering::Greater)
                }
            }
        } else if self.d3 != other.d3 {
            if self.d3 > other.d3 {
                Some(Ordering::Greater)
            } else {
                Some(Ordering::Less)
            }
        } else if self.d2 != other.d2 {
            if self.d2 > other.d2 {
                Some(Ordering::Greater)
            } else {
                Some(Ordering::Less)
            }
        } else if self.d1 != other.d1 {
            if self.d1 > other.d1 {
                Some(Ordering::Greater)
            } else {
                Some(Ordering::Less)
            }
        } else {
            if self.d0 > other.d0 {
                Some(Ordering::Greater)
            } else if self.d0 < other.d0 {
                Some(Ordering::Less)
            } else {
                Some(Ordering::Equal)
            }
        }
    }
}

impl vstd::std_specs::cmp::PartialOrdSpecImpl for I320 {
    open spec fn obeys_partial_cmp_spec() -> bool {
        true
    }

    open spec fn partial_cmp_spec(&self, other: &Self) -> Option<Ordering> {
        if self.signed_val() < other.signed_val() {
            Some(Ordering::Less)
        } else if self.signed_val() == other.signed_val() {
            Some(Ordering::Equal)
        } else {
            Some(Ordering::Greater)
        }
    }
}

} // verus!
