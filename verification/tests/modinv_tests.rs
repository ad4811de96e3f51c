use modinv::I320;

#[test]
fn it_div2() {
    let mut a = I320::new(
        0x0000000000000000,
        0x0000000000000000,
        0x0000000000000000,
        0x0000000000000100,
        0x0000000000000000,
    );
    let b = I320::new(
        0x0000000000000000,
        0x0000000000000000,
        0x0000000000000000,
        0x0000000000000020,
        0x0000000000000000,
    );

    a.div2();
    a.div2();
    a.div2();
    assert_eq!(a, b);
}

#[test]
fn it_tests_ordering() {
    let a = I320::new(
        0x8000000000000000,
        0x0000000000000000,
        0x0000000000000000,
        0x0000000000000000,
        0x0000000000000000,
    ); // -2^319

    let min_1 = I320::new(
        0xffffffffffffffff,
        0xffffffffffffffff,
        0xffffffffffffffff,
        0xffffffffffffffff,
        0xffffffffffffffff,
    ); // -1

    let b = I320::new(
        0x7fffffffffffffff,
        0xffffffffffffffff,
        0xffffffffffffffff,
        0xffffffffffffffff,
        0xffffffffffffffff,
    ); // 2^319 - 1
    let n_0 = I320::new(0, 0, 0, 0, 0);
    let n_1 = I320::new(0, 0, 0, 0, 1);

    assert!(a < min_1);
    assert!(min_1 > a);

    assert!(b > a);
    assert!(a < b);

    assert!(b > min_1);
    assert!(min_1 < b);

    assert!(min_1 < n_0);
    assert!(n_0 > min_1);

    assert!(a < n_0);
    assert!(n_0 > a);

    assert!(b > n_0);
    assert!(n_0 < b);

    assert!(n_1 > n_0);
    assert!(n_0 < n_1);

    assert!(b > n_1);
    assert!(n_1 < b);

    assert!(min_1 < n_1);
    assert!(n_1 > min_1);
}

#[test]
fn it_modinv() {
    let mut a = I320::new(
        0x0000000000000000,
        0xffffffffffffffff,
        0xffffffffffffffff,
        0xffffffffffffffff,
        0xfffffbfefffffc2f,
    );
    let mut b = I320::new(
        0x0000000000000000,
        0x7fffffffffffffff,
        0xffffffffffffffff,
        0xffffffffffffffff,
        0xffffffff7ffffe18,
    );
    let mut c = I320::new(
        0x0000000000000000,
        0x0000000000000000,
        0x0000000000000000,
        0x0000000000000000,
        0x0000000000111111,
    );

    let p = I320::new(
        0x0000000000000000,
        0xffffffffffffffff,
        0xffffffffffffffff,
        0xffffffffffffffff,
        0xfffffffefffffc2f,
    );

    let res = I320::new(
        0x0000000000000000,
        0xb88b76b2b3bfffff,
        0xffffffffffffffff,
        0xffffffffffffffff,
        0xffffffff4774868d,
    );
    let res2 = I320::new(
        0x0000000000000000,
        0x0000000000000000,
        0x0000000000000000,
        0x0000000000000000,
        0x0000000000000002,
    );
    let res3 = I320::new(
        0x0,
        0x3eb0f23eb0f23eb0,
        0xf23eb0f23eb0f23e,
        0xb0f23eb0f23eb0f2,
        0x3eb0f23e72414b83,
    );

    a.modinv(&p);
    assert_eq!(a, res);

    b.modinv(&p);
    assert_eq!(b, res2);

    c.modinv(&p);
    assert_eq!(c, res3);
}

#[test]
fn halving_crosses_limbs() {
    // one bit in limb 1 moves into the top of limb 0 after one halving
    let mut a = I320::new(0, 0, 0, 1, 0);
    a.div2();
    assert_eq!(a, I320::new(0, 0, 0, 0, 0x8000000000000000));
    // 2^64 halved 64 times is 1
    let mut b = I320::new(0, 0, 0, 1, 0);
    for _ in 0..64 {
        b.div2();
    }
    assert_eq!(b, I320::new(0, 0, 0, 0, 1));
}

#[test]
fn predicates_even_zero() {
    assert!(I320::new(0, 0, 0, 0, 0).is_zero());
    assert!(!I320::new(0, 0, 0, 0, 1).is_zero());
    assert!(!I320::new(1, 0, 0, 0, 0).is_zero());
    assert!(I320::new(0, 0, 0, 0, 2).is_even());
    assert!(I320::new(0, 0, 0, 7, 0).is_even());
    assert!(!I320::new(0, 0, 0, 0, 3).is_even());
}

#[test]
fn add_sub_wraparound_inverse() {
    // near the top of the range, so both operations wrap
    let p = I320::new(
        0xffffffffffffffff,
        0xffffffffffffffff,
        0xffffffffffffffff,
        0xffffffffffffffff,
        0xfffffffffffffffe,
    );
    let q = I320::new(0, 0, 0, 1, 5);
    let mut s = p.add(&q);
    s.sub_assign(&q);
    assert_eq!(s, p);
    let mut d = p.sub(&q);
    d.add_assign(&q);
    assert_eq!(d, p);
    // a small concrete wrapped sum: (2^320 - 1) + 2 == 1
    let all_ones = I320::new(
        0xffffffffffffffff,
        0xffffffffffffffff,
        0xffffffffffffffff,
        0xffffffffffffffff,
        0xffffffffffffffff,
    );
    let two = I320::new(0, 0, 0, 0, 2);
    assert_eq!(all_ones.add(&two), I320::new(0, 0, 0, 0, 1));
}

#[test]
fn modinv_identity() {
    let p = I320::new(
        0x0000000000000000,
        0xffffffffffffffff,
        0xffffffffffffffff,
        0xffffffffffffffff,
        0xfffffffefffffc2f,
    );
    let one = I320::new(0, 0, 0, 0, 1);
    let mut a = one;
    a.modinv(&p);
    assert_eq!(a, one);
    let small = I320::new(0, 0, 0, 0, 0xb5);
    let mut b = one;
    b.modinv(&small);
    assert_eq!(b, one);
}

#[test]
fn modinv_round_trip() {
    let p = I320::new(
        0x0000000000000000,
        0xffffffffffffffff,
        0xffffffffffffffff,
        0xffffffffffffffff,
        0xfffffffefffffc2f,
    );
    let b = I320::new(
        0x0000000000000000,
        0x7fffffffffffffff,
        0xffffffffffffffff,
        0xffffffffffffffff,
        0xffffffff7ffffe18,
    );
    // inverting b gives 2; inverting 2 gives b back
    let mut r = b;
    r.modinv(&p);
    assert_eq!(r, I320::new(0, 0, 0, 0, 2));
    r.modinv(&p);
    assert_eq!(r, b);
}

#[test]
fn div2_mod_adds_modulus_when_odd() {
    let m = I320::new(0, 0, 0, 0, 5);
    let mut v = I320::new(0, 0, 0, 0, 3);
    v.div2_mod(&m);
    // 3 is odd: (3 + 5) / 2 == 4
    assert_eq!(v, I320::new(0, 0, 0, 0, 4));
    let mut w = I320::new(0, 0, 0, 0, 6);
    w.div2_mod(&m);
    assert_eq!(w, I320::new(0, 0, 0, 0, 3));
}

#[test]
fn hex_rendering() {
    let zero = I320::new(0, 0, 0, 0, 0);
    assert_eq!(
        zero.to_hex(),
        "0x00000000000000000000000000000000000000000000000000000000000000000000000000000000"
    );
    let v = I320::new(
        0x0102030405060708,
        0xf1f2f3f4f5f6f7f8,
        0x0000000000000000,
        0xabcdef0123456789,
        0x1122334455667788,
    );
    assert_eq!(
        v.to_hex(),
        "0x0102030405060708f1f2f3f4f5f6f7f80000000000000000abcdef01234567891122334455667788"
    );
    let p = I320::new(
        0x0000000000000000,
        0xffffffffffffffff,
        0xffffffffffffffff,
        0xffffffffffffffff,
        0xfffffffefffffc2f,
    );
    assert_eq!(
        p.to_hex(),
        "0x0000000000000000fffffffffffffffffffffffffffffffffffffffffffffffffffffffefffffc2f"
    );
}

#[test]
fn modinv_returns_reduced_representative() {
    // small moduli where the raw loop is prone to leave a representative
    // outside [0, m); the result must still be the canonical inverse
    let cases: [(u64, u64, u64); 3] = [(3, 5, 2), (2, 7, 4), (10, 13, 4)];
    for (a, m, inv) in cases {
        let mut v = I320::new(0, 0, 0, 0, a);
        let modulus = I320::new(0, 0, 0, 0, m);
        v.modinv(&modulus);
        assert_eq!(v, I320::new(0, 0, 0, 0, inv));
    }
}
