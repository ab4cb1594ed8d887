use pairings::bigint::BigInt;
use pairings::errors::ErrorKind;
use pairings::field::{Field, Scalar};
use pairings::finite_field::FiniteField;
use pairings::prime_field::PrimeField;
use pairings::rng::Lcg;

type F5 = PrimeField<5>;
type F7 = PrimeField<7>;
type F19 = PrimeField<19>;
type Fq19 = FiniteField<19, 2>;

fn pf<const P: u32>(v: u64) -> PrimeField<P> {
    PrimeField { value: v }
}

/// Fq = F19[X]/(X^2 + 1): the fold-back coefficients of I are [-1, 0].
fn fq(c0: u64, c1: u64) -> Fq19 {
    FiniteField {
        coords: vec![pf::<19>(c0), pf::<19>(c1)],
        polynomial: vec![pf::<19>(18), pf::<19>(0)],
    }
}

fn big(v: u64) -> BigInt {
    BigInt::from_u64(v)
}

fn big_to_u64(b: &BigInt) -> u64 {
    assert!(b.is_positive() || b.is_zero());
    let bits = b.duplicate().to_bits();
    let mut v: u64 = 0;
    for i in (0..bits.len()).rev() {
        v = 2 * v + if bits[i] { 1 } else { 0 };
    }
    v
}

// --- BigInt -----------------------------------------------------------------

#[test]
fn bigint_basics() {
    assert!(BigInt::zero().is_zero());
    assert!(BigInt::one().is_one());
    assert!(!BigInt::zero().is_positive());
    assert!(big(42).is_positive());
    assert!(big(7).is_odd());
    assert!(!big(8).is_odd());
    assert_eq!(big_to_u64(&big(123456789)), 123456789);
}

#[test]
fn bigint_arithmetic() {
    let s = big(123456789).add(big(987654321));
    assert_eq!(big_to_u64(&s), 1111111110);
    let d = big(1000).sub(&big(1));
    assert_eq!(big_to_u64(&d), 999);
    let m = big(123456).mul(&big(654321));
    assert_eq!(big_to_u64(&m), 123456 * 654321);
    let q = big(1000000).div(&big(3571));
    assert_eq!(big_to_u64(&q), 1000000 / 3571);
    let p = big(3).pow(&big(20));
    assert_eq!(big_to_u64(&p), 3486784401);
    let r = big(1000000007).modulo(&97);
    assert_eq!(big_to_u64(&r), 1000000007 % 97);
}

#[test]
fn bigint_negative_values() {
    // -7 via 0 - 7
    let neg7 = BigInt::zero().sub(&big(7));
    assert!(!neg7.is_positive());
    assert!(!neg7.is_zero());
    assert!(neg7.is_odd());
    assert_eq!(big_to_u64(&neg7.abs()), 7);
    // truncating division: -7 / 2 == -3
    let q = BigInt::zero().sub(&big(7)).div(&big(2));
    assert_eq!(big_to_u64(&q.abs()), 3);
    assert!(!q.is_positive());
    // (-3)^3 == -27
    let c = BigInt::zero().sub(&big(3)).pow(&big(3));
    assert!(!c.is_positive());
    assert_eq!(big_to_u64(&c.abs()), 27);
    // euclidean residue: -7 mod 5 == 3
    let m = BigInt::zero().sub(&big(7)).modulo(&5);
    assert_eq!(big_to_u64(&m), 3);
}

#[test]
fn bigint_largest_word() {
    let m = big(u64::MAX);
    assert_eq!(big_to_u64(&m), u64::MAX);
    let m2 = m.mul(&big(2));
    assert_eq!(big_to_u64(&m2.duplicate().modulo(&1000000007)), (u64::MAX as u128 * 2 % 1000000007) as u64);
    assert_eq!(big_to_u64(&m2.div(&big(2))), u64::MAX);
}

#[test]
fn prime_field_near_word_boundary() {
    // the largest 32-bit prime: products stress the full 64-bit range
    type Fbig = PrimeField<4294967291>;
    let a: Fbig = PrimeField { value: 4294967290 };
    // (P-1)^2 == 1 mod P
    assert_eq!(a.mul(&a).value, 1);
    assert_eq!(a.add(&a).value, 4294967289);
    assert_eq!(a.square().value, 1);
    let inv = a.invert().unwrap();
    assert_eq!(a.mul(&inv).value, 1);
}

#[test]
fn bigint_to_bits_canonical() {
    let bits = big(6).to_bits();
    assert_eq!(bits, vec![false, true, true]);
    let none = big(0).to_bits();
    assert!(none.is_empty());
}

// --- Prime field smoke values on F5 ------------------------------------

#[test]
fn f5_add_mul() {
    let a: F5 = pf(3);
    let b: F5 = pf(4);
    assert_eq!(a.add(&b).value, 2);
    assert_eq!(a.mul(&b).value, 2);
}

#[test]
fn f5_invert() {
    let a: F5 = pf(3);
    let inv = a.invert().unwrap();
    assert_eq!(inv.value, 2);
}

#[test]
fn f5_sqrt_of_4() {
    let mut rng = Lcg::new(0xfeed);
    let a: F5 = pf(4);
    let r = a.sqrt(&mut rng).unwrap();
    assert!(r.value == 2 || r.value == 3);
    assert_eq!(r.mul(&r).value, 4);
}

#[test]
fn f5_sqrt_of_2_fails() {
    let mut rng = Lcg::new(0xfeed);
    let a: F5 = pf(2);
    let e = a.sqrt(&mut rng).unwrap_err();
    assert!(matches!(e, ErrorKind::NonQuadraticResidue));
}

#[test]
fn div_by_zero_has_no_inverse() {
    let a: F5 = pf(3);
    let z: F5 = pf(0);
    let e = a.div(&z).unwrap_err();
    assert!(matches!(e, ErrorKind::NoInverse));
    let e2 = z.invert().unwrap_err();
    assert!(matches!(e2, ErrorKind::NoInverse));
}

// --- The field axioms on concrete values --------------------------------

#[test]
fn field_axioms_hold_in_f7() {
    for av in 0..7u64 {
        for bv in 0..7u64 {
            let a: F7 = pf(av);
            let b: F7 = pf(bv);
            assert_eq!(a.add(&b).value, b.add(&a).value);
            assert_eq!(a.mul(&b).value, b.mul(&a).value);
            for cv in 0..7u64 {
                let c: F7 = pf(cv);
                assert_eq!(a.add(&b).add(&c).value, a.add(&b.add(&c)).value);
                assert_eq!(a.mul(&b).mul(&c).value, a.mul(&b.mul(&c)).value);
                assert_eq!(a.mul(&b.add(&c)).value, a.mul(&b).add(&a.mul(&c)).value);
            }
            assert_eq!(a.add(&a.zero()).value, av);
            assert_eq!(a.mul(&a.one()).value, av);
            assert_eq!(a.add(&a.neg()).value, 0);
        }
        if av != 0 {
            let a: F7 = pf(av);
            let inv = a.invert().unwrap();
            assert_eq!(a.mul(&inv).value, 1);
        }
    }
}

#[test]
fn pow_laws_hold_in_f7() {
    let a: F7 = pf(3);
    assert_eq!(a.pow(&big(0)).value, 1);
    assert_eq!(a.pow(&big(1)).value, 3);
    for m in 0..10u64 {
        for n in 0..10u64 {
            assert_eq!(
                a.pow(&big(m + n)).value,
                a.pow(&big(m)).mul(&a.pow(&big(n))).value
            );
        }
    }
    // zpow with a negative exponent goes through the inverse
    assert_eq!(a.zpow(-1).value, a.invert().unwrap().value);
    assert_eq!(a.zpow(-2).value, a.invert().unwrap().square().value);
    assert_eq!(a.zpow(0).value, 1);
}

// --- Square roots really square back ------------------------------------

#[test]
fn sqrt_round_trip_f19() {
    let mut rng = Lcg::new(7);
    // zero is its own root (and fails Euler's criterion by convention)
    let z: F19 = pf(0);
    assert!(!z.is_square());
    assert_eq!(z.sqrt(&mut rng).unwrap().value, 0);
    for v in 1..19u64 {
        let a: F19 = pf(v);
        if a.is_square() {
            let r = a.sqrt(&mut rng).unwrap();
            assert_eq!(r.mul(&r).value, v);
        } else {
            assert!(a.sqrt(&mut rng).is_err());
        }
    }
}

#[test]
fn sqrt_succeeds_on_every_square_f19() {
    let mut rng = Lcg::new(3);
    for v in 0..19u64 {
        let a: F19 = pf(v);
        let sq = a.mul(&a);
        let r = sq.sqrt(&mut rng).unwrap();
        assert_eq!(r.mul(&r).value, sq.value);
    }
}

#[test]
fn sqrt_succeeds_on_every_square_fq19() {
    let mut rng = Lcg::new(5);
    for c0 in 0..19u64 {
        for c1 in 0..19u64 {
            let a = fq(c0, c1);
            let sq = a.mul(&a);
            let r = sq.sqrt(&mut rng).unwrap();
            assert!(r.mul(&r).equals(&sq));
        }
    }
}

#[test]
fn sqrt_round_trip_fq19() {
    let mut rng = Lcg::new(11);
    // -1 is a square in F19^2 (it is the square of X)
    let minus_one = fq(18, 0);
    assert!(minus_one.is_square());
    let r = minus_one.sqrt(&mut rng).unwrap();
    assert!(r.mul(&r).equals(&minus_one));
    // X itself squares to -1
    let i = fq(0, 1);
    assert!(i.mul(&i).equals(&minus_one));
}

// --- Extension field arithmetic ---------------------------------------------

#[test]
fn fq19_ring_operations() {
    let i = fq(0, 1);
    let a = fq(3, 4);
    let b = fq(5, 7);
    // i^2 == -1
    assert!(i.mul(&i).equals(&fq(18, 0)));
    // (3 + 4i) + (5 + 7i) == 8 + 11i
    assert!(a.add(&b).equals(&fq(8, 11)));
    // (3 + 4i) * (5 + 7i) == (15 - 28) + (21 + 20) i == -13 + 41 i == 6 + 3 i
    assert!(a.mul(&b).equals(&fq(6, 3)));
    // neg then add gives zero
    assert!(a.add(&a.neg()).is_zero());
    // zmul is repeated addition
    assert!(a.zmul(3).equals(&a.add(&a).add(&a)));
    assert!(a.zmul(-1).equals(&a.neg()));
}

#[test]
fn fq19_invert_and_div() {
    let a = fq(3, 4);
    let inv = a.invert().unwrap();
    assert!(a.mul(&inv).equals(&fq(1, 0)));
    let b = fq(5, 7);
    let q = b.div(&a).unwrap();
    assert!(q.mul(&a).equals(&b));
    let z = fq(0, 0);
    assert!(matches!(z.invert().unwrap_err(), ErrorKind::NoInverse));
}

#[test]
fn fq19_orders_and_degree() {
    let a = fq(2, 5);
    assert_eq!(big_to_u64(&a.order()), 361);
    assert_eq!(big_to_u64(&Fq19::base_order()), 19);
    assert_eq!(Fq19::degree(), 2);
    assert_eq!(F19::degree(), 1);
    let b: F19 = pf(2);
    assert_eq!(big_to_u64(&b.order()), 19);
}

#[test]
fn fq19_pow_matches_repeated_mul() {
    let a = fq(3, 4);
    let mut acc = fq(1, 0);
    for e in 0..12u64 {
        assert!(a.pow(&big(e)).equals(&acc));
        acc = acc.mul(&a);
    }
    // Fermat in the field: a^(q-1) == 1 for a != 0
    assert!(a.pow(&big(360)).equals(&fq(1, 0)));
}

#[test]
fn random_elements_are_reduced() {
    let mut rng = Lcg::new(99);
    let seed: F19 = pf(0);
    for _ in 0..50 {
        let r = seed.random_element(&mut rng);
        assert!(r.value < 19);
    }
    let fseed = fq(0, 0);
    let r = fseed.random_element(&mut rng);
    assert_eq!(r.coords.len(), 2);
    assert!(r.coords[0].value < 19 && r.coords[1].value < 19);
}

#[test]
fn scalar_carries_both_kinds() {
    let s1: Scalar<19, 2> = Scalar::PFScalar(pf(3));
    let s2: Scalar<19, 2> = Scalar::FFScalar(fq(1, 2));
    match s1 {
        Scalar::PFScalar(v) => assert_eq!(v.value, 3),
        Scalar::FFScalar(_) => panic!("wrong variant"),
    }
    match s2 {
        Scalar::FFScalar(v) => assert_eq!(v.coords[1].value, 2),
        Scalar::PFScalar(_) => panic!("wrong variant"),
    }
}
