use calc_flash::bigint::BigInt;
use calc_flash::display::INLINE_LIMIT;
use calc_flash::factorial::{fact_cache, factorial_in_range, product_tree};
use calc_flash::natural::Natural;
use calc_flash::primes::{legendre, sieve};
use calc_flash::token::CalcError;

fn n(x: u64) -> Natural {
    Natural::from_u64(x)
}

#[test]
fn natural_arithmetic() {
    let big = n(u64::MAX).mul(&n(u64::MAX));
    assert_eq!(big.to_decimal(), "340282366920938463426481119284349108225");
    assert_eq!(big.limbs().len(), 2);
    assert_eq!(n(u64::MAX).add(&n(1)).to_decimal(), "18446744073709551616");
    let (d, less) = n(3).abs_diff(&n(10));
    assert_eq!((d.to_decimal(), less), ("7".to_string(), true));
    let (q, r) = big.div_rem(&n(1000));
    assert_eq!(q.to_decimal(), "340282366920938463426481119284349108");
    assert_eq!(r.to_decimal(), "225");
    assert_eq!(n(3).pow(40).to_decimal(), "12157665459056928801");
    assert_eq!(n(0).to_decimal(), "0");
    assert!(n(0).is_zero());
    assert!(n(0).limbs().is_empty());
    assert_eq!(n(4_294_967_295).to_u32(), Some(u32::MAX));
    assert_eq!(n(4_294_967_296).to_u32(), None);
    assert_eq!(n(7).significant_bits(), 3);
    assert_eq!(n(0).significant_bits(), 0);
}

#[test]
fn signed_arithmetic() {
    let a = BigInt::from_i64(-7);
    let b = BigInt::from_i64(3);
    assert_eq!(a.add(&b).to_decimal(), "-4");
    assert_eq!(b.sub(&a).to_decimal(), "10");
    assert_eq!(a.mul(&b).to_decimal(), "-21");
    assert_eq!(a.mul(&BigInt::from_i64(0)).to_decimal(), "0");
    assert!(!a.mul(&BigInt::from_i64(0)).is_negative());
    assert_eq!(a.rem(&b).to_decimal(), "-1");
    assert_eq!(BigInt::from_i64(7).rem(&BigInt::from_i64(-3)).to_decimal(), "1");
    assert!(a.div_exact(&b).is_none());
    assert_eq!(
        BigInt::from_i64(-21).div_exact(&b).unwrap().to_decimal(),
        "-7"
    );
    assert_eq!(BigInt::from_i64(i64::MIN).to_decimal(), "-9223372036854775808");
    assert_eq!(a.neg().to_decimal(), "7");
    assert!(a.is_negative() && !a.is_zero());
    assert_eq!(a.copy().to_decimal(), "-7");
}

#[test]
fn integer_power() {
    let base = BigInt::from_i64(-2);
    assert_eq!(base.checked_pow(&BigInt::from_i64(3)).unwrap().to_decimal(), "-8");
    assert_eq!(base.checked_pow(&BigInt::from_i64(4)).unwrap().to_decimal(), "16");
    assert_eq!(BigInt::from_i64(0).checked_pow(&BigInt::from_i64(0)).unwrap().to_decimal(), "1");
    assert_eq!(
        base.checked_pow(&BigInt::from_i64(4_000_001)).err(),
        Some(CalcError::ExponentTooLarge)
    );
    let huge = BigInt::from_natural(n(u64::MAX).mul(&n(u64::MAX)));
    assert_eq!(base.checked_pow(&huge).err(), Some(CalcError::ExponentTooLarge));
}

#[test]
fn display_of_results() {
    let small = BigInt::from_i64(-12345);
    assert_eq!(small.approx_digits(), 5);
    assert_eq!(small.display_string(), "-12345");
    assert_eq!(BigInt::from_i64(0).approx_digits(), 1);
    let big = BigInt::from_natural(n(10).pow(20_000));
    assert!(big.approx_digits() > INLINE_LIMIT);
    assert_eq!(
        big.display_string(),
        "[20001-digit number: 100000000000...00000000]  (use :full or :save <file>)"
    );
    let edge = BigInt::from_natural(n(10).pow(9_990));
    assert!(edge.approx_digits() <= INLINE_LIMIT);
    assert_eq!(edge.display_string().len(), 9_991);
}

#[test]
fn primes_up_to() {
    assert_eq!(sieve(30), vec![2, 3, 5, 7, 11, 13, 17, 19, 23, 29]);
    assert_eq!(sieve(1), Vec::<u64>::new());
    assert_eq!(sieve(0), Vec::<u64>::new());
    assert_eq!(sieve(2), vec![2]);
    assert_eq!(sieve(10_000).len(), 1229);
}

#[test]
fn legendre_exponents() {
    assert_eq!(legendre(10, 2), 8);
    assert_eq!(legendre(100, 5), 24);
    assert_eq!(legendre(1000, 7), 164);
    assert_eq!(legendre(1, 2), 0);
    assert_eq!(legendre(u64::MAX, u64::MAX), 1);
}

#[test]
fn products() {
    assert_eq!(product_tree(&[]).to_decimal(), "1");
    assert_eq!(product_tree(&[n(6)]).to_decimal(), "6");
    let fs: Vec<Natural> = (1..=20).map(n).collect();
    assert_eq!(product_tree(&fs).to_decimal(), "2432902008176640000");
}

#[test]
fn factorial_table() {
    let t = fact_cache();
    assert_eq!(t.len(), 1001);
    assert_eq!(t[0].to_decimal(), "1");
    assert_eq!(t[5].to_decimal(), "120");
    assert_eq!(t[20].to_decimal(), "2432902008176640000");
    assert_eq!(t[1000].to_decimal().len(), 2568);
}

fn digits_of(x: &BigInt) -> usize {
    let s = x.to_decimal();
    s.trim_start_matches('-').len()
}

fn within_one(x: &BigInt) -> bool {
    let a = x.approx_digits() as i64;
    let d = digits_of(x) as i64;
    (a - d).abs() <= 1
}

#[test]
fn digit_estimate_is_within_one() {
    let two = n(2);
    let ten = n(10);
    for k in 0..2500u32 {
        let p2 = two.pow(k);
        let (p2m1, _) = p2.abs_diff(&n(1));
        let p10 = ten.pow(k);
        let (p10m1, _) = p10.abs_diff(&n(1));
        for v in [p2, p2m1, p10, p10m1] {
            let x = BigInt::from_natural(v);
            assert!(within_one(&x), "{}", x.to_decimal().len());
            assert!(within_one(&x.neg()));
        }
    }
    let big = BigInt::from_natural(two.pow(999_999));
    assert_eq!(digits_of(&big), 301_030);
    assert!(within_one(&big));
    let (m, _) = two.pow(217_769).abs_diff(&n(1));
    let mersenne = BigInt::from_natural(m);
    assert_eq!(digits_of(&mersenne), 65_556);
    assert!(within_one(&mersenne));
}

#[test]
fn factorial_range() {
    assert!(factorial_in_range(0));
    assert!(factorial_in_range(u32::MAX as u64));
    if usize::MAX as u64 == u64::MAX {
        assert!(factorial_in_range(1 << 32));
        assert!(factorial_in_range((1 << 32) + 1));
    }
    assert!(!factorial_in_range((1 << 32) + 2));
    assert!(!factorial_in_range(u64::MAX));
}
