use hokg::utils::extended_gcd;
use hokg::{gcd, mod_inverse, mod_sqrt, BigInt, Error};

fn big(v: i64) -> BigInt {
    BigInt::from_i64(v)
}

fn num(x: &BigInt) -> num_bigint_dig::BigInt {
    num_bigint_dig::BigInt::from_signed_bytes_be(x.signed_bytes())
}

#[test]
fn integers_are_built_from_machine_integers() {
    assert_eq!(BigInt::from_i64(-5).to_u64(), None);
    assert_eq!(BigInt::from_i64(5).to_u64(), Some(5));
    assert_eq!(BigInt::from_u64(u64::MAX).to_u64(), Some(u64::MAX));
    assert_eq!(BigInt::from_u64(0).to_u64(), Some(0));
    assert_eq!(BigInt::from_u64(7), BigInt::from_i64(7));
    assert_ne!(BigInt::from_u64(7), BigInt::from_i64(-7));
}

#[test]
fn integers_are_built_from_signed_bytes() {
    assert_eq!(BigInt::from_signed_bytes_be(vec![251, 155]), big(-1125));
    assert_eq!(BigInt::from_signed_bytes_be(vec![4, 101]), big(1125));
    assert_eq!(BigInt::from_signed_bytes_be(vec![]), big(0));
    assert_eq!(BigInt::from_signed_bytes_be(vec![0, 0, 255]), big(255));
    assert_eq!(BigInt::from_signed_bytes_be(vec![255]), big(-1));
    assert_eq!(BigInt::from_signed_bytes_be(vec![255, 255, 128]), big(-128));
    assert_eq!(BigInt::from_signed_bytes_be(vec![251, 155]).signed_bytes(), &vec![251u8, 155]);
    assert_eq!(BigInt::from_signed_bytes_be(big(-1125).signed_bytes().clone()), big(-1125));
}

#[test]
fn integers_have_signed_bytes() {
    for v in [0i64, 1, -1, 127, 128, -128, -129, 255, 256, 1125, -1125, i64::MAX, i64::MIN] {
        assert_eq!(num(&BigInt::from_i64(v)), num_bigint_dig::BigInt::from(v));
    }
    for v in [0u64, 1, 255, 256, 1 << 63, u64::MAX] {
        assert_eq!(num(&BigInt::from_u64(v)), num_bigint_dig::BigInt::from(v));
    }
}

#[test]
fn the_value_as_u64() {
    for v in [0u64, 1, 255, 256, 65535, 1 << 56, (1 << 63) - 1, 1 << 63, u64::MAX] {
        assert_eq!(BigInt::from_u64(v).to_u64(), Some(v));
    }
    assert_eq!(BigInt::from_i64(i64::MAX).to_u64(), Some(i64::MAX as u64));
    assert_eq!(BigInt::from_i64(-1).to_u64(), None);
    assert_eq!(BigInt::from_i64(i64::MIN).to_u64(), None);
    assert_eq!(BigInt::from_signed_bytes_be(vec![]).to_u64(), Some(0));
    assert_eq!(BigInt::from_signed_bytes_be(vec![0, 0, 0, 1, 0]).to_u64(), Some(256));
}

#[test]
fn an_integer_beyond_the_machine_range_has_no_u64() {
    let two_to_the_64 = BigInt::from_signed_bytes_be(vec![1, 0, 0, 0, 0, 0, 0, 0, 0]);
    assert_eq!(two_to_the_64.to_u64(), None);
    let two_to_the_70 = BigInt::from_signed_bytes_be(vec![64, 0, 0, 0, 0, 0, 0, 0, 0]);
    assert_eq!(two_to_the_70.to_u64(), None);
    let largest = BigInt::from_signed_bytes_be(vec![0, 255, 255, 255, 255, 255, 255, 255, 255]);
    assert_eq!(largest.to_u64(), Some(u64::MAX));
    let padded = BigInt::from_signed_bytes_be(vec![0, 0, 0, 255, 255, 255, 255, 255, 255, 255, 255]);
    assert_eq!(padded.to_u64(), Some(u64::MAX));
}

#[test]
fn reduction_is_never_negative() {
    assert_eq!(big(-7).reduce(&big(5)), big(3));
    assert_eq!(big(7).reduce(&big(5)), big(2));
    assert_eq!(big(-10).reduce(&big(5)), big(0));
    assert_eq!(big(0).reduce(&big(5)), big(0));
    assert_eq!(big(4).reduce(&big(1)), big(0));
    assert_eq!(big(i64::MIN).reduce(&big(1000)), big(192));
}

#[test]
fn signs() {
    assert_eq!(big(-4).magnitude(), big(4));
    assert_eq!(big(4).magnitude(), big(4));
    assert_eq!(big(0).magnitude(), big(0));
    assert!(big(-4).is_negative());
    assert!(big(i64::MIN).is_negative());
    assert!(!big(0).is_negative());
    assert!(!big(4).is_negative());
    assert!(!BigInt::from_u64(u64::MAX).is_negative());
    assert!(!BigInt::from_signed_bytes_be(vec![]).is_negative());
}

#[test]
fn integers_compare_by_their_value() {
    assert_eq!(big(3), big(3));
    assert_ne!(big(3), big(-3));
    assert_ne!(big(3), big(4));
    assert_eq!(BigInt::from_signed_bytes_be(vec![0, 0, 3]), big(3));
    assert_eq!(BigInt::from_signed_bytes_be(vec![255, 255, 253]), big(-3));
}

#[test]
fn copies_are_equal() {
    let x = big(-123456789);
    assert_eq!(x.duplicate(), x);
    assert_eq!(x.clone(), x);
    assert_eq!(x.duplicate().signed_bytes(), x.signed_bytes());
}

#[test]
fn gcd_of_small_numbers() {
    assert_eq!(gcd(&big(12), &big(18)), big(6));
    assert_eq!(gcd(&big(18), &big(12)), big(6));
    assert_eq!(gcd(&big(17), &big(5)), big(1));
    assert_eq!(gcd(&big(240), &big(46)), big(2));
}

#[test]
fn gcd_is_never_negative() {
    assert_eq!(gcd(&big(-12), &big(18)), big(6));
    assert_eq!(gcd(&big(12), &big(-18)), big(6));
    assert_eq!(gcd(&big(-12), &big(-18)), big(6));
    assert_eq!(gcd(&big(-4), &big(0)), big(4));
    assert_eq!(gcd(&big(0), &big(-4)), big(4));
}

#[test]
fn gcd_with_zero() {
    assert_eq!(gcd(&big(0), &big(0)), big(0));
    assert_eq!(gcd(&big(9), &big(0)), big(9));
    assert_eq!(gcd(&big(0), &big(9)), big(9));
}

#[test]
fn extended_gcd_combines_to_the_last_remainder() {
    for (a, b) in [(240, 46), (46, 240), (-240, 46), (3, -7), (0, 5), (0, 0), (-5, 0), (-12, -18)] {
        let (g, x, y) = extended_gcd(&big(a), &big(b));
        assert_eq!(num(&big(a)) * num(&x) + num(&big(b)) * num(&y), num(&g));
        assert_eq!(g.magnitude(), gcd(&big(a), &big(b)));
    }
}

#[test]
fn extended_gcd_gives_the_coefficients_of_the_steps() {
    let triple = |g: i64, x: i64, y: i64| (big(g), big(x), big(y));
    assert_eq!(extended_gcd(&big(240), &big(46)), triple(2, -9, 47));
    assert_eq!(extended_gcd(&big(46), &big(240)), triple(2, 47, -9));
    assert_eq!(extended_gcd(&big(17), &big(5)), triple(1, -2, 7));
    assert_eq!(extended_gcd(&big(-240), &big(46)), triple(2, 9, 47));
    assert_eq!(extended_gcd(&big(-3), &big(7)), triple(1, 2, 1));
}

#[test]
fn extended_gcd_keeps_the_sign_that_the_steps_leave() {
    let triple = |g: i64, x: i64, y: i64| (big(g), big(x), big(y));
    assert_eq!(extended_gcd(&big(240), &big(-46)), triple(-2, 9, 47));
    assert_eq!(extended_gcd(&big(3), &big(-7)), triple(-1, 2, 1));
    assert_eq!(extended_gcd(&big(-1), &big(5)), triple(-1, 1, 0));
    assert_eq!(extended_gcd(&big(-12), &big(-18)), triple(-6, -1, 1));
    assert_eq!(extended_gcd(&big(0), &big(-5)), triple(-5, 0, 1));
}

#[test]
fn extended_gcd_without_a_second_number() {
    let triple = |g: i64, x: i64, y: i64| (big(g), big(x), big(y));
    assert_eq!(extended_gcd(&big(5), &big(0)), triple(5, 1, 0));
    assert_eq!(extended_gcd(&big(-5), &big(0)), triple(-5, 1, 0));
    assert_eq!(extended_gcd(&big(0), &big(0)), triple(0, 1, 0));
    assert_eq!(extended_gcd(&big(0), &big(5)), triple(5, 0, 1));
}

#[test]
fn inverse_of_three_modulo_seven() {
    assert_eq!(mod_inverse(&big(3), &big(7)), Ok(big(5)));
}

#[test]
fn inverse_times_value_is_one() {
    for m in [2i64, 7, 9, 17, 289, 1419857] {
        for a in [-20i64, -3, 1, 2, 3, 5, 10, 100, 12345] {
            let coprime = gcd(&big(a), &big(m)) == big(1);
            match mod_inverse(&big(a), &big(m)) {
                Ok(x) => {
                    assert!(coprime);
                    let inverse = x.to_u64().unwrap();
                    assert!(inverse < m as u64);
                    assert_eq!((a as i128 * inverse as i128).rem_euclid(m as i128), 1);
                }
                Err(e) => {
                    assert!(!coprime);
                    assert_eq!(e, Error::NotInvertible);
                }
            }
        }
    }
}

#[test]
fn inverse_of_a_negative_value() {
    assert_eq!(mod_inverse(&big(-3), &big(7)), Ok(big(2)));
    assert_eq!(mod_inverse(&big(-1), &big(7)), Ok(big(6)));
    assert_eq!(mod_inverse(&big(-1), &big(5)), Ok(big(4)));
    assert_eq!(mod_inverse(&big(-2), &big(5)), Ok(big(2)));
    assert_eq!(mod_inverse(&big(-5), &big(7)), Ok(big(4)));
}

#[test]
fn inverse_needs_coprime_arguments() {
    assert_eq!(mod_inverse(&big(2), &big(4)), Err(Error::NotInvertible));
    assert_eq!(mod_inverse(&big(0), &big(7)), Err(Error::NotInvertible));
    assert_eq!(mod_inverse(&big(34), &big(289)), Err(Error::NotInvertible));
}

#[test]
fn inverse_modulo_one_is_zero() {
    assert_eq!(mod_inverse(&big(5), &big(1)), Ok(big(0)));
    assert_eq!(mod_inverse(&big(0), &big(1)), Ok(big(0)));
}

#[test]
fn square_root_for_a_modulus_three_modulo_four() {
    assert_eq!(mod_sqrt(&big(2), &big(7)), Ok(big(4)));
    assert_eq!(mod_sqrt(&big(9), &big(7)), Ok(big(4)));
    assert_eq!(mod_sqrt(&big(4), &big(7)), Ok(big(2)));
    assert_eq!(mod_sqrt(&big(-3), &big(7)), Ok(big(2)));
    assert_eq!(mod_sqrt(&big(5), &big(11)), Ok(big(4)));
}

#[test]
fn square_root_squares_to_the_value() {
    for p in [3i64, 7, 11, 19, 23, 10007] {
        for v in 0..40i64 {
            if let Ok(s) = mod_sqrt(&big(v), &big(p)) {
                let root = s.to_u64().unwrap() as i64;
                assert!(root < p);
                assert_eq!(root * root % p, v % p);
            }
        }
    }
}

#[test]
fn square_root_of_zero_is_zero() {
    assert_eq!(mod_sqrt(&big(0), &big(7)), Ok(big(0)));
    assert_eq!(mod_sqrt(&big(14), &big(7)), Ok(big(0)));
}

#[test]
fn no_square_root_of_a_non_residue() {
    assert_eq!(mod_sqrt(&big(3), &big(7)), Err(Error::NoSquareRoot));
    assert_eq!(mod_sqrt(&big(5), &big(7)), Err(Error::NoSquareRoot));
    assert_eq!(mod_sqrt(&big(2), &big(11)), Err(Error::NoSquareRoot));
}

#[test]
fn no_square_root_for_other_moduli() {
    assert_eq!(mod_sqrt(&big(2), &big(17)), Err(Error::NoSquareRoot));
    assert_eq!(mod_sqrt(&big(4), &big(13)), Err(Error::NoSquareRoot));
    assert_eq!(mod_sqrt(&big(0), &big(17)), Err(Error::NoSquareRoot));
    assert_eq!(mod_sqrt(&big(1), &big(2)), Err(Error::NoSquareRoot));
}

#[test]
fn errors_describe_themselves() {
    assert_eq!(Error::NotInvertible.message(), "modular inverse does not exist");
    assert_eq!(Error::InvalidSeed.message(), "seed point does not lie on the curve");
    assert_eq!(Error::ModulusTooLarge.message(), "modulus too large");
    let all = [
        Error::NotInvertible,
        Error::NoSquareRoot,
        Error::InvalidSeed,
        Error::SingularCurve,
        Error::DerivativeNotInvertible,
        Error::NoValidLift,
        Error::DenominatorNotInvertible,
        Error::ModulusTooLarge,
        Error::RandomnessUnavailable,
    ];
    for (i, e) in all.iter().enumerate() {
        for (j, f) in all.iter().enumerate() {
            assert_eq!(i == j, e.message() == f.message());
        }
    }
}
