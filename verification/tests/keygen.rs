use hokg::hensel::is_on_curve;
use hokg::hokg::{base_point, key_pair, modulus, private_key_from_draw};
use hokg::{hokg_with_draw, BigInt, Config, Error, Point};

fn big(v: i64) -> BigInt {
    BigInt::from_i64(v)
}

fn at(x: i64, y: i64) -> Point {
    Point::Coordinates(big(x), big(y))
}

fn on_the_curve() -> Config {
    Config { p: 17, a: 2, b: 3, x0: 5, y0: 6, k: 5 }
}

fn off_the_curve() -> Config {
    Config { p: 17, a: 2, b: 3, x0: 5, y0: 7, k: 5 }
}

#[test]
fn a_seed_off_the_curve_gives_no_key() {
    assert_eq!(hokg_with_draw(off_the_curve(), 0), Err(Error::InvalidSeed));
    assert_eq!(hokg_with_draw(off_the_curve(), 12345), Err(Error::InvalidSeed));
    assert_eq!(hokg::hokg(off_the_curve()), Err(Error::InvalidSeed));
}

#[test]
fn key_generation_with_a_given_draw() {
    let (base, key, public, echo) = hokg_with_draw(on_the_curve(), 99).unwrap();
    assert_eq!(base, at(585604, 6));
    assert_eq!(key, big(100));
    assert_eq!(public, at(4298, 619074));
    assert_eq!(echo, (17, 2, 3, 5, 6, 5));
}

#[test]
fn the_smallest_key_makes_the_base_point_public() {
    let (base, key, public, echo) = hokg_with_draw(on_the_curve(), 0).unwrap();
    assert_eq!(base, at(585604, 6));
    assert_eq!(key, big(1));
    assert_eq!(public, at(585604, 6));
    assert_eq!(echo, (17, 2, 3, 5, 6, 5));
}

#[test]
fn the_draw_is_folded_into_the_range_of_keys() {
    let (_, key, public, _) = hokg_with_draw(on_the_curve(), 1419856 + 1).unwrap();
    assert_eq!(key, big(2));
    assert_eq!(public, at(90081, 1224148));
    let (_, key, _, _) = hokg_with_draw(on_the_curve(), 1419856 * 3 + 299).unwrap();
    assert_eq!(key, big(300));
}

#[test]
fn a_failing_multiplication_gives_no_key() {
    assert_eq!(hokg_with_draw(on_the_curve(), 21), Err(Error::DenominatorNotInvertible));
    assert_eq!(hokg_with_draw(on_the_curve(), 1419855), Err(Error::DenominatorNotInvertible));
}

#[test]
fn the_same_draw_gives_the_same_keys() {
    for draw in [0u64, 1, 2, 99, 21, 70000, u64::MAX] {
        assert_eq!(hokg_with_draw(on_the_curve(), draw), hokg_with_draw(on_the_curve(), draw));
    }
}

#[test]
fn key_generation_with_a_random_draw() {
    for _ in 0..20 {
        match hokg::hokg(on_the_curve()) {
            Ok((base, key, public, echo)) => {
                assert!(matches!(base, Point::Coordinates(_, _)));
                assert_eq!(base, at(585604, 6));
                let key = key.to_u64().unwrap();
                assert!(1 <= key && key <= 1419856);
                assert!(matches!(public, Point::Coordinates(_, _) | Point::Infinity));
                assert_eq!(echo, (17, 2, 3, 5, 6, 5));
            }
            Err(e) => assert_eq!(e, Error::DenominatorNotInvertible),
        }
    }
}

#[test]
fn a_modulus_beyond_the_machine_range_is_too_large() {
    let config = Config { p: 17, a: 2, b: 3, x0: 5, y0: 6, k: 16 };
    assert_eq!(hokg_with_draw(config, 0), Err(Error::ModulusTooLarge));
    assert_eq!(hokg::hokg(config), Err(Error::ModulusTooLarge));
    let config = Config { p: 2, a: 2, b: 3, x0: 5, y0: 6, k: 64 };
    assert_eq!(hokg_with_draw(config, 0), Err(Error::ModulusTooLarge));
    let config = Config { p: 2, a: 2, b: 3, x0: 5, y0: 6, k: usize::MAX };
    assert_eq!(hokg_with_draw(config, 0), Err(Error::ModulusTooLarge));
    let config = Config { p: u64::MAX, a: 2, b: 3, x0: 5, y0: 6, k: 2 };
    assert_eq!(hokg_with_draw(config, 0), Err(Error::ModulusTooLarge));
}

#[test]
fn the_modulus_is_checked_before_the_seed() {
    let config = Config { p: 17, a: 2, b: 3, x0: 5, y0: 7, k: 100 };
    assert_eq!(hokg_with_draw(config, 0), Err(Error::ModulusTooLarge));
}

#[test]
fn the_largest_modulus_that_fits() {
    let config = Config { p: 2, a: 2, b: 3, x0: 5, y0: 6, k: 63 };
    let (big_modulus, small_modulus) = modulus(&config).unwrap();
    assert_eq!(small_modulus, 1u64 << 63);
    assert_eq!(big_modulus, BigInt::from_u64(1 << 63));
    let config = Config { p: u64::MAX, a: 0, b: 0, x0: 0, y0: 0, k: 1 };
    assert_eq!(modulus(&config).map(|m| m.1), Ok(u64::MAX));
}

#[test]
fn the_modulus_of_a_configuration() {
    let (big_modulus, small_modulus) = modulus(&on_the_curve()).unwrap();
    assert_eq!(small_modulus, 1419857);
    assert_eq!(big_modulus, big(1419857));
}

#[test]
fn the_base_point_of_a_configuration() {
    let (base, big_modulus, small_modulus) = base_point(&on_the_curve()).unwrap();
    assert_eq!(base, at(585604, 6));
    assert_eq!(big_modulus, big(1419857));
    assert_eq!(small_modulus, 1419857);
    assert_eq!(base_point(&off_the_curve()).err(), Some(Error::InvalidSeed));
    let flat = Config { p: 7, a: 4, b: 3, x0: 1, y0: 1, k: 2 };
    assert_eq!(base_point(&flat).err(), Some(Error::DerivativeNotInvertible));
    let singular = Config { p: 17, a: 0, b: 0, x0: 1, y0: 1, k: 2 };
    assert_eq!(base_point(&singular).err(), Some(Error::SingularCurve));
}

#[test]
fn keys_for_a_base_point() {
    let config = on_the_curve();
    let (base, _, small_modulus) = base_point(&config).unwrap();
    let (point, key, public, echo) = key_pair(config, base, small_modulus, 999).unwrap();
    assert_eq!(point, at(585604, 6));
    assert_eq!(key, big(1000));
    assert_eq!(public, at(544082, 59413));
    assert_eq!(echo, (17, 2, 3, 5, 6, 5));
}

#[test]
fn a_private_key_from_a_draw() {
    assert_eq!(private_key_from_draw(10, 7), 5);
    assert_eq!(private_key_from_draw(0, 7), 1);
    assert_eq!(private_key_from_draw(5, 7), 6);
    assert_eq!(private_key_from_draw(6, 7), 1);
    assert_eq!(private_key_from_draw(u64::MAX, 2), 1);
    assert_eq!(private_key_from_draw(u64::MAX, u64::MAX), 2);
    assert_eq!(private_key_from_draw(u64::MAX - 1, u64::MAX), 1);
    assert_eq!(private_key_from_draw(u64::MAX - 2, u64::MAX), u64::MAX - 1);
}

#[test]
fn a_configuration_is_a_plain_value() {
    let config = on_the_curve();
    let copy = config;
    assert_eq!(config, copy);
    assert_ne!(config, off_the_curve());
}

#[test]
fn both_points_lie_on_the_curve() {
    let on = |p: &Point| match p {
        Point::Coordinates(x, y) => is_on_curve(x, y, &big(2), &big(3), &big(1419857)),
        Point::Infinity => true,
    };
    for draw in 0..300u64 {
        match hokg_with_draw(on_the_curve(), draw) {
            Ok((base, _, public, _)) => {
                assert!(!base.is_infinity());
                assert!(on(&base));
                assert!(on(&public));
            }
            Err(e) => assert_eq!(e, Error::DenominatorNotInvertible),
        }
    }
}
