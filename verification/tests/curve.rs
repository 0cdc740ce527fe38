use hokg::ecc::{point_add, point_double};
use hokg::hensel::is_on_curve;
use hokg::{elliptic_curve_multiply, BigInt, Error, Point};

fn big(v: i64) -> BigInt {
    BigInt::from_i64(v)
}

fn at(x: i64, y: i64) -> Point {
    Point::Coordinates(big(x), big(y))
}

fn times(d: &BigInt, p: &Point, a: i64, m: i64) -> Result<Point, Error> {
    elliptic_curve_multiply(d, p, &big(a), &big(3), &big(m))
}

const LIFTED_MODULUS: i64 = 1419857;

fn lifted_base() -> Point {
    at(585604, 6)
}

#[test]
fn points_compare_by_their_coordinates() {
    assert_eq!(at(5, 6), at(5, 6));
    assert_ne!(at(5, 6), at(5, 11));
    assert_ne!(at(5, 6), at(6, 6));
    assert_ne!(at(5, 6), Point::Infinity);
    assert_eq!(Point::Infinity, Point::Infinity);
    assert!(Point::Infinity.is_infinity());
    assert!(!at(0, 0).is_infinity());
    assert_eq!(at(5, 6).clone(), at(5, 6));
    assert_eq!(Point::Infinity.duplicate(), Point::Infinity);
}

#[test]
fn doubling_a_point() {
    assert_eq!(point_double(&at(5, 6), &big(2), &big(17)), Ok(at(15, 12)));
    assert_eq!(point_double(&Point::Infinity, &big(2), &big(17)), Ok(Point::Infinity));
}

#[test]
fn doubling_a_point_of_order_two() {
    assert_eq!(point_double(&at(16, 0), &big(2), &big(17)), Ok(Point::Infinity));
    assert_eq!(point_double(&at(16, 34), &big(2), &big(17)), Ok(Point::Infinity));
    assert_eq!(point_double(&at(5, 0), &big(2), &big(289)), Ok(Point::Infinity));
}

#[test]
fn doubling_fails_without_an_inverse() {
    assert_eq!(point_double(&at(5, 17), &big(2), &big(289)), Err(Error::DenominatorNotInvertible));
    assert_eq!(point_double(&at(0, 2), &big(1), &big(4)), Err(Error::DenominatorNotInvertible));
}

#[test]
fn adding_two_points() {
    assert_eq!(point_add(&at(5, 6), &at(15, 12), &big(2), &big(17)), Ok(at(13, 13)));
    assert_eq!(point_add(&at(15, 12), &at(5, 6), &big(2), &big(17)), Ok(at(13, 13)));
}

#[test]
fn infinity_is_the_identity() {
    let p = at(5, 6);
    assert_eq!(point_add(&Point::Infinity, &p, &big(2), &big(17)), Ok(at(5, 6)));
    assert_eq!(point_add(&p, &Point::Infinity, &big(2), &big(17)), Ok(at(5, 6)));
    assert_eq!(
        point_add(&Point::Infinity, &Point::Infinity, &big(2), &big(17)),
        Ok(Point::Infinity)
    );
    let unreduced = at(-12, 40);
    assert_eq!(point_add(&Point::Infinity, &unreduced, &big(2), &big(17)), Ok(at(-12, 40)));
}

#[test]
fn inverse_points_add_up_to_infinity() {
    assert_eq!(point_add(&at(5, 6), &at(5, 11), &big(2), &big(17)), Ok(Point::Infinity));
    assert_eq!(point_add(&at(5, 6), &at(22, -6), &big(2), &big(17)), Ok(Point::Infinity));
    assert_eq!(point_add(&at(0, 2), &at(0, 2), &big(1), &big(4)), Ok(Point::Infinity));
}

#[test]
fn adding_a_point_to_itself_doubles_it() {
    assert_eq!(point_add(&at(5, 6), &at(5, 6), &big(2), &big(17)), Ok(at(15, 12)));
    assert_eq!(point_add(&at(5, 6), &at(22, 23), &big(2), &big(17)), Ok(at(15, 12)));
}

#[test]
fn coordinates_are_reduced() {
    assert_eq!(point_add(&at(22, -11), &at(15, 46), &big(2), &big(17)), Ok(at(13, 13)));
    assert_eq!(point_double(&at(-12, 23), &big(2), &big(17)), Ok(at(15, 12)));
}

#[test]
fn adding_fails_without_an_inverse() {
    assert_eq!(
        point_add(&at(5, 6), &at(22, 7), &big(2), &big(289)),
        Err(Error::DenominatorNotInvertible)
    );
}

#[test]
fn zero_times_a_point_is_infinity() {
    assert_eq!(times(&big(0), &at(5, 6), 2, 17), Ok(Point::Infinity));
    assert_eq!(times(&big(0), &Point::Infinity, 2, 17), Ok(Point::Infinity));
    assert_eq!(times(&big(0), &lifted_base(), 2, LIFTED_MODULUS), Ok(Point::Infinity));
    assert_eq!(times(&BigInt::from_signed_bytes_be(vec![]), &at(5, 6), 2, 17), Ok(Point::Infinity));
    assert_eq!(
        times(&BigInt::from_signed_bytes_be(vec![0, 0]), &at(5, 6), 2, 17),
        Ok(Point::Infinity)
    );
}

#[test]
fn one_times_a_point_is_the_point() {
    assert_eq!(times(&big(1), &at(5, 6), 2, 17), Ok(at(5, 6)));
    assert_eq!(times(&big(1), &at(-12, 40), 2, 17), Ok(at(-12, 40)));
    assert_eq!(times(&big(1), &Point::Infinity, 2, 17), Ok(Point::Infinity));
    assert_eq!(times(&big(1), &lifted_base(), 2, LIFTED_MODULUS), Ok(lifted_base()));
}

#[test]
fn two_times_a_point_is_the_point_added_to_itself() {
    for (p, a, m) in [(at(5, 6), 2, 17), (lifted_base(), 2, LIFTED_MODULUS), (at(16, 0), 2, 17)] {
        let twice = times(&big(2), &p, a, m);
        assert_eq!(twice, point_add(&p, &p, &big(a), &big(m)));
        assert_eq!(twice, point_double(&p, &big(a), &big(m)));
    }
    assert_eq!(times(&big(2), &at(5, 6), 2, 17), Ok(at(15, 12)));
}

#[test]
fn multiples_modulo_a_prime() {
    let p = at(5, 6);
    assert_eq!(times(&big(3), &p, 2, 17), Ok(at(13, 13)));
    assert_eq!(times(&big(11), &p, 2, 17), Ok(at(16, 0)));
    assert_eq!(times(&big(21), &p, 2, 17), Ok(at(5, 11)));
    assert_eq!(times(&big(22), &p, 2, 17), Ok(Point::Infinity));
    assert_eq!(times(&big(23), &p, 2, 17), Ok(at(5, 6)));
    assert_eq!(times(&big(256), &p, 2, 17), Ok(at(3, 6)));
    assert_eq!(times(&big(1000), &p, 2, 17), Ok(at(14, 15)));
}

#[test]
fn multiples_agree_with_repeated_addition_modulo_a_prime() {
    let p = at(5, 6);
    let mut sum = Point::Infinity;
    for d in 0..60 {
        assert_eq!(times(&big(d), &p, 2, 17), Ok(sum.clone()));
        sum = point_add(&sum, &p, &big(2), &big(17)).unwrap();
    }
}

#[test]
fn multiples_modulo_a_prime_power() {
    let p = lifted_base();
    assert_eq!(times(&big(2), &p, 2, LIFTED_MODULUS), Ok(at(90081, 1224148)));
    assert_eq!(times(&big(3), &p, 2, LIFTED_MODULUS), Ok(at(1092314, 255506)));
    assert_eq!(times(&big(100), &p, 2, LIFTED_MODULUS), Ok(at(4298, 619074)));
    assert_eq!(times(&big(300), &p, 2, LIFTED_MODULUS), Ok(at(605934, 197580)));
    assert_eq!(times(&big(65536), &p, 2, LIFTED_MODULUS), Ok(at(1100901, 1148746)));
    assert_eq!(times(&big(70000), &p, 2, LIFTED_MODULUS), Ok(at(446615, 676020)));
    assert_eq!(times(&big(1099511627781), &p, 2, LIFTED_MODULUS), Ok(at(306546, 1064550)));
}

#[test]
fn a_scalar_of_many_bytes() {
    let scalar = BigInt::from_signed_bytes_be(vec![64, 0, 0, 0, 0, 0, 0, 0, 3]);
    assert_eq!(times(&scalar, &lifted_base(), 2, LIFTED_MODULUS), Ok(at(1220388, 749592)));
    assert_eq!(times(&scalar, &at(5, 6), 2, 17), Ok(at(9, 11)));
}

#[test]
fn multiplication_reports_a_denominator_without_inverse() {
    let p = lifted_base();
    assert_eq!(times(&big(22), &p, 2, LIFTED_MODULUS), Err(Error::DenominatorNotInvertible));
    assert_eq!(times(&big(12345), &p, 2, LIFTED_MODULUS), Err(Error::DenominatorNotInvertible));
    assert_eq!(times(&big(1419856), &p, 2, LIFTED_MODULUS), Err(Error::DenominatorNotInvertible));
    assert_eq!(times(&big(2), &at(0, 2), 1, 4), Err(Error::DenominatorNotInvertible));
}

#[test]
fn a_negative_scalar_multiplies_by_its_size() {
    let p = at(5, 6);
    assert_eq!(times(&big(-3), &p, 2, 17), Ok(at(13, 13)));
    assert_eq!(times(&big(-1), &p, 2, 17), Ok(at(5, 6)));
    assert_eq!(times(&big(-22), &p, 2, 17), Ok(Point::Infinity));
    assert_eq!(times(&big(-100), &lifted_base(), 2, LIFTED_MODULUS), Ok(at(4298, 619074)));
    assert_eq!(
        times(&big(-22), &lifted_base(), 2, LIFTED_MODULUS),
        Err(Error::DenominatorNotInvertible)
    );
}

#[test]
fn the_second_coefficient_is_not_read() {
    let p = at(5, 6);
    let with_three = elliptic_curve_multiply(&big(7), &p, &big(2), &big(3), &big(17));
    let with_nine = elliptic_curve_multiply(&big(7), &p, &big(2), &big(9), &big(17));
    assert_eq!(with_three, Ok(at(9, 6)));
    assert_eq!(with_nine, Ok(at(9, 6)));
}

#[test]
fn multiples_stay_on_the_curve() {
    for (p, m) in [(at(5, 6), 17), (lifted_base(), LIFTED_MODULUS)] {
        for d in 0..200 {
            match times(&big(d), &p, 2, m) {
                Ok(Point::Coordinates(x, y)) => {
                    assert!(is_on_curve(&x, &y, &big(2), &big(3), &big(m)));
                }
                Ok(Point::Infinity) => {}
                Err(e) => assert_eq!(e, Error::DenominatorNotInvertible),
            }
        }
    }
}

#[test]
fn sums_stay_on_the_curve() {
    let points = [at(5, 6), at(15, 12), at(13, 13), at(16, 0), at(3, 11), Point::Infinity];
    for p in &points {
        for q in &points {
            match point_add(p, q, &big(2), &big(17)).unwrap() {
                Point::Coordinates(x, y) => {
                    assert!(is_on_curve(&x, &y, &big(2), &big(3), &big(17)));
                }
                Point::Infinity => {}
            }
        }
    }
}
