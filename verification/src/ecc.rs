//! The group law of the curve `y^2 = x^3 + a*x + b` over the integers
//! modulo `m`, and scalar multiplication by doubling and adding.
//!
//! The modulus need not be a prime, so a slope may have a denominator
//! without an inverse. Such a failure is reported, never hidden.

use vstd::prelude::*;
use crate::bigint::{lemma_signed_unsigned, unsigned_value, BigInt};
use crate::divisibility::{abs, invertible, mod_inv};
use crate::error::Error;
use crate::point::{result_view, Point, SpecPoint};
use crate::utils::mod_inverse;

verus! {

/// The point on the line with slope `s` through `(x1, y1)` and a point
/// with abscissa `x2` that is the sum of the two, reduced modulo `m`.
pub open spec fn chord_point(s: int, x1: int, y1: int, x2: int, m: int) -> SpecPoint {
    let x3 = (s * s - x1 - x2) % m;
    let y3 = (s * (x1 - x3) - y1) % m;
    SpecPoint::Affine(x3, y3)
}

/// Twice the point `p`. A point whose ordinate vanishes modulo `m` has
/// order two; elsewhere the tangent has the slope `(3x^2 + a) / (2y)`.
pub open spec fn double_point(p: SpecPoint, a: int, m: int) -> Result<SpecPoint, Error> {
    match p {
        SpecPoint::Infinity => Ok(SpecPoint::Infinity),
        SpecPoint::Affine(x, y) => {
            if y % m == 0 {
                Ok(SpecPoint::Infinity)
            } else if !invertible(2 * y, m) {
                Err(Error::DenominatorNotInvertible)
            } else {
                let s = ((3 * x * x + a) * mod_inv(2 * y, m)) % m;
                Ok(chord_point(s, x, y, x, m))
            }
        },
    }
}

/// The sum of the points `p` and `q`. Infinity is the identity; points
/// with the same abscissa and opposite ordinates add up to infinity; a
/// point added to itself is doubled; elsewhere the chord has the slope
/// `(y2 - y1) / (x2 - x1)`.
pub open spec fn add_points(p: SpecPoint, q: SpecPoint, a: int, m: int) -> Result<
    SpecPoint,
    Error,
> {
    match (p, q) {
        (SpecPoint::Infinity, _) => Ok(q),
        (_, SpecPoint::Infinity) => Ok(p),
        (SpecPoint::Affine(x1, y1), SpecPoint::Affine(x2, y2)) => {
            if x1 % m == x2 % m && (y1 + y2) % m == 0 {
                Ok(SpecPoint::Infinity)
            } else if x1 % m == x2 % m && y1 % m == y2 % m {
                double_point(p, a, m)
            } else if !invertible(x2 - x1, m) {
                Err(Error::DenominatorNotInvertible)
            } else {
                let s = ((y2 - y1) * mod_inv(x2 - x1, m)) % m;
                Ok(chord_point(s, x1, y1, x2, m))
            }
        },
    }
}

/// One step of the scan over the bits of a scalar: the accumulator is
/// doubled, and the point `p` is added where the bit is set.
pub open spec fn ladder_step(acc: SpecPoint, bit: bool, p: SpecPoint, a: int, m: int) -> Result<
    SpecPoint,
    Error,
> {
    match double_point(acc, a, m) {
        Err(e) => Err(e),
        Ok(twice) => if bit {
            add_points(twice, p, a, m)
        } else {
            Ok(twice)
        },
    }
}

/// `d` times the point `p`, by the scan over the bits of `d` from the most
/// significant one down, starting from infinity. The first failure of a
/// step is the result.
pub open spec fn multiply_point(d: nat, p: SpecPoint, a: int, m: int) -> Result<SpecPoint, Error>
    decreases d,
{
    if d == 0 {
        Ok(SpecPoint::Infinity)
    } else {
        match multiply_point(d / 2, p, a, m) {
            Err(e) => Err(e),
            Ok(acc) => ladder_step(acc, d % 2 == 1, p, a, m),
        }
    }
}

/// The point that the chord or tangent with slope `s` meets, from the
/// coordinates of the points added.
fn chord(s: &BigInt, x1: &BigInt, y1: &BigInt, x2: &BigInt, m: &BigInt) -> (r: Point)
    requires
        m@ > 0,
    ensures
        r@ == chord_point(s@, x1@, y1@, x2@, m@),
{
    let x3 = s.times(s).minus(x1).minus(x2).reduce(m);
    let y3 = s.times(&x1.minus(&x3)).minus(y1).reduce(m);
    Point::Coordinates(x3, y3)
}

/// Twice the point `p` on the curve with the coefficient `a`, modulo `m`.
pub fn point_double(p: &Point, a: &BigInt, m: &BigInt) -> (r: Result<Point, Error>)
    requires
        m@ > 0,
    ensures
        result_view(r) == double_point(p@, a@, m@),
{
    match p {
        Point::Infinity => Ok(Point::Infinity),
        Point::Coordinates(x, y) => {
            if y.reduce(m).is_zero() {
                return Ok(Point::Infinity);
            }
            let numerator = BigInt::from_i64(3).times(x).times(x).plus(a);
            let denominator = BigInt::from_i64(2).times(y);
            match mod_inverse(&denominator, m) {
                Err(_) => Err(Error::DenominatorNotInvertible),
                Ok(inverse) => {
                    let s = numerator.times(&inverse).reduce(m);
                    Ok(chord(&s, x, y, x, m))
                },
            }
        },
    }
}

/// The sum of the points `p` and `q` on the curve with the coefficient
/// `a`, modulo `m`.
pub fn point_add(p: &Point, q: &Point, a: &BigInt, m: &BigInt) -> (r: Result<Point, Error>)
    requires
        m@ > 0,
    ensures
        result_view(r) == add_points(p@, q@, a@, m@),
{
    match (p, q) {
        (Point::Infinity, _) => Ok(q.duplicate()),
        (_, Point::Infinity) => Ok(p.duplicate()),
        (Point::Coordinates(x1, y1), Point::Coordinates(x2, y2)) => {
            let same_x = x1.reduce(m).equals(&x2.reduce(m));
            if same_x && y1.plus(y2).reduce(m).is_zero() {
                return Ok(Point::Infinity);
            }
            if same_x && y1.reduce(m).equals(&y2.reduce(m)) {
                return point_double(p, a, m);
            }
            let numerator = y2.minus(y1);
            let denominator = x2.minus(x1);
            match mod_inverse(&denominator, m) {
                Err(_) => Err(Error::DenominatorNotInvertible),
                Ok(inverse) => {
                    let s = numerator.times(&inverse).reduce(m);
                    Ok(chord(&s, x1, y1, x2, m))
                },
            }
        },
    }
}

/// Zero times a point is the point at infinity, and one times a point is
/// the point itself, for every point and every modulus.
pub proof fn lemma_multiply_by_zero_and_one(p: SpecPoint, a: int, m: int)
    ensures
        multiply_point(0, p, a, m) == Ok::<SpecPoint, Error>(SpecPoint::Infinity),
        multiply_point(1, p, a, m) == Ok::<SpecPoint, Error>(p),
{
    reveal_with_fuel(multiply_point, 2);
    assert(1nat / 2 == 0);
}

/// Two times a point, by doubling and adding over the bits of two, is the
/// point added to itself. The one kind of point left out has an ordinate
/// `y` that does not vanish modulo `m` while `2 * y` does: it is its own
/// inverse, so that the sum with itself is the point at infinity, and its
/// tangent has no slope modulo `m`.
pub proof fn lemma_twice_is_sum_with_itself(p: SpecPoint, a: int, m: int)
    requires
        p matches SpecPoint::Affine(x, y) ==> ((2 * y) % m == 0 ==> y % m == 0),
    ensures
        multiply_point(2, p, a, m) == add_points(p, p, a, m),
        add_points(p, p, a, m) == double_point(p, a, m),
{
    reveal_with_fuel(multiply_point, 3);
    assert(2nat / 2 == 1 && 1nat / 2 == 0);
    lemma_multiply_by_zero_and_one(p, a, m);
    assert(multiply_point(2, p, a, m) == ladder_step(p, false, p, a, m));
    match p {
        SpecPoint::Infinity => {},
        SpecPoint::Affine(x, y) => {
            assert(y + y == 2 * y);
        },
    }
}

/// The bit of a byte that is taken at step `i` of the eight, as the
/// weight that it has in the byte: `128` at the first step, `1` at the
/// last, and `0` when all are taken.
pub open spec fn bit_mask(i: int) -> int {
    if i <= 0 {
        128
    } else if i == 1 {
        64
    } else if i == 2 {
        32
    } else if i == 3 {
        16
    } else if i == 4 {
        8
    } else if i == 5 {
        4
    } else if i == 6 {
        2
    } else if i == 7 {
        1
    } else {
        0
    }
}

/// What stands before a byte, followed by the `i` most significant bits of
/// the byte.
pub open spec fn with_bits(high: int, byte: int, i: int) -> int {
    if i <= 0 {
        high + byte / 256
    } else if i == 1 {
        high * 2 + byte / 128
    } else if i == 2 {
        high * 4 + byte / 64
    } else if i == 3 {
        high * 8 + byte / 32
    } else if i == 4 {
        high * 16 + byte / 16
    } else if i == 5 {
        high * 32 + byte / 8
    } else if i == 6 {
        high * 64 + byte / 4
    } else if i == 7 {
        high * 128 + byte / 2
    } else {
        high * 256 + byte
    }
}

/// Taking one more bit of a byte doubles what the bits taken so far stand
/// for and adds the bit.
pub proof fn lemma_next_bit(high: int, byte: int, i: int)
    requires
        0 <= i < 8,
        0 <= byte < 256,
    ensures
        bit_mask(i) >= 1,
        bit_mask(i) / 2 == bit_mask(i + 1),
        with_bits(high, byte, i + 1) == 2 * with_bits(high, byte, i) + (byte / bit_mask(i)) % 2,
{
}

/// One step of the scan: the accumulator doubled, and `p` added to it
/// where the bit is set.
fn ladder(acc: &Point, bit: bool, p: &Point, a: &BigInt, m: &BigInt) -> (r: Result<Point, Error>)
    requires
        m@ > 0,
    ensures
        result_view(r) == ladder_step(acc@, bit, p@, a@, m@),
{
    match point_double(acc, a, m) {
        Err(e) => Err(e),
        Ok(twice) => {
            if bit {
                point_add(&twice, p, a, m)
            } else {
                Ok(twice)
            }
        },
    }
}

/// `scalar` times `point` on the curve `y^2 = x^3 + a*x + b` modulo
/// `modulus`, by doubling and adding over the bits of the scalar from the
/// most significant one down. Of a negative scalar the size is taken: the
/// sign is not read. The group law does not read `b`.
pub fn elliptic_curve_multiply(
    scalar: &BigInt,
    point: &Point,
    a: &BigInt,
    _b: &BigInt,
    modulus: &BigInt,
) -> (r: Result<Point, Error>)
    requires
        modulus@ > 0,
    ensures
        result_view(r) == multiply_point(abs(scalar@) as nat, point@, a@, modulus@),
{
    let size = scalar.magnitude();
    let bytes = size.signed_bytes();
    let mut state: Result<Point, Error> = Ok(Point::Infinity);
    let ghost mut v: nat = 0;
    let mut j: usize = 0;
    while j < bytes.len()
        invariant
            modulus@ > 0,
            j <= bytes.len(),
            v == unsigned_value(bytes@.take(j as int)),
            result_view(state) == multiply_point(v, point@, a@, modulus@),
        decreases bytes.len() - j,
    {
        let byte: u8 = bytes[j];
        let ghost v0 = v;
        let mut mask: u8 = 128;
        let mut i: u8 = 0;
        while i < 8
            invariant
                modulus@ > 0,
                i <= 8,
                mask as int == bit_mask(i as int),
                v == with_bits(v0 as int, byte as int, i as int),
                result_view(state) == multiply_point(v, point@, a@, modulus@),
            decreases 8 - i,
        {
            let bit: bool = (byte / mask) % 2 == 1;
            let ghost before = v;
            state =
            match state {
                Err(e) => Err(e),
                Ok(acc) => ladder(&acc, bit, point, a, modulus),
            };
            proof {
                v = 2 * before + if bit { 1nat } else { 0nat };
                assert(v / 2 == before && (v % 2 == 1) == bit);
                lemma_next_bit(v0 as int, byte as int, i as int);
            }
            mask = mask / 2;
            i = i + 1;
        }
        proof {
            let next = bytes@.take(j + 1);
            assert(next.drop_last() =~= bytes@.take(j as int));
            assert(next.last() == byte);
            assert(v == v0 * 256 + byte);
            assert(unsigned_value(next) == unsigned_value(next.drop_last()) * 256 + next.last());
        }
        j = j + 1;
    }
    proof {
        assert(bytes@.take(j as int) =~= bytes@);
        lemma_signed_unsigned(bytes@);
    }
    state
}

} // verus!
