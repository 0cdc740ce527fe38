//! The group law stays on the curve: the double of a point of the curve
//! `y^2 = x^3 + a*x + b` modulo `m`, the sum of two of its points and every
//! multiple of one of them is again a point of the curve, wherever the law
//! yields a point.
//!
//! The argument is the classical one. A line `y = s*x + c` through a point
//! of the curve meets the curve where the cubic `x^3 + a*x + b - (s*x +
//! c)^2` vanishes. The abscissas of the three points in which it meets the
//! curve add up to `s^2`, so the third one is known from the other two.

use vstd::prelude::*;
use vstd::arithmetic::div_mod::*;
use crate::divisibility::{is_inverse, mod_inv};
use crate::ecc::{add_points, chord_point, double_point, ladder_step, multiply_point};
use crate::hensel::{curve_rhs, lemma_mul_congruent, lemma_rhs_congruent, on_curve};
use crate::point::SpecPoint;

verus! {

/// The point is the point at infinity, or it satisfies the curve equation
/// modulo `m`.
pub open spec fn point_on_curve(p: SpecPoint, a: int, b: int, m: int) -> bool {
    match p {
        SpecPoint::Infinity => true,
        SpecPoint::Affine(x, y) => on_curve(x, y, a, b, m),
    }
}

/// The right-hand side of the curve equation at `x` minus the square of
/// the line `s*x + c` at `x`: it vanishes where the line meets the curve.
pub open spec fn line_gap(x: int, a: int, b: int, s: int, c: int) -> int {
    curve_rhs(x, a, b) - (s * x + c) * (s * x + c)
}

/// What `line_gap` at `z` and at `x` differ by, divided by `z - x`.
pub open spec fn gap_slope(x: int, z: int, a: int, s: int, c: int) -> int {
    z * z + x * z + x * x + a - (s * s) * (x + z) - 2 * (s * c)
}

/// The square of the line `s*x + c`, expanded.
pub proof fn lemma_line_square(x: int, s: int, c: int)
    ensures
        (s * x + c) * (s * x + c) == (s * s) * (x * x) + (2 * (s * c)) * x + c * c,
{
    let sx = s * x;
    assert((sx + c) * (sx + c) == sx * sx + 2 * (sx * c) + c * c) by (nonlinear_arith);
    assert(sx * sx == (s * s) * (x * x)) by (nonlinear_arith)
        requires
            sx == s * x,
    ;
    assert(sx * c == (s * c) * x) by (nonlinear_arith)
        requires
            sx == s * x,
    ;
    assert(2 * ((s * c) * x) == (2 * (s * c)) * x) by (nonlinear_arith);
}

/// `line_gap` at `z` and at `x` differ by `z - x` times `gap_slope`.
pub proof fn lemma_gap_difference(x: int, z: int, a: int, b: int, s: int, c: int)
    ensures
        line_gap(z, a, b, s, c) - line_gap(x, a, b, s, c) == (z - x) * gap_slope(x, z, a, s, c),
{
    let ss = s * s;
    let k = 2 * (s * c);
    let d = z - x;
    lemma_line_square(x, s, c);
    lemma_line_square(z, s, c);
    let cube = z * z + x * z + x * x;
    assert(z * z * z - x * x * x == d * cube) by (nonlinear_arith)
        requires
            d == z - x,
            cube == z * z + x * z + x * x,
    ;
    assert(a * z - a * x == d * a) by (nonlinear_arith)
        requires
            d == z - x,
    ;
    let sum = ss * (x + z);
    assert(ss * (z * z) - ss * (x * x) == d * sum) by (nonlinear_arith)
        requires
            d == z - x,
            sum == ss * (x + z),
    ;
    assert(k * z - k * x == d * k) by (nonlinear_arith)
        requires
            d == z - x,
    ;
    assert(d * (cube + a - sum - k) == d * cube + d * a - d * sum - d * k) by (nonlinear_arith);
}

/// A multiple of a value that vanishes modulo `m` vanishes modulo `m`.
pub proof fn lemma_multiple_vanishes(f: int, v: int, m: int)
    requires
        m > 0,
        v % m == 0,
    ensures
        (f * v) % m == 0,
{
    lemma_mul_mod_noop_general(f, v, m);
    assert(f * 0 == 0);
    lemma_small_mod(0, m as nat);
}

/// The third point of a line. For a point `(x1, y1)` of the curve and a
/// line through it with the slope `s`, let the line meet the curve also at
/// the abscissa `x2`, which `gap_slope` states. Then the point that the
/// group law computes from `s`, `x1`, `y1` and `x2` lies on the curve.
pub proof fn lemma_third_point(x1: int, y1: int, x2: int, s: int, a: int, b: int, m: int)
    requires
        m > 0,
        on_curve(x1, y1, a, b, m),
        gap_slope(x1, x2, a, s, y1 - s * x1) % m == 0,
    ensures
        point_on_curve(chord_point(s, x1, y1, x2, m), a, b, m),
{
    let c = y1 - s * x1;
    let ss = s * s;
    let third = ss - x1 - x2;
    let slope = gap_slope(x1, x2, a, s, c);
    // the line passes through the first point, where the gap vanishes
    assert(s * x1 + c == y1);
    assert(line_gap(x1, a, b, s, c) == curve_rhs(x1, a, b) - y1 * y1);
    lemma_mod_equivalence(curve_rhs(x1, a, b), y1 * y1, m);
    assert(line_gap(x1, a, b, s, c) % m == 0);
    // the abscissas add up to s^2, which makes the two slopes of the gap agree
    let other = gap_slope(x1, third, a, s, c);
    assert(other - slope == (third - x2) * (third + x2 + x1 - ss)) by (nonlinear_arith)
        requires
            other == third * third + x1 * third + x1 * x1 + a - ss * (x1 + third) - 2 * (s * c),
            slope == x2 * x2 + x1 * x2 + x1 * x1 + a - ss * (x1 + x2) - 2 * (s * c),
    ;
    assert((third - x2) * (third + x2 + x1 - ss) == 0) by (nonlinear_arith)
        requires
            third + x2 + x1 - ss == 0,
    ;
    assert(other == slope);
    // so the gap vanishes at the third abscissa
    lemma_gap_difference(x1, third, a, b, s, c);
    lemma_multiple_vanishes(third - x1, slope, m);
    lemma_add_mod_noop(line_gap(x1, a, b, s, c), (third - x1) * slope, m);
    lemma_small_mod(0, m as nat);
    assert(line_gap(third, a, b, s, c) % m == 0);
    let w = s * third + c;
    lemma_mod_equivalence(curve_rhs(third, a, b), w * w, m);
    assert(curve_rhs(third, a, b) % m == (w * w) % m);
    // the ordinate of the group law is the line's, mirrored
    let mirrored = s * (x1 - third) - y1;
    assert(mirrored == -w) by (nonlinear_arith)
        requires
            mirrored == s * (x1 - third) - y1,
            w == s * third + c,
            c == y1 - s * x1,
    ;
    assert(mirrored * mirrored == w * w) by (nonlinear_arith)
        requires
            mirrored == -w,
    ;
    // reducing the coordinates keeps the point on the curve
    let x3 = third % m;
    let y3 = (s * (x1 - x3) - y1) % m;
    lemma_mod_twice(third, m);
    lemma_rhs_congruent(x3, third, a, b, m);
    lemma_sub_mod_noop_right(x1, third, m);
    lemma_sub_mod_noop_right(x1, x3, m);
    assert((x1 - x3) % m == (x1 - third) % m);
    lemma_mul_congruent(s, x1 - x3, s, x1 - third, m);
    lemma_sub_mod_noop(s * (x1 - x3), y1, m);
    lemma_sub_mod_noop(s * (x1 - third), y1, m);
    assert((s * (x1 - x3) - y1) % m == mirrored % m);
    lemma_mod_twice(s * (x1 - x3) - y1, m);
    lemma_mul_congruent(y3, y3, mirrored, mirrored, m);
    assert(chord_point(s, x1, y1, x2, m) == SpecPoint::Affine(x3, y3));
    assert(on_curve(x3, y3, a, b, m));
}

/// A value times the inverse of another, reduced, times that other value
/// is the first value again, modulo `m`.
pub proof fn lemma_quotient(n: int, d: int, m: int)
    requires
        m > 0,
        is_inverse(mod_inv(d, m), d, m),
    ensures
        (((n * mod_inv(d, m)) % m) * d) % m == n % m,
{
    let t = mod_inv(d, m);
    let s = (n * t) % m;
    lemma_mod_twice(n * t, m);
    lemma_mul_congruent(s, d, n * t, d, m);
    assert((n * t) * d == n * (d * t)) by (nonlinear_arith);
    lemma_mod_twice(1, m);
    lemma_mul_congruent(n, d * t, n, 1, m);
    assert(n * 1 == n);
}

/// The double of a point of the curve is a point of the curve.
pub proof fn lemma_double_on_curve(p: SpecPoint, a: int, b: int, m: int)
    requires
        m > 0,
        point_on_curve(p, a, b, m),
        double_point(p, a, m) is Ok,
    ensures
        point_on_curve(double_point(p, a, m)->Ok_0, a, b, m),
{
    match p {
        SpecPoint::Infinity => {},
        SpecPoint::Affine(x, y) => {
            if y % m != 0 {
                let t = mod_inv(2 * y, m);
                assert(is_inverse(t, 2 * y, m));
                let n = 3 * x * x + a;
                let s = (n * t) % m;
                let c = y - s * x;
                lemma_quotient(n, 2 * y, m);
                lemma_mod_equivalence(n, s * (2 * y), m);
                assert(gap_slope(x, x, a, s, c) == n - s * (2 * y)) by (nonlinear_arith)
                    requires
                        c == y - s * x,
                        n == 3 * x * x + a,
                        gap_slope(x, x, a, s, c) == x * x + x * x + x * x + a - (s * s) * (x + x)
                            - 2 * (s * c),
                ;
                lemma_third_point(x, y, x, s, a, b, m);
            }
        },
    }
}

/// The sum of two points of the curve is a point of the curve.
pub proof fn lemma_sum_on_curve(p: SpecPoint, q: SpecPoint, a: int, b: int, m: int)
    requires
        m > 0,
        point_on_curve(p, a, b, m),
        point_on_curve(q, a, b, m),
        add_points(p, q, a, m) is Ok,
    ensures
        point_on_curve(add_points(p, q, a, m)->Ok_0, a, b, m),
{
    match (p, q) {
        (SpecPoint::Affine(x1, y1), SpecPoint::Affine(x2, y2)) => {
            if x1 % m == x2 % m && (y1 + y2) % m == 0 {
            } else if x1 % m == x2 % m && y1 % m == y2 % m {
                lemma_double_on_curve(p, a, b, m);
            } else {
                let dx = x2 - x1;
                let dy = y2 - y1;
                let t = mod_inv(dx, m);
                assert(is_inverse(t, dx, m));
                let s = (dy * t) % m;
                let c = y1 - s * x1;
                let slope = gap_slope(x1, x2, a, s, c);
                // the line passes through both points
                assert(line_gap(x1, a, b, s, c) == curve_rhs(x1, a, b) - y1 * y1);
                lemma_mod_equivalence(curve_rhs(x1, a, b), y1 * y1, m);
                lemma_quotient(dy, dx, m);
                let v = s * x2 + c;
                assert(v == y1 + s * dx) by (nonlinear_arith)
                    requires
                        v == s * x2 + c,
                        c == y1 - s * x1,
                        dx == x2 - x1,
                ;
                lemma_add_mod_noop_right(y1, s * dx, m);
                lemma_add_mod_noop_right(y1, dy, m);
                assert(v % m == y2 % m);
                lemma_mul_congruent(v, v, y2, y2, m);
                lemma_mod_equivalence(curve_rhs(x2, a, b), v * v, m);
                assert(line_gap(x2, a, b, s, c) % m == 0);
                // so the slope of the gap between them vanishes
                lemma_gap_difference(x1, x2, a, b, s, c);
                lemma_sub_mod_noop(line_gap(x2, a, b, s, c), line_gap(x1, a, b, s, c), m);
                lemma_small_mod(0, m as nat);
                assert((dx * slope) % m == 0);
                lemma_multiple_vanishes(t, dx * slope, m);
                assert(t * (dx * slope) == slope * (dx * t)) by (nonlinear_arith);
                lemma_mod_twice(1, m);
                lemma_mul_congruent(slope, dx * t, slope, 1, m);
                assert(slope * 1 == slope);
                assert(slope % m == 0);
                lemma_third_point(x1, y1, x2, s, a, b, m);
            }
        },
        _ => {},
    }
}

/// One step of the scan over the bits of a scalar stays on the curve.
pub proof fn lemma_step_on_curve(
    acc: SpecPoint,
    bit: bool,
    p: SpecPoint,
    a: int,
    b: int,
    m: int,
)
    requires
        m > 0,
        point_on_curve(acc, a, b, m),
        point_on_curve(p, a, b, m),
        ladder_step(acc, bit, p, a, m) is Ok,
    ensures
        point_on_curve(ladder_step(acc, bit, p, a, m)->Ok_0, a, b, m),
{
    lemma_double_on_curve(acc, a, b, m);
    if bit {
        lemma_sum_on_curve(double_point(acc, a, m)->Ok_0, p, a, b, m);
    }
}

/// Every multiple of a point of the curve is a point of the curve.
pub proof fn lemma_multiple_on_curve(d: nat, p: SpecPoint, a: int, b: int, m: int)
    requires
        m > 0,
        point_on_curve(p, a, b, m),
        multiply_point(d, p, a, m) is Ok,
    ensures
        point_on_curve(multiply_point(d, p, a, m)->Ok_0, a, b, m),
    decreases d,
{
    if d > 0 {
        lemma_multiple_on_curve(d / 2, p, a, b, m);
        lemma_step_on_curve(multiply_point(d / 2, p, a, m)->Ok_0, d % 2 == 1, p, a, b, m);
    }
}

} // verus!
