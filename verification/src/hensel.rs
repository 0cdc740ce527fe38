//! Hensel lifting of a point of the curve `y^2 = x^3 + a*x + b` from the
//! modulus `p` to the modulus `p^k`.
//!
//! The ordinate is kept and the abscissa is refined, one power of `p` per
//! level, by Newton's step on `f(x) = x^3 + a*x + b - y^2`. The derivative
//! is inverted modulo `p`, as Hensel's lemma has it, while the values are
//! reduced modulo the growing power.

use vstd::prelude::*;
use vstd::arithmetic::div_mod::*;
use vstd::arithmetic::power::*;
use crate::bigint::BigInt;
use crate::divisibility::{invertible, is_inverse, mod_inv};
use crate::error::Error;
use crate::utils::mod_inverse;

verus! {

/// The right-hand side of the curve equation at `x`.
pub open spec fn curve_rhs(x: int, a: int, b: int) -> int {
    x * x * x + a * x + b
}

/// The point `(x, y)` satisfies the curve equation modulo `m`.
pub open spec fn on_curve(x: int, y: int, a: int, b: int, m: int) -> bool {
    (y * y) % m == curve_rhs(x, a, b) % m
}

/// The discriminant of the curve, up to the factor `-16`.
pub open spec fn discriminant(a: int, b: int) -> int {
    4 * a * a * a + 27 * b * b
}

/// The derivative of the right-hand side of the curve equation at `x`.
pub open spec fn curve_slope(x: int, a: int) -> int {
    3 * x * x + a
}

/// One level of the lifting: from a point for the modulus `p^(i-1)` to one
/// for the modulus `p^i`.
pub open spec fn lift_step(x: int, y: int, p: int, a: int, b: int, i: nat) -> Result<
    (int, int),
    Error,
> {
    let modulus = pow(p, i);
    let derivative = curve_slope(x, a) % modulus;
    if !invertible(derivative, p) {
        Err(Error::DerivativeNotInvertible)
    } else {
        let residue = (curve_rhs(x, a, b) - y * y) % modulus;
        let next_x = (x - residue * mod_inv(derivative, p)) % modulus;
        let next_y = y % modulus;
        if on_curve(next_x, next_y, a, b, modulus) {
            Ok((next_x, next_y))
        } else {
            Err(Error::NoValidLift)
        }
    }
}

/// The point after `i` levels of lifting, or the failure of the first
/// level that fails.
pub open spec fn lift_levels(x0: int, y0: int, p: int, a: int, b: int, i: nat) -> Result<
    (int, int),
    Error,
>
    decreases i,
{
    if i == 0 {
        Ok((x0, y0))
    } else {
        match lift_levels(x0, y0, p, a, b, (i - 1) as nat) {
            Err(e) => Err(e),
            Ok((x, y)) => lift_step(x, y, p, a, b, i),
        }
    }
}

/// The seed `(x0, y0)` lifted to the modulus `p^k`: the seed has to lie on
/// the curve modulo `p`, and the curve has to be non-singular modulo `p`.
pub open spec fn lift(p: int, a: int, b: int, x0: int, y0: int, k: nat) -> Result<
    (int, int),
    Error,
> {
    if !on_curve(x0, y0, a, b, p) {
        Err(Error::InvalidSeed)
    } else if discriminant(a, b) % p == 0 {
        Err(Error::SingularCurve)
    } else {
        lift_levels(x0, y0, p, a, b, k)
    }
}

/// What a result that holds a pair of coordinates stands for.
pub open spec fn pair_view(r: Result<(BigInt, BigInt), Error>) -> Result<(int, int), Error> {
    match r {
        Ok((x, y)) => Ok((x@, y@)),
        Err(e) => Err(e),
    }
}

/// A level that fails makes every later level fail in the same way.
pub proof fn lemma_failure_persists(
    x0: int,
    y0: int,
    p: int,
    a: int,
    b: int,
    i: nat,
    k: nat,
    e: Error,
)
    requires
        i <= k,
        lift_levels(x0, y0, p, a, b, i) == Err::<(int, int), Error>(e),
    ensures
        lift_levels(x0, y0, p, a, b, k) == Err::<(int, int), Error>(e),
    decreases k - i,
{
    if i < k {
        lemma_failure_persists(x0, y0, p, a, b, i, (k - 1) as nat, e);
    }
}

/// Every level that succeeds yields a point of the curve for its modulus,
/// with coordinates in the range from `0` to the modulus.
pub proof fn lemma_lifted_point_on_curve(
    x0: int,
    y0: int,
    p: int,
    a: int,
    b: int,
    k: nat,
)
    requires
        p > 0,
        k >= 1,
        lift_levels(x0, y0, p, a, b, k) is Ok,
    ensures
        ({
            let (x, y) = lift_levels(x0, y0, p, a, b, k)->Ok_0;
            &&& on_curve(x, y, a, b, pow(p, k))
            &&& 0 <= x < pow(p, k)
            &&& 0 <= y < pow(p, k)
        }),
{
    lemma_pow_positive(p, k);
    let before = lift_levels(x0, y0, p, a, b, (k - 1) as nat);
    let (x, y) = before->Ok_0;
    let modulus = pow(p, k);
    let derivative = curve_slope(x, a) % modulus;
    let residue = (curve_rhs(x, a, b) - y * y) % modulus;
    lemma_mod_bound(x - residue * mod_inv(derivative, p), modulus);
    lemma_mod_bound(y, modulus);
}

/// A seed that is lifted is lifted to a point of the curve: for every
/// exponent `k` of at least one, the point that `lift` yields satisfies
/// the curve equation modulo `p^k`.
pub proof fn lemma_lift_consistent(p: int, a: int, b: int, x0: int, y0: int, k: nat)
    requires
        k >= 1,
        lift(p, a, b, x0, y0, k) is Ok,
    ensures
        ({
            let (x, y) = lift(p, a, b, x0, y0, k)->Ok_0;
            &&& on_curve(x, y, a, b, pow(p, k))
            &&& p > 0 ==> (y * y - curve_rhs(x, a, b)) % pow(p, k) == 0
        }),
{
    let (x, y) = lift(p, a, b, x0, y0, k)->Ok_0;
    assert(lift_levels(x0, y0, p, a, b, k) == Ok::<(int, int), Error>((x, y)));
    assert(on_curve(x, y, a, b, pow(p, k)));
    if p > 0 {
        lemma_pow_positive(p, k);
        lemma_mod_equivalence(y * y, curve_rhs(x, a, b), pow(p, k));
    }
}

/// Products of congruent factors are congruent.
pub proof fn lemma_mul_congruent(a: int, b: int, c: int, d: int, m: int)
    requires
        m > 0,
        a % m == c % m,
        b % m == d % m,
    ensures
        (a * b) % m == (c * d) % m,
{
    lemma_mul_mod_noop_general(a, b, m);
    lemma_mul_mod_noop_general(c, d, m);
}

/// The right-hand side of the curve equation takes congruent values at
/// congruent arguments.
pub proof fn lemma_rhs_congruent(x: int, z: int, a: int, b: int, m: int)
    requires
        m > 0,
        x % m == z % m,
    ensures
        curve_rhs(x, a, b) % m == curve_rhs(z, a, b) % m,
{
    lemma_mul_congruent(x, x, z, z, m);
    lemma_mul_congruent(x * x, x, z * z, z, m);
    lemma_mul_congruent(a, x, a, z, m);
    lemma_add_mod_noop(x * x * x, a * x, m);
    lemma_add_mod_noop(z * z * z, a * z, m);
    lemma_add_mod_noop(x * x * x + a * x, b, m);
    lemma_add_mod_noop(z * z * z + a * z, b, m);
}

/// A seed on a non-singular curve at which the derivative has an inverse
/// modulo `p` is lifted to the first level as it is: the result is the
/// seed with its coordinates reduced modulo `p`.
pub proof fn lemma_first_level_keeps_seed(p: int, a: int, b: int, x0: int, y0: int)
    requires
        p > 0,
        on_curve(x0, y0, a, b, p),
        discriminant(a, b) % p != 0,
        invertible(curve_slope(x0, a) % p, p),
    ensures
        lift(p, a, b, x0, y0, 1) == Ok::<(int, int), Error>((x0 % p, y0 % p)),
{
    reveal_with_fuel(lift_levels, 2);
    lemma_first_level(x0, y0, p, a, b);
}

/// Whether a value has an inverse modulo `p` depends on its residue
/// modulo `p` alone.
pub proof fn lemma_invertible_congruent(c: int, e: int, p: int)
    requires
        p > 0,
        c % p == e % p,
        invertible(c, p),
    ensures
        invertible(e, p),
{
    let t = mod_inv(c, p);
    lemma_mul_congruent(c, t, e, t, p);
    assert(is_inverse(t, e, p));
}

/// The derivative takes congruent values at congruent arguments.
pub proof fn lemma_slope_congruent(x: int, z: int, a: int, m: int)
    requires
        m > 0,
        x % m == z % m,
    ensures
        curve_slope(x, a) % m == curve_slope(z, a) % m,
{
    lemma_mul_congruent(3, x, 3, z, m);
    lemma_mul_congruent(3 * x, x, 3 * z, z, m);
    lemma_add_mod_noop(3 * x * x, a, m);
    lemma_add_mod_noop(3 * z * z, a, m);
}

/// Newton's step from one power of `p` to the next: a point of the curve
/// modulo `p^(i-1)` at which the derivative has an inverse modulo `p` is
/// lifted to a point of the curve modulo `p^i`, and the step changes
/// neither coordinate modulo `p`.
pub proof fn lemma_newton_step(x: int, y: int, p: int, a: int, b: int, i: nat)
    requires
        p > 0,
        i >= 2,
        on_curve(x, y, a, b, pow(p, (i - 1) as nat)),
        invertible(curve_slope(x, a) % pow(p, i), p),
    ensures
        lift_step(x, y, p, a, b, i) is Ok,
        ({
            let (next_x, next_y) = lift_step(x, y, p, a, b, i)->Ok_0;
            next_x % p == x % p && next_y % p == y % p
        }),
{
    let low = pow(p, (i - 2) as nat);
    let q = pow(p, (i - 1) as nat);
    let m = pow(p, i);
    lemma_pow_positive(p, (i - 2) as nat);
    lemma_pow_positive(p, (i - 1) as nat);
    lemma_pow_positive(p, i);
    assert(q == p * low && m == p * q) by {
        reveal(pow);
    }
    let slope = curve_slope(x, a);
    let d = slope % m;
    let t = mod_inv(d, p);
    assert(is_inverse(t, d, p));
    let value = curve_rhs(x, a, b) - y * y;
    let f = value % m;
    // the value of the polynomial vanishes modulo p^(i-1), and so does its residue
    lemma_mod_equivalence(curve_rhs(x, a, b), y * y, q);
    assert(value % q == 0);
    lemma_fundamental_div_mod(value, m);
    let value_q = value / m;
    assert(value == q * (p * value_q) + f) by (nonlinear_arith)
        requires
            value == m * value_q + f,
            m == p * q,
    ;
    lemma_mod_multiples_vanish(p * value_q, f, q);
    lemma_fundamental_div_mod(f, q);
    let u = f / q;
    assert(f == q * u);
    // one minus the derivative times its inverse vanishes modulo p
    lemma_fundamental_div_mod(slope, m);
    let slope_q = slope / m;
    lemma_fundamental_div_mod(d * t, p);
    lemma_fundamental_div_mod(1, p);
    let unit = 1int % p;
    let w = (1int / p) - (d * t) / p - q * slope_q * t;
    assert(1 - slope * t == p * w) by (nonlinear_arith)
        requires
            slope == m * slope_q + d,
            m == p * q,
            d * t == p * ((d * t) / p) + unit,
            1 == p * (1int / p) + unit,
            w == (1int / p) - (d * t) / p - q * slope_q * t,
    ;
    // the value of the polynomial at the new abscissa
    let h = -(f * t);
    let raw = x - f * t;
    assert(raw == x + h);
    lemma_cubic_shift(x, h, a, b);
    assert(curve_rhs(raw, a, b) - y * y == value + slope * h + h * h * (3 * x + h));
    let st = slope * t;
    let uw = u * w;
    assert(slope * h == -(f * st)) by (nonlinear_arith)
        requires
            h == -(f * t),
            st == slope * t,
    ;
    assert(f - f * st == f * (p * w)) by (nonlinear_arith)
        requires
            1 - st == p * w,
    ;
    assert(f * (p * w) == m * uw) by (nonlinear_arith)
        requires
            f == q * u,
            m == p * q,
            uw == u * w,
    ;
    assert(m * value_q + m * uw == m * (value_q + uw)) by (nonlinear_arith);
    assert(value + slope * h == m * (value_q + u * w));
    let ut = u * t;
    assert(h == -(q * ut)) by (nonlinear_arith)
        requires
            h == -(f * t),
            f == q * u,
            ut == u * t,
    ;
    assert(h * h == m * (low * (ut * ut))) by (nonlinear_arith)
        requires
            h == -(q * ut),
            q == p * low,
            m == p * q,
    ;
    let k = value_q + u * w + (low * (ut * ut)) * (3 * x + h);
    assert(curve_rhs(raw, a, b) - y * y == k * m) by (nonlinear_arith)
        requires
            curve_rhs(raw, a, b) - y * y == value + slope * h + h * h * (3 * x + h),
            value + slope * h == m * (value_q + u * w),
            h * h == m * (low * (ut * ut)),
            k == value_q + u * w + (low * (ut * ut)) * (3 * x + h),
    ;
    lemma_mod_multiples_basic(k, m);
    lemma_mod_equivalence(curve_rhs(raw, a, b), y * y, m);
    assert(curve_rhs(raw, a, b) % m == (y * y) % m);
    // reducing the coordinates keeps the point on the curve
    let next_x = raw % m;
    let next_y = y % m;
    lemma_mod_twice(raw, m);
    lemma_rhs_congruent(next_x, raw, a, b, m);
    lemma_mod_twice(y, m);
    lemma_mul_congruent(next_y, next_y, y, y, m);
    assert(on_curve(next_x, next_y, a, b, m));
    assert(lift_step(x, y, p, a, b, i) == Ok::<(int, int), Error>((next_x, next_y)));
    // and neither coordinate changes modulo p
    lemma_mod_mod(raw, p, q);
    lemma_mod_mod(y, p, q);
    assert(raw == p * (-(low * ut)) + x) by (nonlinear_arith)
        requires
            raw == x + h,
            h == -(q * ut),
            q == p * low,
    ;
    lemma_mod_multiples_vanish(-(low * ut), x, p);
}

/// The right-hand side of the curve equation at `x + h`, expanded around
/// `x`.
pub proof fn lemma_cubic_shift(x: int, h: int, a: int, b: int)
    ensures
        curve_rhs(x + h, a, b) == curve_rhs(x, a, b) + curve_slope(x, a) * h + h * h * (3 * x
            + h),
{
    let z = x + h;
    assert(z * z == x * x + 2 * (x * h) + h * h) by (nonlinear_arith)
        requires
            z == x + h,
    ;
    assert(z * z * z == x * x * x + 3 * (x * x * h) + 3 * (x * (h * h)) + h * h * h)
        by (nonlinear_arith)
        requires
            z == x + h,
            z * z == x * x + 2 * (x * h) + h * h,
    ;
    assert(a * z == a * x + a * h) by (nonlinear_arith)
        requires
            z == x + h,
    ;
    assert((3 * x * x + a) * h == 3 * (x * x * h) + a * h) by (nonlinear_arith);
    assert(h * h * (3 * x + h) == 3 * (x * (h * h)) + h * h * h) by (nonlinear_arith);
}

/// Lifting succeeds at every level: for a seed on the curve modulo `p` at
/// which the derivative has an inverse modulo `p`, each level yields a
/// point of the curve for its modulus that agrees with the seed modulo
/// `p`.
pub proof fn lemma_lifting_succeeds(x0: int, y0: int, p: int, a: int, b: int, k: nat)
    requires
        p > 0,
        k >= 1,
        on_curve(x0, y0, a, b, p),
        invertible(curve_slope(x0, a) % p, p),
    ensures
        lift_levels(x0, y0, p, a, b, k) is Ok,
        ({
            let (x, y) = lift_levels(x0, y0, p, a, b, k)->Ok_0;
            &&& on_curve(x, y, a, b, pow(p, k))
            &&& x % p == x0 % p
            &&& y % p == y0 % p
        }),
    decreases k,
{
    if k == 1 {
        reveal_with_fuel(lift_levels, 2);
        lemma_first_level(x0, y0, p, a, b);
        lemma_pow1(p);
        lemma_mod_twice(x0, p);
        lemma_mod_twice(y0, p);
    } else {
        lemma_lifting_succeeds(x0, y0, p, a, b, (k - 1) as nat);
        let (x, y) = lift_levels(x0, y0, p, a, b, (k - 1) as nat)->Ok_0;
        let q = pow(p, (k - 1) as nat);
        let m = pow(p, k);
        lemma_pow_positive(p, (k - 1) as nat);
        assert(m == p * q) by {
            reveal(pow);
        }
        lemma_mod_mod(curve_slope(x, a), p, q);
        lemma_slope_congruent(x, x0, a, p);
        lemma_mod_twice(curve_slope(x0, a), p);
        lemma_invertible_congruent(curve_slope(x0, a) % p, curve_slope(x, a) % m, p);
        lemma_newton_step(x, y, p, a, b, k);
        lemma_lifted_point_on_curve(x0, y0, p, a, b, k);
    }
}

/// The first level, for a seed on the curve at which the derivative has an
/// inverse: the seed with its coordinates reduced.
pub proof fn lemma_first_level(x0: int, y0: int, p: int, a: int, b: int)
    requires
        p > 0,
        on_curve(x0, y0, a, b, p),
        invertible(curve_slope(x0, a) % p, p),
    ensures
        lift_step(x0, y0, p, a, b, 1) == Ok::<(int, int), Error>((x0 % p, y0 % p)),
        on_curve(x0 % p, y0 % p, a, b, p),
{
    lemma_pow1(p);
    let derivative = curve_slope(x0, a) % p;
    let residue = (curve_rhs(x0, a, b) - y0 * y0) % p;
    lemma_mod_equivalence(curve_rhs(x0, a, b), y0 * y0, p);
    assert(residue == 0);
    assert(residue * mod_inv(derivative, p) == 0) by (nonlinear_arith)
        requires
            residue == 0,
    ;
    lemma_mod_twice(x0, p);
    lemma_mod_twice(y0, p);
    lemma_rhs_congruent(x0 % p, x0, a, b, p);
    lemma_mul_congruent(y0 % p, y0 % p, y0, y0, p);
}

/// When lifting succeeds and how it fails. A seed off the curve modulo `p`
/// is an `InvalidSeed`; on the curve, a discriminant that vanishes modulo
/// `p` makes a `SingularCurve`; then, for at least one level, a derivative
/// at the seed without inverse modulo `p` is a `DerivativeNotInvertible`.
/// Every other seed is lifted: no level is ever left without a matching
/// ordinate.
pub proof fn lemma_lift_outcome(p: int, a: int, b: int, x0: int, y0: int, k: nat)
    requires
        p > 0,
    ensures
        lift(p, a, b, x0, y0, k) == Err::<(int, int), Error>(Error::InvalidSeed) <==> !on_curve(
            x0,
            y0,
            a,
            b,
            p,
        ),
        lift(p, a, b, x0, y0, k) == Err::<(int, int), Error>(Error::SingularCurve) <==> on_curve(
            x0,
            y0,
            a,
            b,
            p,
        ) && discriminant(a, b) % p == 0,
        lift(p, a, b, x0, y0, k) == Err::<(int, int), Error>(Error::DerivativeNotInvertible)
            <==> on_curve(x0, y0, a, b, p) && discriminant(a, b) % p != 0 && k >= 1 && !invertible(
            curve_slope(x0, a) % p,
            p,
        ),
        lift(p, a, b, x0, y0, k) is Ok <==> on_curve(x0, y0, a, b, p) && discriminant(a, b) % p
            != 0 && (k == 0 || invertible(curve_slope(x0, a) % p, p)),
        lift(p, a, b, x0, y0, k) != Err::<(int, int), Error>(Error::NoValidLift),
{
    if on_curve(x0, y0, a, b, p) && discriminant(a, b) % p != 0 && k >= 1 {
        if invertible(curve_slope(x0, a) % p, p) {
            lemma_lifting_succeeds(x0, y0, p, a, b, k);
        } else {
            reveal_with_fuel(lift_levels, 2);
            lemma_pow1(p);
            assert(lift_levels(x0, y0, p, a, b, 1) == Err::<(int, int), Error>(
                Error::DerivativeNotInvertible,
            ));
            lemma_failure_persists(x0, y0, p, a, b, 1, k, Error::DerivativeNotInvertible);
        }
    }
}

/// The value of the right-hand side of the curve equation at `x`.
fn eval_rhs(x: &BigInt, a: &BigInt, b: &BigInt) -> (r: BigInt)
    ensures
        r@ == curve_rhs(x@, a@, b@),
{
    x.times(x).times(x).plus(&a.times(x)).plus(b)
}

/// Whether `(x, y)` satisfies the curve equation modulo `m`.
pub fn is_on_curve(x: &BigInt, y: &BigInt, a: &BigInt, b: &BigInt, m: &BigInt) -> (r: bool)
    requires
        m@ > 0,
    ensures
        r == on_curve(x@, y@, a@, b@, m@),
{
    let left = y.times(y).reduce(m);
    let right = eval_rhs(x, a, b).reduce(m);
    left.equals(&right)
}

/// One level of the lifting, for the modulus `p^i`.
fn lift_level(x: &BigInt, y: &BigInt, p: &BigInt, a: &BigInt, b: &BigInt, i: u32) -> (r: Result<
    (BigInt, BigInt),
    Error,
>)
    requires
        p@ > 0,
    ensures
        pair_view(r) == lift_step(x@, y@, p@, a@, b@, i as nat),
{
    let modulus = p.power(i);
    proof {
        lemma_pow_positive(p@, i as nat);
    }
    let derivative = BigInt::from_i64(3).times(x).times(x).plus(a).reduce(&modulus);
    match mod_inverse(&derivative, p) {
        Err(_) => Err(Error::DerivativeNotInvertible),
        Ok(inverse) => {
            let residue = eval_rhs(x, a, b).minus(&y.times(y)).reduce(&modulus);
            let next_x = x.minus(&residue.times(&inverse)).reduce(&modulus);
            let next_y = y.reduce(&modulus);
            if is_on_curve(&next_x, &next_y, a, b, &modulus) {
                Ok((next_x, next_y))
            } else {
                Err(Error::NoValidLift)
            }
        },
    }
}

/// Lifts the seed `(x0, y0)` of the curve `y^2 = x^3 + a*x + b` modulo `p`
/// to a point of the curve modulo `p^k`.
///
/// The seed is checked once: off the curve it is an `InvalidSeed`, and a
/// curve whose discriminant vanishes modulo `p` is a `SingularCurve`. A
/// level at which the derivative has no inverse modulo `p` ends the
/// lifting with `DerivativeNotInvertible`, and one at which the refined
/// abscissa has no matching ordinate with `NoValidLift`.
pub fn hensel_lift(p: &BigInt, a: &BigInt, b: &BigInt, x0: &BigInt, y0: &BigInt, k: usize) -> (r:
    Result<(BigInt, BigInt), Error>)
    requires
        p@ > 0,
        k <= u32::MAX,
    ensures
        pair_view(r) == lift(p@, a@, b@, x0@, y0@, k as nat),
        r is Ok <==> on_curve(x0@, y0@, a@, b@, p@) && discriminant(a@, b@) % p@ != 0 && (k == 0
            || invertible(curve_slope(x0@, a@) % p@, p@)),
        r matches Ok((x, y)) ==> k >= 1 ==> {
            &&& on_curve(x@, y@, a@, b@, pow(p@, k as nat))
            &&& 0 <= x@ < pow(p@, k as nat)
            &&& 0 <= y@ < pow(p@, k as nat)
            &&& x@ % p@ == x0@ % p@
            &&& y@ % p@ == y0@ % p@
        },
        r matches Err(e) ==> {
            &&& e == Error::InvalidSeed <==> !on_curve(x0@, y0@, a@, b@, p@)
            &&& e == Error::SingularCurve <==> on_curve(x0@, y0@, a@, b@, p@) && discriminant(
                a@,
                b@,
            ) % p@ == 0
            &&& e == Error::DerivativeNotInvertible <==> on_curve(x0@, y0@, a@, b@, p@)
                && discriminant(a@, b@) % p@ != 0
            &&& e == Error::InvalidSeed || e == Error::SingularCurve || e
                == Error::DerivativeNotInvertible
        },
{
    proof {
        lemma_lift_outcome(p@, a@, b@, x0@, y0@, k as nat);
        if lift(p@, a@, b@, x0@, y0@, k as nat) is Ok && k >= 1 {
            lemma_lifting_succeeds(x0@, y0@, p@, a@, b@, k as nat);
        }
    }
    if !is_on_curve(x0, y0, a, b, p) {
        return Err(Error::InvalidSeed);
    }
    let four_a_cubed = BigInt::from_i64(4).times(a).times(a).times(a);
    let disc = four_a_cubed.plus(&BigInt::from_i64(27).times(b).times(b));
    if disc.reduce(p).is_zero() {
        return Err(Error::SingularCurve);
    }
    let mut x = x0.duplicate();
    let mut y = y0.duplicate();
    let mut i: usize = 0;
    while i < k
        invariant
            p@ > 0,
            i <= k <= u32::MAX,
            on_curve(x0@, y0@, a@, b@, p@),
            discriminant(a@, b@) % p@ != 0,
            lift_levels(x0@, y0@, p@, a@, b@, i as nat) == Ok::<(int, int), Error>((x@, y@)),
        decreases k - i,
    {
        i = i + 1;
        match lift_level(&x, &y, p, a, b, i as u32) {
            Err(e) => {
                proof {
                    assert(lift_levels(x0@, y0@, p@, a@, b@, (i - 1) as nat) == Ok::<
                        (int, int),
                        Error,
                    >((x@, y@)));
                    assert(lift_levels(x0@, y0@, p@, a@, b@, i as nat) == Err::<(int, int), Error>(
                        e,
                    ));
                    lemma_failure_persists(x0@, y0@, p@, a@, b@, i as nat, k as nat, e);
                    lemma_lift_outcome(p@, a@, b@, x0@, y0@, k as nat);
                }
                return Err(e);
            },
            Ok((next_x, next_y)) => {
                proof {
                    assert(lift_levels(x0@, y0@, p@, a@, b@, (i - 1) as nat) == Ok::<
                        (int, int),
                        Error,
                    >((x@, y@)));
                }
                x = next_x;
                y = next_y;
            },
        }
    }
    proof {
        if k >= 1 {
            lemma_lifted_point_on_curve(x0@, y0@, p@, a@, b@, k as nat);
        }
    }
    Ok((x, y))
}

} // verus!
