//! Modular arithmetic on big integers: greatest common divisor, modular
//! inverse and modular square root.

use vstd::prelude::*;
use vstd::arithmetic::div_mod::*;
use vstd::arithmetic::power::*;
use crate::bigint::{BigInt, trunc_div, trunc_rem, lemma_trunc_rem_bound};
use crate::divisibility::{
    abs, common_divisor, coprime, invertible, is_gcd, is_inverse, lemma_coprime_invertible,
    lemma_euclid_step, lemma_gcd_transfer, lemma_gcd_with_zero, lemma_mod_inv_is, mod_inv,
    same_common_divisors,
};
use crate::error::Error;

verus! {

/// The greatest common divisor of `a` and `b`, by Euclid's algorithm. It
/// is never negative, whatever the signs of `a` and `b`.
pub fn gcd(a: &BigInt, b: &BigInt) -> (g: BigInt)
    ensures
        is_gcd(g@, a@, b@),
{
    let mut x = a.duplicate();
    let mut y = b.duplicate();
    while !y.is_zero()
        invariant
            same_common_divisors(x@, y@, a@, b@),
        decreases abs(y@),
    {
        let r = x.remainder(&y);
        proof {
            lemma_trunc_rem_bound(x@, y@);
            lemma_euclid_step(x@, y@, trunc_div(x@, y@));
            assert forall|d: int|
                #![trigger common_divisor(d, y@, r@)]
                #![trigger common_divisor(d, a@, b@)]
                common_divisor(d, y@, r@) <==> common_divisor(d, a@, b@) by {
                assert(common_divisor(d, x@, y@) <==> common_divisor(d, y@, r@));
            }
        }
        x = y;
        y = r;
    }
    let g = x.magnitude();
    proof {
        lemma_gcd_with_zero(x@);
        assert forall|d: int|
            #![trigger common_divisor(d, a@, b@)]
            #![trigger common_divisor(d, x@, 0)]
            common_divisor(d, a@, b@) <==> common_divisor(d, x@, 0) by {
            assert(common_divisor(d, x@, y@) <==> common_divisor(d, a@, b@));
        }
        lemma_gcd_transfer(g@, a@, b@, x@, 0);
    }
    g
}

/// Where the extended algorithm of Euclid ends when it is run from the
/// remainders `old_r` and `r` with the coefficients `old_x`, `x`, `old_y`
/// and `y`: each step divides `old_r` by `r`, rounding towards zero, and
/// takes the quotient times the newer value from the older one. The result
/// is the last remainder that is not zero, with its two coefficients.
pub open spec fn euclid_steps(old_r: int, r: int, old_x: int, x: int, old_y: int, y: int) -> (
    int,
    int,
    int,
)
    decreases abs(r),
    via euclid_steps_decrease
{
    if r == 0 {
        (old_r, old_x, old_y)
    } else {
        let q = trunc_div(old_r, r);
        euclid_steps(r, old_r - q * r, x, old_x - q * x, y, old_y - q * y)
    }
}

#[via_fn]
proof fn euclid_steps_decrease(old_r: int, r: int, old_x: int, x: int, old_y: int, y: int) {
    if r != 0 {
        lemma_step_remainder(old_r, r);
    }
}

/// The remainder that a step leaves is the truncated remainder, smaller in
/// size than the divisor.
pub proof fn lemma_step_remainder(old_r: int, r: int)
    requires
        r != 0,
    ensures
        old_r - trunc_div(old_r, r) * r == trunc_rem(old_r, r),
        abs(old_r - trunc_div(old_r, r) * r) < abs(r),
{
    lemma_trunc_rem_bound(old_r, r);
    let q = trunc_div(old_r, r);
    assert(q * r == r * q) by (nonlinear_arith);
}

/// The extended algorithm of Euclid, run as a loop from `(a, b)` with the
/// coefficients `(1, 0)` and `(0, 1)`: the last remainder `g` that is not
/// zero, and the coefficients `x` and `y` with `a * x + b * y == g`.
///
/// The size of `g` is the greatest common divisor of `a` and `b`; its sign
/// is the one that the steps leave, so that for `b == 0` the result is
/// `(a, 1, 0)` whatever the sign of `a`.
pub fn extended_gcd(a: &BigInt, b: &BigInt) -> (r: (BigInt, BigInt, BigInt))
    ensures
        (r.0@, r.1@, r.2@) == euclid_steps(a@, b@, 1, 0, 0, 1),
        is_gcd(abs(r.0@), a@, b@),
        a@ * r.1@ + b@ * r.2@ == r.0@,
{
    let mut old_r = a.duplicate();
    let mut r = b.duplicate();
    let mut old_x = BigInt::from_i64(1);
    let mut x = BigInt::from_i64(0);
    let mut old_y = BigInt::from_i64(0);
    let mut y = BigInt::from_i64(1);
    proof {
        assert(a@ * 1 + b@ * 0 == a@) by (nonlinear_arith);
        assert(a@ * 0 + b@ * 1 == b@) by (nonlinear_arith);
    }
    while !r.is_zero()
        invariant
            same_common_divisors(old_r@, r@, a@, b@),
            a@ * old_x@ + b@ * old_y@ == old_r@,
            a@ * x@ + b@ * y@ == r@,
            euclid_steps(old_r@, r@, old_x@, x@, old_y@, y@) == euclid_steps(a@, b@, 1, 0, 0, 1),
        decreases abs(r@),
    {
        let q = old_r.quotient(&r);
        let next_r = old_r.minus(&q.times(&r));
        let next_x = old_x.minus(&q.times(&x));
        let next_y = old_y.minus(&q.times(&y));
        proof {
            lemma_step_remainder(old_r@, r@);
            lemma_euclid_step(old_r@, r@, q@);
            assert(next_r@ == old_r@ - r@ * q@) by (nonlinear_arith)
                requires
                    next_r@ == old_r@ - q@ * r@,
            ;
            assert forall|d: int|
                #![trigger common_divisor(d, r@, next_r@)]
                #![trigger common_divisor(d, a@, b@)]
                common_divisor(d, r@, next_r@) <==> common_divisor(d, a@, b@) by {
                assert(common_divisor(d, old_r@, r@) <==> common_divisor(d, r@, next_r@));
            }
            assert(a@ * next_x@ + b@ * next_y@ == next_r@) by (nonlinear_arith)
                requires
                    a@ * old_x@ + b@ * old_y@ == old_r@,
                    a@ * x@ + b@ * y@ == r@,
                    next_x@ == old_x@ - q@ * x@,
                    next_y@ == old_y@ - q@ * y@,
                    next_r@ == old_r@ - q@ * r@,
            ;
            assert(euclid_steps(old_r@, r@, old_x@, x@, old_y@, y@) == euclid_steps(
                r@,
                next_r@,
                x@,
                next_x@,
                y@,
                next_y@,
            ));
        }
        old_r = r;
        r = next_r;
        old_x = x;
        x = next_x;
        old_y = y;
        y = next_y;
    }
    proof {
        lemma_gcd_with_zero(old_r@);
        assert forall|d: int|
            #![trigger common_divisor(d, a@, b@)]
            #![trigger common_divisor(d, old_r@, 0)]
            common_divisor(d, a@, b@) <==> common_divisor(d, old_r@, 0) by {
            assert(common_divisor(d, old_r@, r@) <==> common_divisor(d, a@, b@));
        }
        lemma_gcd_transfer(abs(old_r@), a@, b@, old_r@, 0);
    }
    (old_r, old_x, old_y)
}

/// The inverse of `a` modulo `m`, in the range from `0` to `m - 1`. There
/// is one exactly where `a` and `m` are coprime; elsewhere the result is
/// `NotInvertible`.
pub fn mod_inverse(a: &BigInt, m: &BigInt) -> (r: Result<BigInt, Error>)
    requires
        m@ > 0,
    ensures
        r is Ok <==> coprime(a@, m@),
        r is Ok <==> invertible(a@, m@),
        r matches Ok(x) ==> is_inverse(x@, a@, m@) && x@ == mod_inv(a@, m@),
        r matches Ok(x) ==> m@ > 1 ==> (a@ * x@) % m@ == 1,
        r matches Err(e) ==> e == Error::NotInvertible,
{
    let (g, x, y) = extended_gcd(a, m);
    // the steps may leave the common divisor with either sign
    let coefficient = if g.equals(&BigInt::from_i64(1)) {
        x
    } else if g.equals(&BigInt::from_i64(-1)) {
        BigInt::from_i64(0).minus(&x)
    } else {
        proof {
            let sx = if g@ < 0 { -x@ } else { x@ };
            let sy = if g@ < 0 { -y@ } else { y@ };
            assert(a@ * sx + m@ * sy == abs(g@)) by (nonlinear_arith)
                requires
                    a@ * x@ + m@ * y@ == g@,
                    g@ < 0 && sx == -x@ && sy == -y@ && abs(g@) == -g@ || g@ >= 0 && sx == x@
                        && sy == y@ && abs(g@) == g@,
            ;
            lemma_coprime_invertible(a@, m@, abs(g@), sx, sy);
        }
        return Err(Error::NotInvertible);
    };
    let inverse = coefficient.reduce(m);
    proof {
        assert(a@ * coefficient@ + m@ * (if g@ == 1 { y@ } else { -y@ }) == 1) by (nonlinear_arith)
            requires
                a@ * x@ + m@ * y@ == g@,
                g@ == 1 && coefficient@ == x@ || g@ == -1 && coefficient@ == -x@,
        ;
        lemma_coprime_invertible(a@, m@, 1, coefficient@, if g@ == 1 { y@ } else { -y@ });
        lemma_mod_inv_is(inverse@, a@, m@);
        if m@ > 1 {
            lemma_small_mod(1, m@ as nat);
        }
    }
    Ok(inverse)
}

/// `v` is a square modulo `p` by Euler's criterion: it vanishes modulo
/// `p`, or its power with the exponent `(p - 1) / 2` is `1` modulo `p`.
pub open spec fn is_residue(v: int, p: int) -> bool {
    v % p == 0 || pow(v % p, ((p - 1) / 2) as nat) % p == 1
}

/// The square root of `v` modulo `p` that `mod_sqrt` finds: for a residue
/// and a modulus that leaves `3` when divided by `4`, the power of `v`
/// with the exponent `(p + 1) / 4`.
pub open spec fn mod_sqrt_of(v: int, p: int) -> Result<int, Error> {
    if !is_residue(v, p) {
        Err(Error::NoSquareRoot)
    } else if p % 4 != 3 {
        Err(Error::NoSquareRoot)
    } else {
        Ok(pow(v % p, ((p + 1) / 4) as nat) % p)
    }
}

/// What a result that holds a big integer stands for.
pub open spec fn int_view(r: Result<BigInt, Error>) -> Result<int, Error> {
    match r {
        Ok(x) => Ok(x@),
        Err(e) => Err(e),
    }
}

/// For a residue `r` and a modulus that leaves `3` when divided by `4`,
/// the power with the exponent `(p + 1) / 4` squares to `r`.
pub proof fn lemma_sqrt_squares(r: int, p: int)
    requires
        p > 0,
        p % 4 == 3,
        0 <= r < p,
        is_residue(r, p),
    ensures
        ({
            let s = pow(r, ((p + 1) / 4) as nat) % p;
            0 <= s < p && (s * s) % p == r
        }),
{
    let h = ((p + 1) / 4) as nat;
    let e = ((p - 1) / 2) as nat;
    let root = pow(r, h);
    let criterion = pow(r, e);
    let s = root % p;
    lemma_mod_bound(root, p);
    lemma_small_mod(r as nat, p as nat);
    assert(h + h == e + 1 && h >= 1);
    assert(root * root == criterion * r) by {
        lemma_pow_adds(r, h, h);
        lemma_pow_adds(r, e, 1);
        lemma_pow1(r);
    }
    assert((s * s) % p == (criterion * r) % p) by {
        lemma_mul_mod_noop_general(root, root, p);
    }
    if r == 0 {
        assert(criterion * r == 0) by (nonlinear_arith)
            requires
                r == 0,
        ;
    } else {
        assert(criterion % p == 1);
        assert((criterion * r) % p == r % p) by {
            lemma_mul_mod_noop_general(criterion, r, p);
            assert((criterion % p) * r == r) by (nonlinear_arith)
                requires
                    criterion % p == 1,
            ;
        }
    }
}

/// A square root of `v` modulo the prime `p`.
///
/// Whether `v` is a square is decided by Euler's criterion. The root is
/// computed only for a modulus that leaves `3` when divided by `4`; for
/// any other modulus, as for a `v` that is no square, the result is
/// `NoSquareRoot`. The root that is returned squares to `v` modulo `p`.
pub fn mod_sqrt(v: &BigInt, p: &BigInt) -> (r: Result<BigInt, Error>)
    requires
        p@ > 0,
    ensures
        int_view(r) == mod_sqrt_of(v@, p@),
        r matches Ok(s) ==> 0 <= s@ < p@ && (s@ * s@) % p@ == v@ % p@,
        r matches Err(e) ==> e == Error::NoSquareRoot,
{
    let one = BigInt::from_i64(1);
    let reduced = v.reduce(p);
    proof {
        lemma_mod_bound(v@, p@);
        lemma_mod_twice(v@, p@);
    }
    if !reduced.is_zero() {
        let half = p.minus(&one).quotient(&BigInt::from_i64(2));
        proof {
            lemma_trunc_rem_bound(p@ - 1, 2);
        }
        let criterion = reduced.mod_power(&half, p);
        if !criterion.equals(&one) {
            return Err(Error::NoSquareRoot);
        }
    }
    if !p.reduce(&BigInt::from_i64(4)).equals(&BigInt::from_i64(3)) {
        return Err(Error::NoSquareRoot);
    }
    let quarter = p.plus(&one).quotient(&BigInt::from_i64(4));
    proof {
        lemma_trunc_rem_bound(p@ + 1, 4);
        lemma_sqrt_squares(v@ % p@, p@);
    }
    Ok(reduced.mod_power(&quarter, p))
}

} // verus!
