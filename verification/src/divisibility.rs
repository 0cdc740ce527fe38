//! Divisibility, greatest common divisors and inverses over the
//! mathematical integers: the vocabulary of the contracts on modular
//! arithmetic, with the facts that relate its notions.

use vstd::prelude::*;
use vstd::arithmetic::div_mod::*;

verus! {

/// `d * k`, named so that quantifiers over multiples have a term to match.
pub open spec fn product(d: int, k: int) -> int {
    d * k
}

/// `d` divides `n`: some multiple of `d` is `n`.
pub open spec fn divides(d: int, n: int) -> bool {
    exists|k: int| n == #[trigger] product(d, k)
}

/// `d` divides both `a` and `b`.
pub open spec fn common_divisor(d: int, a: int, b: int) -> bool {
    divides(d, a) && divides(d, b)
}

/// `g` is the greatest common divisor of `a` and `b`: the non-negative
/// common divisor that every common divisor divides. Of `0` and `0` it is
/// `0`.
pub open spec fn is_gcd(g: int, a: int, b: int) -> bool {
    &&& g >= 0
    &&& common_divisor(g, a, b)
    &&& forall|d: int| #[trigger] common_divisor(d, a, b) ==> divides(d, g)
}

/// `a` and `b` have no common divisor but `1` and `-1`.
pub open spec fn coprime(a: int, b: int) -> bool {
    is_gcd(1, a, b)
}

/// The pairs `(a, b)` and `(c, e)` have the same common divisors.
pub open spec fn same_common_divisors(a: int, b: int, c: int, e: int) -> bool {
    forall|d: int|
        #![trigger common_divisor(d, a, b)]
        #![trigger common_divisor(d, c, e)]
        common_divisor(d, a, b) <==> common_divisor(d, c, e)
}

/// `x` is the inverse of `a` modulo `m`, taken in the range from `0` to
/// `m - 1`.
pub open spec fn is_inverse(x: int, a: int, m: int) -> bool {
    &&& 0 <= x < m
    &&& (a * x) % m == 1int % m
}

/// `a` has an inverse modulo `m`.
pub open spec fn invertible(a: int, m: int) -> bool {
    exists|x: int| is_inverse(x, a, m)
}

/// The inverse of `a` modulo `m`, where there is one.
pub open spec fn mod_inv(a: int, m: int) -> int
    recommends
        invertible(a, m),
{
    choose|x: int| is_inverse(x, a, m)
}

/// The absolute value.
pub open spec fn abs(a: int) -> int {
    if a < 0 {
        -a
    } else {
        a
    }
}

/// A multiple of `d` is divisible by `d`.
pub proof fn lemma_divides_multiple(d: int, k: int)
    ensures
        divides(d, d * k),
{
    assert(d * k == product(d, k));
}

/// What `d` has to be multiplied by to give `n`.
pub proof fn lemma_divides_witness(d: int, n: int) -> (k: int)
    requires
        divides(d, n),
    ensures
        n == d * k,
{
    choose|k: int| n == #[trigger] product(d, k)
}

/// A divisor of `a` and `b` divides every combination `a * x + b * y`.
pub proof fn lemma_divides_combination(d: int, a: int, b: int, x: int, y: int)
    requires
        divides(d, a),
        divides(d, b),
    ensures
        divides(d, a * x + b * y),
{
    let ka = lemma_divides_witness(d, a);
    let kb = lemma_divides_witness(d, b);
    assert(a * x + b * y == d * (ka * x + kb * y)) by (nonlinear_arith)
        requires
            a == d * ka,
            b == d * kb,
    ;
    lemma_divides_multiple(d, ka * x + kb * y);
}

/// Two non-negative integers that divide each other are equal.
pub proof fn lemma_divides_antisymmetric(a: int, b: int)
    requires
        a >= 0,
        b >= 0,
        divides(a, b),
        divides(b, a),
    ensures
        a == b,
{
    let k = lemma_divides_witness(a, b);
    let j = lemma_divides_witness(b, a);
    assert(a == b) by (nonlinear_arith)
        requires
            a >= 0,
            b >= 0,
            b == a * k,
            a == b * j,
    ;
}

/// The greatest common divisor is unique.
pub proof fn lemma_gcd_unique(g: int, h: int, a: int, b: int)
    requires
        is_gcd(g, a, b),
        is_gcd(h, a, b),
    ensures
        g == h,
{
    assert(common_divisor(g, a, b));
    assert(common_divisor(h, a, b));
    lemma_divides_antisymmetric(g, h);
}

/// One step of Euclid's algorithm keeps the common divisors: those of
/// `a` and `b` are those of `b` and `a - b * q`.
pub proof fn lemma_euclid_step(a: int, b: int, q: int)
    ensures
        same_common_divisors(a, b, b, a - b * q),
{
    assert forall|d: int| common_divisor(d, a, b) implies common_divisor(d, b, a - b * q) by {
        lemma_divides_combination(d, a, b, 1, -q);
        assert(a * 1 + b * (-q) == a - b * q) by (nonlinear_arith);
    }
    assert forall|d: int| common_divisor(d, b, a - b * q) implies common_divisor(d, a, b) by {
        lemma_divides_combination(d, a - b * q, b, 1, q);
        assert((a - b * q) * 1 + b * q == a) by (nonlinear_arith);
    }
}

/// The greatest common divisor of `a` and `0` is the absolute value of `a`.
pub proof fn lemma_gcd_with_zero(a: int)
    ensures
        is_gcd(abs(a), a, 0),
{
    let g = abs(a);
    assert(a == product(g, if a < 0 { -1 } else { 1 }));
    assert(0 == product(g, 0));
    assert forall|d: int| #[trigger] common_divisor(d, a, 0) implies divides(d, g) by {
        let k = lemma_divides_witness(d, a);
        if a < 0 {
            assert(g == d * (-k)) by (nonlinear_arith)
                requires
                    a == d * k,
                    g == -a,
            ;
            lemma_divides_multiple(d, -k);
        } else {
            lemma_divides_multiple(d, k);
        }
    }
}

/// Pairs with the same common divisors have the same greatest common
/// divisor.
pub proof fn lemma_gcd_transfer(g: int, a: int, b: int, c: int, e: int)
    requires
        same_common_divisors(a, b, c, e),
        is_gcd(g, c, e),
    ensures
        is_gcd(g, a, b),
{
    assert(common_divisor(g, c, e));
    assert(common_divisor(g, a, b));
    assert forall|d: int| #[trigger] common_divisor(d, a, b) implies divides(d, g) by {
        assert(common_divisor(d, c, e));
    }
}

/// The inverse modulo `m` is unique in its range.
pub proof fn lemma_inverse_unique(x: int, y: int, a: int, m: int)
    requires
        is_inverse(x, a, m),
        is_inverse(y, a, m),
    ensures
        x == y,
{
    // x = x * (a * y) = (x * a) * y = y, all modulo m
    lemma_mul_mod_noop_general(x, a * y, m);
    lemma_mul_mod_noop_general(a * x, y, m);
    assert(x * (a * y) == (a * x) * y) by (nonlinear_arith);
    assert((x * (1int % m)) % m == (y * (1int % m)) % m) by {
        assert((x * ((a * y) % m)) % m == (x * (a * y)) % m);
        assert((((a * x) % m) * y) % m == ((a * x) * y) % m);
        assert((1int % m) * y == y * (1int % m)) by (nonlinear_arith);
    }
    lemma_mul_mod_noop_general(x, 1, m);
    lemma_mul_mod_noop_general(y, 1, m);
    assert(x * 1 == x && y * 1 == y);
    lemma_small_mod(x as nat, m as nat);
    lemma_small_mod(y as nat, m as nat);
}

/// Where `x` is an inverse of `a` modulo `m`, it is the inverse that
/// `mod_inv` names.
pub proof fn lemma_mod_inv_is(x: int, a: int, m: int)
    requires
        is_inverse(x, a, m),
    ensures
        invertible(a, m),
        mod_inv(a, m) == x,
{
    lemma_inverse_unique(x, mod_inv(a, m), a, m);
}

/// A combination `a * x + m * y == 1` makes `x`, reduced modulo `m`, the
/// inverse of `a`.
pub proof fn lemma_bezout_inverse(a: int, m: int, x: int, y: int)
    requires
        m > 0,
        a * x + m * y == 1,
    ensures
        is_inverse(x % m, a, m),
{
    lemma_mod_bound(x, m);
    lemma_mul_mod_noop_general(a, x, m);
    lemma_mod_multiples_vanish(-y, 1, m);
    assert(m * (-y) + 1 == a * x) by (nonlinear_arith)
        requires
            a * x + m * y == 1,
    ;
}

/// An integer with an inverse modulo `m` is coprime to `m`.
pub proof fn lemma_invertible_coprime(a: int, m: int)
    requires
        m > 0,
        invertible(a, m),
    ensures
        coprime(a, m),
{
    let x = mod_inv(a, m);
    assert(is_inverse(x, a, m));
    assert(1 == product(1, 1));
    assert(a == product(1, a));
    assert(m == product(1, m));
    assert forall|d: int| #[trigger] common_divisor(d, a, m) implies divides(d, 1) by {
        if m == 1 {
            let k = lemma_divides_witness(d, m);
            assert(1 == product(d, k));
        } else {
            lemma_small_mod(1, m as nat);
            lemma_fundamental_div_mod(a * x, m);
            let q = (a * x) / m;
            assert(a * x + m * (-q) == 1) by (nonlinear_arith)
                requires
                    a * x == m * q + 1,
            ;
            lemma_divides_combination(d, a, m, x, -q);
        }
    }
}

/// An integer is coprime to `m` exactly where it has an inverse modulo
/// `m`, given a combination of the two that yields their greatest common
/// divisor.
pub proof fn lemma_coprime_invertible(a: int, m: int, g: int, x: int, y: int)
    requires
        m > 0,
        is_gcd(g, a, m),
        a * x + m * y == g,
    ensures
        coprime(a, m) <==> g == 1,
        invertible(a, m) <==> g == 1,
        g == 1 ==> is_inverse(x % m, a, m),
{
    if g == 1 {
        lemma_bezout_inverse(a, m, x, y);
        lemma_mod_inv_is(x % m, a, m);
    } else {
        if coprime(a, m) {
            lemma_gcd_unique(g, 1, a, m);
        }
        if invertible(a, m) {
            lemma_invertible_coprime(a, m);
            lemma_gcd_unique(g, 1, a, m);
        }
    }
}

/// Coefficients that combine two non-negative integers to their greatest
/// common divisor: `a * x + b * y == g` for the result `(g, x, y)`.
pub proof fn lemma_bezout(a: int, b: int) -> (c: (int, int, int))
    requires
        a >= 0,
        b >= 0,
    ensures
        is_gcd(c.0, a, b),
        a * c.1 + b * c.2 == c.0,
    decreases b,
{
    if b == 0 {
        lemma_gcd_with_zero(a);
        assert(a * 1 + b * 0 == a) by (nonlinear_arith)
            requires
                b == 0,
        ;
        (a, 1, 0)
    } else {
        lemma_fundamental_div_mod(a, b);
        lemma_mod_bound(a, b);
        let q = a / b;
        let (g, x, y) = lemma_bezout(b, a % b);
        lemma_euclid_step(a, b, q);
        lemma_gcd_transfer(g, a, b, b, a % b);
        assert(a * y + b * (x - q * y) == g) by (nonlinear_arith)
            requires
                b * x + (a % b) * y == g,
                a == b * q + a % b,
        ;
        (g, y, x - q * y)
    }
}

/// An integer coprime to the modulus has an inverse, and the product of
/// the two is `1` modulo `m`. The modulus `1` is left out of the last
/// claim: modulo `1` every product is `0`.
pub proof fn lemma_inverse_round_trip(a: int, m: int)
    requires
        m > 0,
        coprime(a, m),
    ensures
        invertible(a, m),
        is_inverse(mod_inv(a, m), a, m),
        m > 1 ==> (a * mod_inv(a, m)) % m == 1,
{
    lemma_fundamental_div_mod(a, m);
    lemma_mod_bound(a, m);
    let q = a / m;
    let (g, x, y) = lemma_bezout(m, a % m);
    lemma_euclid_step(a, m, q);
    lemma_gcd_transfer(g, a, m, m, a % m);
    lemma_gcd_unique(g, 1, a, m);
    assert(a * y + m * (x - q * y) == 1) by (nonlinear_arith)
        requires
            m * x + (a % m) * y == 1,
            a == m * q + a % m,
    ;
    lemma_bezout_inverse(a, m, y, x - q * y);
    lemma_mod_inv_is(y % m, a, m);
    if m > 1 {
        lemma_small_mod(1, m as nat);
    }
}

} // verus!
