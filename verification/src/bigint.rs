//! Arbitrary-precision integers.
//!
//! A `BigInt` holds its value as big-endian two's-complement bytes and is
//! viewed as a mathematical integer. The arithmetic itself is done by
//! `num_bigint_dig`; the functions that call it are marked
//! `external_body`, and their contracts are taken on trust. Each of them
//! reads its arguments with `num_bigint_dig::BigInt::from_signed_bytes_be`
//! and writes its result with `to_signed_bytes_be`, so each contract also
//! takes it that these two agree with `signed_value`. What is built from
//! machine integers or read from the bytes is verified.

use vstd::prelude::*;
use vstd::arithmetic::power::pow;

verus! {

/// The integer that big-endian two's-complement bytes stand for. The empty
/// sequence stands for zero; the first byte carries the sign.
pub open spec fn signed_value(bytes: Seq<u8>) -> int
    decreases bytes.len(),
{
    if bytes.len() == 0 {
        0
    } else if bytes.len() == 1 {
        if bytes[0] >= 128 {
            bytes[0] - 256
        } else {
            bytes[0] as int
        }
    } else {
        signed_value(bytes.drop_last()) * 256 + bytes.last()
    }
}

/// The natural number that big-endian bytes stand for when none of them
/// carries a sign.
pub open spec fn unsigned_value(bytes: Seq<u8>) -> nat
    decreases bytes.len(),
{
    if bytes.len() == 0 {
        0
    } else {
        unsigned_value(bytes.drop_last()) * 256 + bytes.last() as nat
    }
}

/// The quotient of `a` by `b` rounded towards zero.
pub open spec fn trunc_div(a: int, b: int) -> int
    recommends
        b != 0,
{
    if a >= 0 {
        if b > 0 {
            a / b
        } else {
            -(a / (-b))
        }
    } else {
        if b > 0 {
            -((-a) / b)
        } else {
            (-a) / (-b)
        }
    }
}

/// The remainder that goes with `trunc_div`: it has the sign of `a`.
pub open spec fn trunc_rem(a: int, b: int) -> int
    recommends
        b != 0,
{
    a - b * trunc_div(a, b)
}

/// An integer of any size.
#[derive(Debug)]
pub struct BigInt {
    bytes: Vec<u8>,
}

impl View for BigInt {
    type V = int;

    closed spec fn view(&self) -> int {
        signed_value(self.bytes@)
    }
}

impl BigInt {
    /// The `+` of `num_bigint_dig::BigInt`: the sum.
    #[verifier::external_body]
    pub(crate) fn plus(&self, other: &BigInt) -> (r: BigInt)
        ensures
            r@ == self@ + other@,
    {
        let x = num_bigint_dig::BigInt::from_signed_bytes_be(&self.bytes);
        let y = num_bigint_dig::BigInt::from_signed_bytes_be(&other.bytes);
        BigInt { bytes: (x + y).to_signed_bytes_be() }
    }

    /// The `-` of `num_bigint_dig::BigInt`: the difference.
    #[verifier::external_body]
    pub(crate) fn minus(&self, other: &BigInt) -> (r: BigInt)
        ensures
            r@ == self@ - other@,
    {
        let x = num_bigint_dig::BigInt::from_signed_bytes_be(&self.bytes);
        let y = num_bigint_dig::BigInt::from_signed_bytes_be(&other.bytes);
        BigInt { bytes: (x - y).to_signed_bytes_be() }
    }

    /// The `*` of `num_bigint_dig::BigInt`: the product.
    #[verifier::external_body]
    pub(crate) fn times(&self, other: &BigInt) -> (r: BigInt)
        ensures
            r@ == self@ * other@,
    {
        let x = num_bigint_dig::BigInt::from_signed_bytes_be(&self.bytes);
        let y = num_bigint_dig::BigInt::from_signed_bytes_be(&other.bytes);
        BigInt { bytes: (x * y).to_signed_bytes_be() }
    }

    /// The `/` of `num_bigint_dig::BigInt`: the quotient rounded towards
    /// zero. It panics on a zero divisor, which the precondition leaves out.
    #[verifier::external_body]
    pub(crate) fn quotient(&self, other: &BigInt) -> (r: BigInt)
        requires
            other@ != 0,
        ensures
            r@ == trunc_div(self@, other@),
    {
        let x = num_bigint_dig::BigInt::from_signed_bytes_be(&self.bytes);
        let y = num_bigint_dig::BigInt::from_signed_bytes_be(&other.bytes);
        BigInt { bytes: (x / y).to_signed_bytes_be() }
    }

    /// The `%` of `num_bigint_dig::BigInt`: the remainder of the division
    /// rounded towards zero, which has the sign of the dividend. It panics
    /// on a zero divisor, which the precondition leaves out.
    #[verifier::external_body]
    pub(crate) fn remainder(&self, other: &BigInt) -> (r: BigInt)
        requires
            other@ != 0,
        ensures
            r@ == trunc_rem(self@, other@),
    {
        let x = num_bigint_dig::BigInt::from_signed_bytes_be(&self.bytes);
        let y = num_bigint_dig::BigInt::from_signed_bytes_be(&other.bytes);
        BigInt { bytes: (x % y).to_signed_bytes_be() }
    }

    /// `num_traits::Pow::pow` on a `num_bigint_dig::BigInt` with a `u32`
    /// exponent: the power, with `x^0 = 1` for every `x`.
    #[verifier::external_body]
    pub(crate) fn power(&self, e: u32) -> (r: BigInt)
        ensures
            r@ == pow(self@, e as nat),
    {
        let x = num_bigint_dig::BigInt::from_signed_bytes_be(&self.bytes);
        BigInt { bytes: num_traits::Pow::pow(&x, e).to_signed_bytes_be() }
    }

    /// `num_bigint_dig::BigInt::modpow`: the power reduced by the modulus.
    /// It panics on a negative exponent and on a zero modulus; the
    /// precondition leaves those out, and with them negative bases,
    /// negative moduli and the modulus one.
    #[verifier::external_body]
    pub(crate) fn mod_power(&self, e: &BigInt, m: &BigInt) -> (r: BigInt)
        requires
            self@ >= 0,
            e@ >= 0,
            m@ > 1,
        ensures
            r@ == pow(self@, e@ as nat) % m@,
    {
        let x = num_bigint_dig::BigInt::from_signed_bytes_be(&self.bytes);
        let y = num_bigint_dig::BigInt::from_signed_bytes_be(&e.bytes);
        let z = num_bigint_dig::BigInt::from_signed_bytes_be(&m.bytes);
        BigInt { bytes: x.modpow(&y, &z).to_signed_bytes_be() }
    }

    /// The `==` of `num_bigint_dig::BigInt`: whether the two values are
    /// equal.
    #[verifier::external_body]
    pub(crate) fn equals(&self, other: &BigInt) -> (r: bool)
        ensures
            r == (self@ == other@),
    {
        let x = num_bigint_dig::BigInt::from_signed_bytes_be(&self.bytes);
        let y = num_bigint_dig::BigInt::from_signed_bytes_be(&other.bytes);
        x == y
    }

    /// `num_traits::Zero::is_zero` on a `num_bigint_dig::BigInt`.
    #[verifier::external_body]
    pub(crate) fn is_zero(&self) -> (r: bool)
        ensures
            r == (self@ == 0),
    {
        num_traits::Zero::is_zero(&num_bigint_dig::BigInt::from_signed_bytes_be(&self.bytes))
    }
}

impl PartialEq for BigInt {
    fn eq(&self, other: &BigInt) -> (r: bool) {
        self.equals(other)
    }
}

impl vstd::std_specs::cmp::PartialEqSpecImpl for BigInt {
    open spec fn obeys_eq_spec() -> bool {
        true
    }

    open spec fn eq_spec(&self, other: &BigInt) -> bool {
        self@ == other@
    }
}

impl Clone for BigInt {
    fn clone(&self) -> (r: BigInt)
        ensures
            r@ == self@,
    {
        self.duplicate()
    }
}

/// The bytes with one more byte after them.
fn append(bytes: Vec<u8>, byte: u8) -> (r: Vec<u8>)
    requires
        bytes.len() >= 1,
    ensures
        r.len() == bytes.len() + 1,
        signed_value(r@) == signed_value(bytes@) * 256 + byte,
{
    let mut r = bytes;
    r.push(byte);
    proof {
        assert(r@.drop_last() =~= bytes@);
    }
    r
}

/// The bytes with the seven bytes of `low` after them.
fn append_low(bytes: Vec<u8>, low: u64) -> (r: Vec<u8>)
    requires
        bytes.len() >= 1,
        low < 0x100_0000_0000_0000,
    ensures
        signed_value(r@) == signed_value(bytes@) * 0x100_0000_0000_0000 + low,
{
    let ghost start = signed_value(bytes@);
    let r = bytes;
    let rest: u64 = low;
    let r = append(r, (rest / 0x1_0000_0000_0000) as u8);
    let rest: u64 = rest % 0x1_0000_0000_0000;
    assert(signed_value(r@) * 0x1_0000_0000_0000 + rest == start * 0x100_0000_0000_0000 + low);
    let r = append(r, (rest / 0x100_0000_0000) as u8);
    let rest: u64 = rest % 0x100_0000_0000;
    assert(signed_value(r@) * 0x100_0000_0000 + rest == start * 0x100_0000_0000_0000 + low);
    let r = append(r, (rest / 0x1_0000_0000) as u8);
    let rest: u64 = rest % 0x1_0000_0000;
    assert(signed_value(r@) * 0x1_0000_0000 + rest == start * 0x100_0000_0000_0000 + low);
    let r = append(r, (rest / 0x100_0000) as u8);
    let rest: u64 = rest % 0x100_0000;
    assert(signed_value(r@) * 0x100_0000 + rest == start * 0x100_0000_0000_0000 + low);
    let r = append(r, (rest / 0x1_0000) as u8);
    let rest: u64 = rest % 0x1_0000;
    assert(signed_value(r@) * 0x1_0000 + rest == start * 0x100_0000_0000_0000 + low);
    let r = append(r, (rest / 0x100) as u8);
    let rest: u64 = rest % 0x100;
    assert(signed_value(r@) * 0x100 + rest == start * 0x100_0000_0000_0000 + low);
    append(r, rest as u8)
}

impl BigInt {
    /// The integer that the given big-endian two's-complement bytes stand
    /// for.
    pub fn from_signed_bytes_be(bytes: Vec<u8>) -> (r: BigInt)
        ensures
            r@ == signed_value(bytes@),
    {
        BigInt { bytes }
    }

    /// The big-endian two's-complement bytes of this integer.
    pub fn signed_bytes(&self) -> (r: &Vec<u8>)
        ensures
            signed_value(r@) == self@,
    {
        &self.bytes
    }

    /// The integer with the value of `v`.
    pub fn from_u64(v: u64) -> (r: BigInt)
        ensures
            r@ == v,
    {
        let mut bytes: Vec<u8> = Vec::new();
        bytes.push(0);
        let bytes = append(bytes, (v / 0x100_0000_0000_0000) as u8);
        BigInt { bytes: append_low(bytes, v % 0x100_0000_0000_0000) }
    }

    /// The integer with the value of `v`.
    pub fn from_i64(v: i64) -> (r: BigInt)
        ensures
            r@ == v,
    {
        if v >= 0 {
            BigInt::from_u64(v as u64)
        } else {
            let shifted: u64 = (v + 1 + i64::MAX) as u64;
            let mut bytes: Vec<u8> = Vec::new();
            bytes.push(128 + (shifted / 0x100_0000_0000_0000) as u8);
            BigInt { bytes: append_low(bytes, shifted % 0x100_0000_0000_0000) }
        }
    }

    /// The value as a `u64`, where it is one.
    pub fn to_u64(&self) -> (r: Option<u64>)
        ensures
            r is Some <==> 0 <= self@ <= u64::MAX,
            r is Some ==> r->0 == self@,
    {
        proof {
            lemma_signed_unsigned(self.bytes@);
        }
        if self.is_negative() {
            return None;
        }
        let mut value: u64 = 0;
        let mut j: usize = 0;
        while j < self.bytes.len()
            invariant
                j <= self.bytes.len(),
                self@ == unsigned_value(self.bytes@),
                value == unsigned_value(self.bytes@.take(j as int)),
            decreases self.bytes.len() - j,
        {
            let byte: u8 = self.bytes[j];
            proof {
                let next = self.bytes@.take(j + 1);
                assert(next.drop_last() =~= self.bytes@.take(j as int));
                assert(unsigned_value(next) == unsigned_value(next.drop_last()) * 256 + byte);
            }
            if value > (u64::MAX - byte as u64) / 256 {
                proof {
                    assert(value * 256 + byte > u64::MAX);
                    lemma_unsigned_prefix(self.bytes@, j + 1);
                }
                return None;
            }
            value = value * 256 + byte as u64;
            j = j + 1;
        }
        proof {
            assert(self.bytes@.take(j as int) =~= self.bytes@);
        }
        Some(value)
    }

    /// Whether this integer is below zero.
    pub fn is_negative(&self) -> (r: bool)
        ensures
            r == (self@ < 0),
    {
        proof {
            lemma_signed_unsigned(self.bytes@);
        }
        self.bytes.len() > 0 && self.bytes[0] >= 128
    }

    /// A copy of this integer.
    pub fn duplicate(&self) -> (r: BigInt)
        ensures
            r@ == self@,
    {
        let bytes = self.bytes.clone();
        proof {
            assert(bytes@ =~= self.bytes@);
        }
        BigInt { bytes }
    }

    /// The absolute value.
    pub fn magnitude(&self) -> (r: BigInt)
        ensures
            r@ == if self@ < 0 { -self@ } else { self@ },
    {
        if self.is_negative() {
            BigInt::from_u64(0).minus(self)
        } else {
            self.duplicate()
        }
    }

    /// The representative of `self` modulo `m` in the range from `0` to
    /// `m - 1`.
    pub fn reduce(&self, m: &BigInt) -> (r: BigInt)
        requires
            m@ > 0,
        ensures
            r@ == self@ % m@,
            0 <= r@ < m@,
    {
        let r = self.remainder(m).plus(m).remainder(m);
        proof {
            lemma_reduce(self@, m@);
            vstd::arithmetic::div_mod::lemma_mod_bound(self@, m@);
        }
        r
    }
}

/// What a prefix of the bytes stands for, read without a sign, is at most
/// what all of them stand for.
pub proof fn lemma_unsigned_prefix(bytes: Seq<u8>, j: int)
    requires
        0 <= j <= bytes.len(),
    ensures
        unsigned_value(bytes.take(j)) <= unsigned_value(bytes),
    decreases bytes.len(),
{
    if j == bytes.len() {
        assert(bytes.take(j) =~= bytes);
    } else {
        lemma_unsigned_prefix(bytes.drop_last(), j);
        assert(bytes.drop_last().take(j) =~= bytes.take(j));
    }
}

/// The first byte decides the sign, and the bytes of an integer that is
/// not negative stand for it also when read without a sign.
pub proof fn lemma_signed_unsigned(bytes: Seq<u8>)
    ensures
        bytes.len() > 0 && bytes[0] >= 128 ==> signed_value(bytes) < 0,
        bytes.len() > 0 && bytes[0] < 128 ==> signed_value(bytes) == unsigned_value(bytes),
        bytes.len() == 0 ==> signed_value(bytes) == unsigned_value(bytes),
        signed_value(bytes) >= 0 ==> signed_value(bytes) == unsigned_value(bytes),
    decreases bytes.len(),
{
    if bytes.len() == 1 {
        assert(unsigned_value(bytes.drop_last()) == 0);
    } else if bytes.len() > 1 {
        lemma_signed_unsigned(bytes.drop_last());
        assert(bytes.drop_last()[0] == bytes[0]);
    }
}

/// The truncated remainder is smaller in size than the divisor.
pub proof fn lemma_trunc_rem_bound(a: int, b: int)
    requires
        b != 0,
    ensures
        b > 0 ==> -b < trunc_rem(a, b) < b,
        b < 0 ==> b < trunc_rem(a, b) < -b,
        a >= 0 ==> trunc_rem(a, b) >= 0,
        a >= 0 && b > 0 ==> trunc_rem(a, b) == a % b && trunc_div(a, b) == a / b,
{
    let x = if a >= 0 { a } else { -a };
    let y = if b > 0 { b } else { -b };
    vstd::arithmetic::div_mod::lemma_fundamental_div_mod(x, y);
    vstd::arithmetic::div_mod::lemma_mod_bound(x, y);
    let q = x / y;
    assert(b * (-q) == -(b * q)) by (nonlinear_arith);
    assert((-b) * q == -(b * q)) by (nonlinear_arith);
}

/// Adding the modulus to the truncated remainder and taking the truncated
/// remainder again gives the non-negative remainder.
pub proof fn lemma_reduce(a: int, m: int)
    requires
        m > 0,
    ensures
        trunc_rem(trunc_rem(a, m) + m, m) == a % m,
{
    let t = trunc_rem(a, m);
    if a >= 0 {
        assert(t == a - m * (a / m));
        vstd::arithmetic::div_mod::lemma_fundamental_div_mod(a, m);
        assert(t == a % m);
        vstd::arithmetic::div_mod::lemma_mod_bound(a, m);
        let u = t + m;
        assert(m <= u < 2 * m);
        assert(trunc_rem(u, m) == u - m * (u / m));
        vstd::arithmetic::div_mod::lemma_fundamental_div_mod(u, m);
        vstd::arithmetic::div_mod::lemma_mod_add_multiples_vanish(t, m);
        vstd::arithmetic::div_mod::lemma_small_mod(t as nat, m as nat);
    } else {
        let n = -a;
        assert(m * (-(n / m)) == -(m * (n / m))) by (nonlinear_arith);
        assert(t == a + m * (n / m));
        vstd::arithmetic::div_mod::lemma_fundamental_div_mod(n, m);
        vstd::arithmetic::div_mod::lemma_mod_bound(n, m);
        assert(t == -(n % m));
        let u = t + m;
        assert(0 < u <= m);
        assert(trunc_rem(u, m) == u - m * (u / m));
        vstd::arithmetic::div_mod::lemma_fundamental_div_mod(u, m);
        assert(trunc_rem(u, m) == u % m);
        // u = a + m * (n / m) + m, so u and a differ by a multiple of m
        vstd::arithmetic::div_mod::lemma_mod_multiples_vanish(n / m + 1, a, m);
        assert(u == m * (n / m + 1) + a) by (nonlinear_arith)
            requires
                u == a + m * (n / m) + m,
        ;
    }
}

} // verus!
