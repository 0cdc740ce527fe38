//! Key generation: the seed of the configuration is lifted to a base point
//! modulo `p^k`, a private key is drawn, and the public key is the base
//! point multiplied by it.

use vstd::prelude::*;
use vstd::arithmetic::power::*;
use crate::bigint::BigInt;
use crate::ecc::{elliptic_curve_multiply, multiply_point};
use crate::error::Error;
use crate::closure::{lemma_multiple_on_curve, point_on_curve};
use crate::hensel::{hensel_lift, lemma_lift_consistent, lift, on_curve};
use crate::point::{Point, SpecPoint};
use crate::Config;

verus! {

/// What key generation hands back: the base point, the private key, the
/// public key, and the parameters it was called with, in the order
/// `(p, a, b, x0, y0, k)`.
pub type KeyMaterial = (Point, BigInt, Point, (u64, i64, i64, i64, i64, usize));

/// A key pair or the reason why there is none.
pub type HokgResult = Result<KeyMaterial, Error>;

/// Key material as the contracts see it.
pub type SpecKeyMaterial = (SpecPoint, int, SpecPoint, (u64, i64, i64, i64, i64, usize));

/// What a result of key generation stands for.
pub open spec fn outcome_view(r: HokgResult) -> Result<SpecKeyMaterial, Error> {
    match r {
        Ok((base, key, public, echo)) => Ok((base@, key@, public@, echo)),
        Err(e) => Err(e),
    }
}

/// The modulus `p^k` of a configuration.
pub open spec fn modulus_of(config: Config) -> int {
    pow(config.p as int, config.k as nat)
}

/// The private key that a drawn number gives for the modulus `m`: a
/// number from `1` to `m - 1`.
pub open spec fn key_of_draw(draw: u64, m: int) -> int {
    draw as int % (m - 1) + 1
}

/// The base point of a configuration: its seed lifted to the modulus
/// `p^k`, which has to fit a `u64`.
pub open spec fn base_point_of(config: Config) -> Result<SpecPoint, Error> {
    if modulus_of(config) > u64::MAX {
        Err(Error::ModulusTooLarge)
    } else {
        match lift(
            config.p as int,
            config.a as int,
            config.b as int,
            config.x0 as int,
            config.y0 as int,
            config.k as nat,
        ) {
            Err(e) => Err(e),
            Ok((x, y)) => Ok(SpecPoint::Affine(x, y)),
        }
    }
}

/// The point lies on the curve of the configuration modulo `p^k`, with
/// coordinates in the range from `0` to `p^k - 1`.
pub open spec fn is_base_point(point: SpecPoint, config: Config) -> bool {
    match point {
        SpecPoint::Infinity => false,
        SpecPoint::Affine(x, y) => {
            &&& on_curve(x, y, config.a as int, config.b as int, modulus_of(config))
            &&& 0 <= x < modulus_of(config)
            &&& 0 <= y < modulus_of(config)
        },
    }
}

/// The key material that a configuration and a drawn number give.
pub open spec fn key_material_of(config: Config, draw: u64) -> Result<SpecKeyMaterial, Error> {
    match base_point_of(config) {
        Err(e) => Err(e),
        Ok(base) => {
            let m = modulus_of(config);
            let key = key_of_draw(draw, m);
            match multiply_point(key as nat, base, config.a as int, m) {
                Err(e) => Err(e),
                Ok(public) => Ok(
                    (
                        base,
                        key,
                        public,
                        (config.p, config.a, config.b, config.x0, config.y0, config.k),
                    ),
                ),
            }
        },
    }
}

/// Two runs of key generation on the same configuration with the same
/// drawn number agree: on failure in the failure, on success in the base
/// point, the private key, the public key and the parameters handed back.
pub proof fn lemma_same_draw_same_keys(
    config: Config,
    draw: u64,
    first: HokgResult,
    second: HokgResult,
)
    requires
        outcome_view(first) == key_material_of(config, draw),
        outcome_view(second) == key_material_of(config, draw),
    ensures
        outcome_view(first) == outcome_view(second),
        first is Ok <==> second is Ok,
        first is Ok ==> {
            &&& first->Ok_0.0@ == second->Ok_0.0@
            &&& first->Ok_0.1@ == second->Ok_0.1@
            &&& first->Ok_0.2@ == second->Ok_0.2@
            &&& first->Ok_0.3 == second->Ok_0.3
        },
{
}

/// `rand::rngs::OsRng`, asked for one `u64` through
/// `rand::TryRngCore::try_next_u64`. Nothing is known of the number; where
/// the operating system fails there is none.
#[verifier::external_body]
fn os_random_u64() -> (r: Option<u64>) {
    rand::TryRngCore::try_next_u64(&mut rand::rngs::OsRng).ok()
}

/// A power of a base of at least two is at least the same power of two.
proof fn lemma_pow_at_least_pow2(p: int, k: nat)
    requires
        p >= 2,
    ensures
        pow(p, k) >= pow(2, k) >= 1,
    decreases k,
{
    reveal(pow);
    if k > 0 {
        lemma_pow_at_least_pow2(p, (k - 1) as nat);
        let q = pow(p, (k - 1) as nat);
        let t = pow(2, (k - 1) as nat);
        assert(p * q >= 2 * t) by (nonlinear_arith)
            requires
                p >= 2,
                q >= t,
                t >= 1,
        ;
    }
}

/// With a base of at least two, an exponent above 64 takes the power out
/// of the range of `u64`.
proof fn lemma_large_exponent(p: int, k: nat)
    requires
        p >= 2,
        k > 64,
    ensures
        pow(p, k) > u64::MAX,
{
    lemma_pow_at_least_pow2(p, k);
    lemma_pow_increases(2, 64, k);
    vstd::arithmetic::power2::lemma2_to64();
    vstd::arithmetic::power2::lemma_pow2(64);
}

/// The modulus `p^k` of the configuration, as a big integer and as a
/// `u64`, or `ModulusTooLarge` where it does not fit a `u64`.
pub fn modulus(config: &Config) -> (r: Result<(BigInt, u64), Error>)
    requires
        config.p >= 2,
    ensures
        r is Ok <==> modulus_of(*config) <= u64::MAX,
        r matches Ok((big, small)) ==> big@ == modulus_of(*config) && small == modulus_of(*config),
        r matches Err(e) ==> e == Error::ModulusTooLarge,
{
    if config.k > 64 {
        proof {
            lemma_large_exponent(config.p as int, config.k as nat);
        }
        return Err(Error::ModulusTooLarge);
    }
    let big = BigInt::from_u64(config.p).power(config.k as u32);
    proof {
        lemma_pow_positive(config.p as int, config.k as nat);
    }
    match big.to_u64() {
        None => Err(Error::ModulusTooLarge),
        Some(small) => Ok((big, small)),
    }
}

/// The private key for a drawn number: `draw % (modulus - 1) + 1`, a
/// number from `1` to `modulus - 1`.
pub fn private_key_from_draw(draw: u64, modulus: u64) -> (key: u64)
    requires
        modulus >= 2,
    ensures
        key == key_of_draw(draw, modulus as int),
        1 <= key <= modulus - 1,
{
    draw % (modulus - 1) + 1
}

/// The base point of the configuration, with the modulus `p^k` as a big
/// integer and as a `u64`: the seed lifted to that modulus.
pub fn base_point(config: &Config) -> (r: Result<(Point, BigInt, u64), Error>)
    requires
        config.p >= 2,
        config.k >= 1,
    ensures
        r matches Ok((base, big, small)) ==> {
            &&& base_point_of(*config) == Ok::<SpecPoint, Error>(base@)
            &&& is_base_point(base@, *config)
            &&& big@ == modulus_of(*config)
            &&& small == modulus_of(*config)
            &&& small >= 2
        },
        r matches Err(e) ==> base_point_of(*config) == Err::<SpecPoint, Error>(e),
{
    let (big_modulus, small_modulus) = match modulus(config) {
        Err(e) => {
            return Err(e);
        },
        Ok(pair) => pair,
    };
    proof {
        if config.k > 64 {
            lemma_large_exponent(config.p as int, config.k as nat);
        }
        lemma_pow_at_least_pow2(config.p as int, config.k as nat);
        lemma_pow_increases(2, 1, config.k as nat);
        lemma_pow1(2);
    }
    let p = BigInt::from_u64(config.p);
    let a = BigInt::from_i64(config.a);
    let b = BigInt::from_i64(config.b);
    let x0 = BigInt::from_i64(config.x0);
    let y0 = BigInt::from_i64(config.y0);
    match hensel_lift(&p, &a, &b, &x0, &y0, config.k) {
        Err(e) => Err(e),
        Ok((x, y)) => Ok((Point::Coordinates(x, y), big_modulus, small_modulus)),
    }
}

/// The key material for a base point and a drawn number: the private key
/// is taken from `draw`, and the public key is the base point multiplied
/// by it modulo `modulus`.
pub fn key_pair(config: Config, base: Point, modulus: u64, draw: u64) -> (r: HokgResult)
    requires
        modulus >= 2,
        modulus == modulus_of(config),
        base_point_of(config) == Ok::<SpecPoint, Error>(base@),
    ensures
        outcome_view(r) == key_material_of(config, draw),
        r matches Ok((point, key, public, echo)) ==> {
            &&& point@ == base@
            &&& 1 <= key@ <= modulus - 1
            &&& echo == (config.p, config.a, config.b, config.x0, config.y0, config.k)
            &&& point_on_curve(public@, config.a as int, config.b as int, modulus_of(config))
        },
{
    let a = BigInt::from_i64(config.a);
    let b = BigInt::from_i64(config.b);
    let key = BigInt::from_u64(private_key_from_draw(draw, modulus));
    match elliptic_curve_multiply(&key, &base, &a, &b, &BigInt::from_u64(modulus)) {
        Err(e) => Err(e),
        Ok(public) => {
            proof {
                // the base point lies on the curve, and so do its multiples
                assert(config.k >= 1) by {
                    if config.k == 0 {
                        lemma_pow0(config.p as int);
                    }
                }
                lemma_lift_consistent(
                    config.p as int,
                    config.a as int,
                    config.b as int,
                    config.x0 as int,
                    config.y0 as int,
                    config.k as nat,
                );
                lemma_multiple_on_curve(key@ as nat, base@, a@, b@, modulus as int);
            }
            Ok((base, key, public, (config.p, config.a, config.b, config.x0, config.y0, config.k)))
        },
    }
}

/// Key generation with the drawn number handed in: the seed is lifted to
/// the base point, the private key is taken from `draw`, and the public
/// key is the base point multiplied by the private key modulo `p^k`. Every
/// failure of a stage is returned as it is.
pub fn hokg_with_draw(config: Config, draw: u64) -> (r: HokgResult)
    requires
        config.p >= 2,
        config.k >= 1,
    ensures
        outcome_view(r) == key_material_of(config, draw),
        r matches Ok((base, key, public, echo)) ==> {
            &&& is_base_point(base@, config)
            &&& 1 <= key@ <= modulus_of(config) - 1
            &&& echo == (config.p, config.a, config.b, config.x0, config.y0, config.k)
            &&& point_on_curve(public@, config.a as int, config.b as int, modulus_of(config))
        },
{
    match base_point(&config) {
        Err(e) => Err(e),
        Ok((base, _, modulus)) => key_pair(config, base, modulus, draw),
    }
}

/// Key generation with a private key drawn from the operating system's
/// source of randomness.
///
/// A configuration without a base point fails as `hokg_with_draw` does,
/// before any number is drawn. With a base point, the result is what
/// `hokg_with_draw` gives for some drawn number, or
/// `RandomnessUnavailable` where the operating system handed out none.
pub fn hokg(config: Config) -> (r: HokgResult)
    requires
        config.p >= 2,
        config.k >= 1,
    ensures
        base_point_of(config) matches Err(e) ==> outcome_view(r) == Err::<SpecKeyMaterial, Error>(
            e,
        ),
        base_point_of(config) is Ok ==> {
            ||| outcome_view(r) == Err::<SpecKeyMaterial, Error>(Error::RandomnessUnavailable)
            ||| exists|draw: u64| outcome_view(r) == key_material_of(config, draw)
        },
        r matches Ok((base, key, public, echo)) ==> {
            &&& is_base_point(base@, config)
            &&& 1 <= key@ <= modulus_of(config) - 1
            &&& echo == (config.p, config.a, config.b, config.x0, config.y0, config.k)
            &&& point_on_curve(public@, config.a as int, config.b as int, modulus_of(config))
        },
{
    match base_point(&config) {
        Err(e) => Err(e),
        Ok((base, _, modulus)) => {
            match os_random_u64() {
                None => Err(Error::RandomnessUnavailable),
                Some(draw) => key_pair(config, base, modulus, draw),
            }
        },
    }
}

} // verus!
