//! Key generation on an elliptic curve whose base point is obtained by
//! Hensel-lifting a seed point from a small prime `p` to the modulus `p^k`.

use vstd::prelude::*;

pub mod bigint;
pub mod closure;
pub mod divisibility;
pub mod ecc;
pub mod error;
pub mod hensel;
pub mod hokg;
pub mod point;
pub mod utils;

pub use bigint::BigInt;
pub use ecc::elliptic_curve_multiply;
pub use error::Error;
pub use hensel::hensel_lift;
pub use hokg::{hokg, hokg_with_draw, HokgResult};
pub use point::Point;
pub use utils::{gcd, mod_inverse, mod_sqrt};

verus! {

/// The parameters of one key generation: the curve `y^2 = x^3 + a*x + b`,
/// a seed point `(x0, y0)` on it modulo the prime `p`, and the exponent `k`
/// of the modulus `p^k` to which the seed is lifted.
#[derive(Clone, Copy, Debug, PartialEq, Eq, Structural)]
pub struct Config {
    /// The small prime.
    pub p: u64,
    /// The coefficient `a` of the curve.
    pub a: i64,
    /// The coefficient `b` of the curve.
    pub b: i64,
    /// The abscissa of the seed.
    pub x0: i64,
    /// The ordinate of the seed.
    pub y0: i64,
    /// The exponent of the lifting, at least one.
    pub k: usize,
}

} // verus!
