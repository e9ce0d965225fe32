//! A fuzzy-logic inference engine.
//!
//! Input variables are mapped to membership degrees through named fuzzy sets,
//! rules combine those degrees through pluggable logic operators, and the
//! aggregated result set is reduced to a single crisp value by a
//! defuzzification strategy.
//!
//! Degrees are fixed-point numbers: `UNIT` stands for a full membership of
//! one, `0` for none. Domain sample points are fixed-point integers bounded
//! by `KEY_LIMIT`.

use vstd::prelude::*;

pub mod errors;
pub mod functions;
pub mod inference;
pub mod ops;
pub mod rules;
pub mod set;

verus! {

/// Fixed-point scale of a membership degree: `UNIT` means a degree of one.
pub const UNIT: u64 = 1_000_000;

/// Largest magnitude of a domain sample point.
pub const KEY_LIMIT: i64 = 1_000_000_000_000;

/// A domain sample point the engine accepts: bounded, so that products of
/// keys and degrees stay representable.
pub open spec fn valid_key(k: i64) -> bool {
    -KEY_LIMIT <= k <= KEY_LIMIT
}

/// A membership degree is a fixed-point number in `[0, UNIT]`.
pub open spec fn valid_degree(d: u64) -> bool {
    d <= UNIT
}

} // verus!
