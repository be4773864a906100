//! Units and scales shared by the whole crate.
//!
//! Physical quantities are carried as scaled integers:
//! - decibel quantities (dB, dBm, dBi) in milli-dB (`_mdb`, `_mdbm`);
//! - dimensionless ratios (loss rates, scores, duty cycles) in parts per
//!   million (`_ppm`, so `1_000_000` stands for `1.0`);
//! - very small ratios (bit and packet error rates) in parts per trillion
//!   (`_pt`, so `1_000_000_000_000` stands for `1.0`);
//! - distances in millimetres (`_mm`), times in milliseconds (`_ms`);
//! - linear power in attowatts (`_aw`, `10^-18` W).

use vstd::prelude::*;

verus! {

/// Speed of light in vacuum (m/s).
pub const SPEED_OF_LIGHT_M_PER_S: u64 = 299_792_458;

/// Clamp `x` into `[lo, hi]`.
pub open spec fn clamp_spec(x: int, lo: int, hi: int) -> int {
    if x < lo {
        lo
    } else if x > hi {
        hi
    } else {
        x
    }
}

/// Clamp `x` into `[lo, hi]`.
pub fn clamp_i64(x: i64, lo: i64, hi: i64) -> (r: i64)
    requires
        lo <= hi,
    ensures
        r == clamp_spec(x as int, lo as int, hi as int),
        lo <= r <= hi,
{
    if x < lo {
        lo
    } else if x > hi {
        hi
    } else {
        x
    }
}

} // verus!
