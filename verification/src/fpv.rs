//! First-person-view flight mode selection.

use vstd::prelude::*;

verus! {

/// FPV flight mode, selectable in flight.
#[derive(Debug, Clone, Copy, PartialEq, Eq, Structural)]
pub enum FpvFlightMode {
    /// Direct angular rate control, no self-levelling.
    Acro,
    /// Self-levelling: stick input maps to a target angle.
    Angle,
    /// Hybrid: angle near centre, acro at the extremes.
    Horizon,
}

impl Default for FpvFlightMode {
    /// The default mode for racing and freestyle.
    fn default() -> (r: Self)
        ensures
            r == FpvFlightMode::Acro,
    {
        FpvFlightMode::Acro
    }
}

} // verus!
