//! Antenna polarization classification.

use vstd::prelude::*;

verus! {

/// Antenna polarization type.
#[derive(Debug, Clone, Copy, PartialEq, Eq, Structural)]
pub enum PolarizationType {
    /// Linear vertical polarization.
    Vertical,
    /// Linear horizontal polarization.
    Horizontal,
    /// Right-hand circular polarization.
    CircularRight,
    /// Left-hand circular polarization.
    CircularLeft,
    /// Elliptical polarization.
    Elliptical,
}

} // verus!
