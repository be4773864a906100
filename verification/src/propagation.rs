//! RF propagation model selection.

use vstd::prelude::*;

verus! {

/// RF propagation model.
#[derive(Debug, Clone, Copy, PartialEq, Eq, Structural)]
pub enum PropagationModel {
    /// Free-space path loss (Friis equation).
    Friis,
    /// Two-ray ground reflection.
    TwoRay,
    /// Log-distance path loss.
    LogDistance,
    /// Irregular Terrain Model (Longley-Rice).
    ITM,
    /// Physics-based ray tracing.
    RayTracing,
    /// Gaussian beam propagation.
    GaussianBeam,
    /// COST 231 urban model.
    COST231,
}

impl PropagationModel {
    /// Stable identifier of the model.
    pub fn as_str(&self) -> (r: &str)
        ensures
            *self == PropagationModel::Friis ==> r@ == "friis"@,
            *self == PropagationModel::TwoRay ==> r@ == "two_ray"@,
            *self == PropagationModel::LogDistance ==> r@ == "log_distance"@,
            *self == PropagationModel::ITM ==> r@ == "itm"@,
            *self == PropagationModel::RayTracing ==> r@ == "ray_tracing"@,
            *self == PropagationModel::GaussianBeam ==> r@ == "gaussian_beam"@,
            *self == PropagationModel::COST231 ==> r@ == "cost231"@,
    {
        match self {
            PropagationModel::Friis => "friis",
            PropagationModel::TwoRay => "two_ray",
            PropagationModel::LogDistance => "log_distance",
            PropagationModel::ITM => "itm",
            PropagationModel::RayTracing => "ray_tracing",
            PropagationModel::GaussianBeam => "gaussian_beam",
            PropagationModel::COST231 => "cost231",
        }
    }
}

} // verus!
