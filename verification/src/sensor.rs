//! Sensor data classification shared with the driver.

use vstd::prelude::*;

verus! {

/// GPS fix type.
#[derive(Debug, Clone, Copy, PartialEq, Eq, Structural)]
pub enum GpsFixType {
    NoFix,
    Fix2D,
    Fix3D,
    DGps,
    RtkFloat,
    RtkFixed,
}

/// Camera image type.
#[derive(Debug, Clone, Copy, PartialEq, Eq, Structural)]
pub enum ImageType {
    /// RGB colour image.
    Rgb,
    /// RGBA with alpha.
    Rgba,
    /// Grayscale.
    Gray,
    /// Depth map.
    Depth,
    /// Segmentation mask.
    Segmentation,
}

} // verus!
