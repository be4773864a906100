//! Vehicle and sensor classification shared with the driver.

use vstd::prelude::*;

verus! {

/// Vehicle type.
#[derive(Debug, Clone, Copy, PartialEq, Eq, Structural)]
pub enum VehicleType {
    /// Multirotor drone.
    Multirotor,
    /// Fixed-wing aircraft.
    FixedWing,
    /// Ground vehicle.
    Car,
    /// Hybrid VTOL.
    VTOL,
    /// Custom vehicle type.
    Custom,
}

/// Sensor type.
#[derive(Debug, Clone, Copy, PartialEq, Eq, Structural)]
pub enum SensorType {
    Camera,
    DepthCamera,
    SegmentationCamera,
    Lidar,
    Imu,
    Gps,
    Magnetometer,
    Barometer,
    DistanceSensor,
    RfAntenna,
}

} // verus!
