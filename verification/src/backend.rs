//! Backend selection types shared with the simulation driver.

use vstd::prelude::*;

verus! {

/// Simulation backend.
#[derive(Debug, Clone, Copy, PartialEq, Eq, Structural)]
pub enum BackendType {
    /// Native ray tracing.
    Native,
    /// Unreal Engine 5.
    UnrealEngine5,
    /// NVIDIA Isaac Lab.
    IsaacLab,
    /// MuJoCo physics engine.
    MuJoCo,
    /// NVIDIA Warp.
    Warp,
}

impl BackendType {
    /// Stable identifier of the backend.
    pub fn as_str(&self) -> (r: &str)
        ensures
            *self == BackendType::Native ==> r@ == "native"@,
            *self == BackendType::UnrealEngine5 ==> r@ == "unreal_engine_5"@,
            *self == BackendType::IsaacLab ==> r@ == "isaac_lab"@,
            *self == BackendType::MuJoCo ==> r@ == "mujoco"@,
            *self == BackendType::Warp ==> r@ == "warp"@,
    {
        match self {
            BackendType::Native => "native",
            BackendType::UnrealEngine5 => "unreal_engine_5",
            BackendType::IsaacLab => "isaac_lab",
            BackendType::MuJoCo => "mujoco",
            BackendType::Warp => "warp",
        }
    }
}

/// Handle to a loaded scene.
#[derive(Debug, Clone)]
pub struct SceneHandle {
    pub id: String,
    pub backend_type: BackendType,
}

impl SceneHandle {
    /// A handle for the given scene on the given backend.
    pub fn new(id: String, backend_type: BackendType) -> (r: Self)
        ensures
            r.id@ == id@,
            r.backend_type == backend_type,
    {
        SceneHandle { id, backend_type }
    }
}

} // verus!
