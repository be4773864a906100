//! Robot identity types of the visualization protocol.

use vstd::prelude::*;

verus! {

/// Robot type, for visual differentiation.
#[derive(Debug, Clone, Copy, PartialEq, Eq, Structural)]
pub enum RobotType {
    Scout,
    Transport,
    Combat,
    Relay,
    Coordinator,
}

impl RobotType {
    /// Display colour of this robot type, as RGBA bytes.
    pub fn color(&self) -> (r: [u8; 4])
        ensures
            r@ == match *self {
                RobotType::Scout => seq![255u8, 64u8, 64u8, 255u8],
                RobotType::Transport => seq![64u8, 128u8, 255u8, 255u8],
                RobotType::Combat => seq![64u8, 255u8, 64u8, 255u8],
                RobotType::Relay => seq![255u8, 255u8, 64u8, 255u8],
                RobotType::Coordinator => seq![192u8, 64u8, 255u8, 255u8],
            },
    {
        let r: [u8; 4] = match self {
            RobotType::Scout => [255, 64, 64, 255],
            RobotType::Transport => [64, 128, 255, 255],
            RobotType::Combat => [64, 255, 64, 255],
            RobotType::Relay => [255, 255, 64, 255],
            RobotType::Coordinator => [192, 64, 255, 255],
        };
        proof {
            assert(r@ =~= match *self {
                RobotType::Scout => seq![255u8, 64u8, 64u8, 255u8],
                RobotType::Transport => seq![64u8, 128u8, 255u8, 255u8],
                RobotType::Combat => seq![64u8, 255u8, 64u8, 255u8],
                RobotType::Relay => seq![255u8, 255u8, 64u8, 255u8],
                RobotType::Coordinator => seq![192u8, 64u8, 255u8, 255u8],
            });
        }
        r
    }

    /// Blueprint asset path for this robot type.
    pub fn blueprint_path(&self) -> (r: &'static str)
        ensures
            *self == RobotType::Scout ==> r@ == "/Game/Robots/BP_ScoutDrone"@,
            *self == RobotType::Transport ==> r@ == "/Game/Robots/BP_TransportUGV"@,
            *self == RobotType::Combat ==> r@ == "/Game/Robots/BP_CombatDrone"@,
            *self == RobotType::Relay ==> r@ == "/Game/Robots/BP_RelayDrone"@,
            *self == RobotType::Coordinator ==> r@ == "/Game/Robots/BP_CoordinatorDrone"@,
    {
        match self {
            RobotType::Scout => "/Game/Robots/BP_ScoutDrone",
            RobotType::Transport => "/Game/Robots/BP_TransportUGV",
            RobotType::Combat => "/Game/Robots/BP_CombatDrone",
            RobotType::Relay => "/Game/Robots/BP_RelayDrone",
            RobotType::Coordinator => "/Game/Robots/BP_CoordinatorDrone",
        }
    }
}

} // verus!
