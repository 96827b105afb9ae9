//! The viewer's camera modes.

use vstd::prelude::*;

verus! {

/// How the camera moves.
#[derive(Debug, Clone, Copy, PartialEq, Eq, Structural)]
pub enum CameraMode {
    /// Orbit/pan/zoom around a point on the map.
    MapView,
    /// Free flight: position plus yaw/pitch, speed scales with altitude.
    Fly,
}

impl CameraMode {
    /// The mode's name as the viewer reports it: "map" or "fly".
    pub fn label(self) -> (r: &'static str)
        ensures
            r@ == (match self {
                CameraMode::MapView => "map"@,
                CameraMode::Fly => "fly"@,
            }),
    {
        match self {
            CameraMode::MapView => "map",
            CameraMode::Fly => "fly",
        }
    }
}

} // verus!
