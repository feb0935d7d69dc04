//! Per-agent configuration.

use vstd::prelude::*;

verus! {

/// Configuration of one agent. Lengths are in millimetres and speeds in
/// millimetres per second.
#[derive(Clone, Copy, Debug, PartialEq, Eq, Structural)]
pub struct AstroConf {
    pub id: u32,
    pub uav_radius: u32,
    /// How far a message carries.
    pub msg_range: u32,
    /// How far peers are kept in contact; shorter than `msg_range`.
    pub contact_range: u32,
    pub max_v: u32,
}

impl AstroConf {
    /// A configuration is valid when its id is not the ground station's and
    /// its radius is positive.
    pub open spec fn valid(&self) -> bool {
        self.id != 0 && self.uav_radius > 0
    }

    pub fn validate(&self) -> (r: Result<(), ()>)
        ensures
            r is Ok <==> self.valid(),
    {
        if self.id == 0 || self.uav_radius == 0 {
            Err(())
        } else {
            Ok(())
        }
    }
}

} // verus!
