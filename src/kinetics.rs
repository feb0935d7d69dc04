//! The velocity this agent flies at, within its top speed.

use vstd::prelude::*;

use crate::vector::{norm_limited_spec, Velocity};

verus! {

/// The commanded velocity and the top speed (millimetres per second).
pub struct Kinetics {
    pub v: Velocity,
    pub max_v: u32,
}

impl Kinetics {
    pub fn new(max_v: u32, v_init: &Velocity) -> (r: Kinetics)
        ensures
            r.v == *v_init,
            r.max_v == max_v,
    {
        Kinetics { v: *v_init, max_v }
    }

    pub fn read_v(&self) -> (r: Velocity)
        ensures
            r == self.v,
    {
        self.v
    }

    /// Commands `v`, slowed down to the top speed if faster.
    pub fn set_v(&mut self, v: &Velocity)
        ensures
            final(self).v == norm_limited_spec(*v, old(self).max_v),
            final(self).max_v == old(self).max_v,
    {
        self.v = v.get_norm_limited(self.max_v);
    }
}

} // verus!
