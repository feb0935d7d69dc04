//! Position estimate: the latest fix, and dead reckoning since then.

use vstd::prelude::*;

use crate::contacts::elapsed;
use crate::vector::{advance, advance_spec, PosVec, Velocity};

verus! {

/// The position estimate of this agent.
pub struct Gps {
    /// The latest fix.
    pub p: PosVec,
    /// The dead-reckoned position and its time (milliseconds).
    pub p_predict: PosVec,
    pub p_predict_t: u64,
}

impl Gps {
    pub fn new(p_init: &PosVec, now: u64) -> (r: Gps)
        ensures
            r.p == *p_init,
            r.p_predict == *p_init,
            r.p_predict_t == now,
    {
        Gps { p: *p_init, p_predict: *p_init, p_predict_t: now }
    }

    /// The latest fix.
    pub fn read_pos(&self) -> (r: PosVec)
        ensures
            r == self.p,
    {
        self.p
    }

    /// Moves the estimate on at velocity `v` up to `now` and returns it.
    pub fn predict_pos(&mut self, v: &Velocity, now: u64) -> (r: PosVec)
        ensures
            r == advance_spec(old(self).p_predict, *v, elapsed(old(self).p_predict_t, now) as int),
            final(self).p_predict == r,
            final(self).p_predict_t == now,
            final(self).p == old(self).p,
    {
        let dt: u64 = if now >= self.p_predict_t { now - self.p_predict_t } else { 0 };
        self.p_predict = advance(&self.p_predict, v, dt);
        self.p_predict_t = now;
        self.p_predict
    }

    /// Takes the latest of the fixes received this tick, if any; says
    /// whether there was one.
    pub fn update(&mut self, fixes: &Vec<PosVec>, now: u64) -> (r: bool)
        ensures
            r == (fixes@.len() > 0),
            r ==> final(self).p == fixes@.last() && final(self).p_predict == fixes@.last()
                && final(self).p_predict_t == now,
            !r ==> *final(self) == *old(self),
    {
        if fixes.len() == 0 {
            false
        } else {
            let p = fixes[fixes.len() - 1];
            self.p = p;
            self.p_predict = p;
            self.p_predict_t = now;
            true
        }
    }
}

} // verus!
