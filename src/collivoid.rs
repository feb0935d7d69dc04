//! The collision-avoidance filter applied to the proposed velocity.

use vstd::prelude::*;

use crate::astroconf::AstroConf;
use crate::contacts::{elapsed, Contact};
use crate::vector::{
    advance_spec, clamp_i32, dist_sq, dist_sq_spec, isqrt, isqrt_spec, lemma_isqrt_spec, lemma_isqrt_unique,
    trunc_div, trunc_div_i128, v_norm_sq_spec, PosVec, Velocity,
};

verus! {

/// Time scale of the alert radius, in milliseconds.
pub const DEFAULT_TIME_SCALE: u64 = 2000;

/// The alert radius is at least this many UAV radii.
pub const DEFAULT_MINIMAL_ALERT_DISTANCE_RATIO: u64 = 10;

/// Beyond this many dangers the velocity is capped.
pub const DEFAULT_MODEST_NUM_DANGERS: usize = 2;

/// Time scale of the soft evasion, in milliseconds.
pub const DEFAULT_EVASION_TIME_SCALE: u64 = 2000;

/// Within this many UAV radii, motion toward a danger is stripped.
pub const DEFAULT_EVASION_DIST_RATIO: u64 = 5;

/// Sum of the velocities of the first `n` dangers' contacts.
pub open spec fn danger_v_sum(nb: Seq<Contact>, ds: Seq<Danger>, n: int) -> (int, int, int)
    decreases n,
{
    if n <= 0 {
        (0, 0, 0)
    } else {
        let prev = danger_v_sum(nb, ds, n - 1);
        let v = nb[ds[n - 1].idx as int].desc.v;
        (prev.0 + v.vx, prev.1 + v.vy, prev.2 + v.vz)
    }
}

/// Soft evasion from a danger at offset `(dx, dy, dz)` of velocity `c`
/// moving toward it: the part of `c` along the offset limited to the speed
/// that covers the offset in one evasion time scale (each step rounded
/// toward zero); `None` when `c` does not move toward it or the result is
/// out of range.
pub open spec fn soft_evasion_spec(c: Velocity, dx: int, dy: int, dz: int) -> Option<(int, int, int)> {
    let k = dot3(c, dx, dy, dz);
    let dd = dx * dx + dy * dy + dz * dz;
    if k <= 0 || dd == 0 {
        None
    } else {
        let p = (trunc_div(dx * k, dd), trunc_div(dy * k, dd), trunc_div(dz * k, dd));
        let t = DEFAULT_EVASION_TIME_SCALE as int;
        let l = if k * t > dd * 1000 {
            (trunc_div(dx * 1000, t), trunc_div(dy * 1000, t), trunc_div(dz * 1000, t))
        } else {
            p
        };
        let e = (c.vx - p.0 + l.0, c.vy - p.1 + l.1, c.vz - p.2 + l.2);
        if -0x10_0000_0000 <= e.0 <= 0x10_0000_0000 && -0x10_0000_0000 <= e.1 <= 0x10_0000_0000
            && -0x10_0000_0000 <= e.2 <= 0x10_0000_0000 {
            Some(e)
        } else {
            None
        }
    }
}

/// Whether each coordinate of `t` fits an `i32`.
pub open spec fn fits_i32(t: (int, int, int)) -> bool {
    i32::MIN <= t.0 <= i32::MAX && i32::MIN <= t.1 <= i32::MAX && i32::MIN <= t.2 <= i32::MAX
}

/// `a / b` rounded away from zero.
pub open spec fn div_away(a: int, b: int) -> int
    recommends
        b > 0,
{
    if a >= 0 {
        (a + b - 1) / b
    } else {
        -((-a + b - 1) / b)
    }
}

/// Dot product of a velocity and the offset `(dx, dy, dz)`.
pub open spec fn dot3(v: Velocity, dx: int, dy: int, dz: int) -> int {
    v.vx * dx + v.vy * dy + v.vz * dz
}

/// Velocity with the part along `(dx, dy, dz)` removed, that part rounded
/// away from zero so that no motion along the offset is left.
pub open spec fn perp_away(v: Velocity, dx: int, dy: int, dz: int) -> (int, int, int) {
    let k = dot3(v, dx, dy, dz);
    let dd = dx * dx + dy * dy + dz * dz;
    (v.vx - div_away(dx * k, dd), v.vy - div_away(dy * k, dd), v.vz - div_away(dz * k, dd))
}

proof fn lemma_div_away(a: int, b: int)
    requires
        b > 0,
    ensures
        a >= 0 ==> div_away(a, b) * b >= a && div_away(a, b) >= 0,
        a < 0 ==> div_away(a, b) * b <= a && div_away(a, b) <= 0,
{
    if a >= 0 {
        let q = (a + b - 1) / b;
        vstd::arithmetic::div_mod::lemma_fundamental_div_mod(a + b - 1, b);
        assert(q * b >= a) by (nonlinear_arith)
            requires
                a + b - 1 == b * q + (a + b - 1) % b,
                0 <= (a + b - 1) % b < b,
        ;
        vstd::arithmetic::div_mod::lemma_div_pos_is_pos(a + b - 1, b);
    } else {
        let q = (-a + b - 1) / b;
        vstd::arithmetic::div_mod::lemma_fundamental_div_mod(-a + b - 1, b);
        assert(q * b >= -a) by (nonlinear_arith)
            requires
                -a + b - 1 == b * q + (-a + b - 1) % b,
                0 <= (-a + b - 1) % b < b,
        ;
        vstd::arithmetic::div_mod::lemma_div_pos_is_pos(-a + b - 1, b);
        assert((-q) * b == -(q * b)) by (nonlinear_arith);
    }
}

proof fn lemma_away_term(di: int, k: int, dd: int)
    requires
        dd > 0,
        k > 0,
    ensures
        di * div_away(di * k, dd) * dd >= di * di * k,
{
    lemma_div_away(di * k, dd);
    let r = div_away(di * k, dd);
    if di >= 0 {
        assert(di * k >= 0) by (nonlinear_arith)
            requires
                di >= 0,
                k > 0,
        ;
        assert(di * (r * dd) >= di * (di * k)) by (nonlinear_arith)
            requires
                di >= 0,
                r * dd >= di * k,
        ;
    } else {
        assert(di * k < 0) by (nonlinear_arith)
            requires
                di < 0,
                k > 0,
        ;
        assert(di * (r * dd) >= di * (di * k)) by (nonlinear_arith)
            requires
                di < 0,
                r * dd <= di * k,
        ;
    }
    assert(di * r * dd == di * (r * dd) && di * di * k == di * (di * k)) by (nonlinear_arith);
}

/// Once the part along `d` is removed, no motion toward `d` is left.
pub proof fn lemma_perp_away_not_toward(v: Velocity, dx: int, dy: int, dz: int)
    requires
        dx * dx + dy * dy + dz * dz > 0,
        dot3(v, dx, dy, dz) > 0,
    ensures
        perp_away(v, dx, dy, dz).0 * dx + perp_away(v, dx, dy, dz).1 * dy + perp_away(v, dx, dy, dz).2
            * dz <= 0,
{
    let k = dot3(v, dx, dy, dz);
    let dd = dx * dx + dy * dy + dz * dz;
    let rx = div_away(dx * k, dd);
    let ry = div_away(dy * k, dd);
    let rz = div_away(dz * k, dd);
    lemma_away_term(dx, k, dd);
    lemma_away_term(dy, k, dd);
    lemma_away_term(dz, k, dd);
    assert((dx * rx + dy * ry + dz * rz) * dd >= k * dd) by (nonlinear_arith)
        requires
            dx * rx * dd >= dx * dx * k,
            dy * ry * dd >= dy * dy * k,
            dz * rz * dd >= dz * dz * k,
            dd == dx * dx + dy * dy + dz * dz,
    ;
    assert(dx * rx + dy * ry + dz * rz >= k) by (nonlinear_arith)
        requires
            (dx * rx + dy * ry + dz * rz) * dd >= k * dd,
            dd > 0,
    ;
    assert((v.vx - rx) * dx + (v.vy - ry) * dy + (v.vz - rz) * dz == k - (dx * rx + dy * ry
        + dz * rz)) by (nonlinear_arith)
        requires
            k == v.vx * dx + v.vy * dy + v.vz * dz,
    ;
}

fn mul_vd(a: i32, b: i64) -> (r: i128)
    requires
        -0x2_0000_0000 <= b <= 0x2_0000_0000,
    ensures
        r == a * b,
        -0x1_0000_0000_0000_0000 <= r <= 0x1_0000_0000_0000_0000,
{
    proof {
        assert(-0x8000_0000 * 0x2_0000_0000 <= a * b <= 0x8000_0000 * 0x2_0000_0000) by (nonlinear_arith)
            requires -0x8000_0000 <= a <= 0x8000_0000, -0x2_0000_0000 <= b <= 0x2_0000_0000;
    }
    a as i128 * b as i128
}

fn sq_i64(d: i64) -> (r: u128)
    requires
        -0x2_0000_0000 <= d <= 0x2_0000_0000,
    ensures
        r == d * d,
        r <= 0x4_0000_0000_0000_0000,
{
    proof {
        assert(0 <= d * d <= 0x2_0000_0000 * 0x2_0000_0000) by (nonlinear_arith)
            requires -0x2_0000_0000 <= d <= 0x2_0000_0000;
    }
    (d as i128 * d as i128) as u128
}

fn div_away_i128(a: i128, b: i128) -> (r: i128)
    requires
        b > 0,
        -0x10_0000_0000_0000_0000_0000_0000 <= a <= 0x10_0000_0000_0000_0000_0000_0000,
        b <= 0x1_0000_0000_0000_0000_0000,
    ensures
        r == div_away(a as int, b as int),
        a >= 0 ==> 0 <= r <= a + b,
        a < 0 ==> a - b <= r <= 0,
{
    proof {
        if a >= 0 {
            vstd::arithmetic::div_mod::lemma_div_is_ordered_by_denominator(a + b - 1, 1, b as int);
            vstd::arithmetic::div_mod::lemma_div_pos_is_pos(a + b - 1, b as int);
        } else {
            vstd::arithmetic::div_mod::lemma_div_is_ordered_by_denominator(-a + b - 1, 1, b as int);
            vstd::arithmetic::div_mod::lemma_div_pos_is_pos(-a + b - 1, b as int);
        }
    }
    if a >= 0 {
        (a + b - 1) / b
    } else {
        -((-a + b - 1) / b)
    }
}

/// `v` with the part along `(dx, dy, dz)` removed (rounded away from zero);
/// `None` when the result does not fit.
pub fn perp_away_exec(v: &Velocity, dx: i64, dy: i64, dz: i64) -> (r: Option<Velocity>)
    requires
        -0x2_0000_0000 <= dx <= 0x2_0000_0000,
        -0x2_0000_0000 <= dy <= 0x2_0000_0000,
        -0x2_0000_0000 <= dz <= 0x2_0000_0000,
        dx * dx + dy * dy + dz * dz > 0,
    ensures
        r matches Some(w) ==> (w.vx as int, w.vy as int, w.vz as int) == perp_away(*v, dx as int, dy as int, dz as int),
        r is None <==> !fits_i32(perp_away(*v, dx as int, dy as int, dz as int)),
{
    proof {
        assert(-0x8000_0000 * 0x2_0000_0000 <= v.vx * dx <= 0x8000_0000 * 0x2_0000_0000) by (nonlinear_arith)
            requires -0x8000_0000 <= v.vx <= 0x8000_0000, -0x2_0000_0000 <= dx <= 0x2_0000_0000;
        assert(-0x8000_0000 * 0x2_0000_0000 <= v.vy * dy <= 0x8000_0000 * 0x2_0000_0000) by (nonlinear_arith)
            requires -0x8000_0000 <= v.vy <= 0x8000_0000, -0x2_0000_0000 <= dy <= 0x2_0000_0000;
        assert(-0x8000_0000 * 0x2_0000_0000 <= v.vz * dz <= 0x8000_0000 * 0x2_0000_0000) by (nonlinear_arith)
            requires -0x8000_0000 <= v.vz <= 0x8000_0000, -0x2_0000_0000 <= dz <= 0x2_0000_0000;
        assert(0 <= dx * dx <= 0x2_0000_0000 * 0x2_0000_0000) by (nonlinear_arith)
            requires -0x2_0000_0000 <= dx <= 0x2_0000_0000;
        assert(0 <= dy * dy <= 0x2_0000_0000 * 0x2_0000_0000) by (nonlinear_arith)
            requires -0x2_0000_0000 <= dy <= 0x2_0000_0000;
        assert(0 <= dz * dz <= 0x2_0000_0000 * 0x2_0000_0000) by (nonlinear_arith)
            requires -0x2_0000_0000 <= dz <= 0x2_0000_0000;
    }
    let k: i128 = v.vx as i128 * dx as i128 + v.vy as i128 * dy as i128 + v.vz as i128 * dz as i128;
    let dd: i128 = dx as i128 * dx as i128 + dy as i128 * dy as i128 + dz as i128 * dz as i128;
    proof {
        assert(-0x2_0000_0000 * 0x4_0000_0000_0000_0000 <= dx * k <= 0x2_0000_0000 * 0x4_0000_0000_0000_0000) by (nonlinear_arith)
            requires -0x2_0000_0000 <= dx <= 0x2_0000_0000, -0x4_0000_0000_0000_0000 <= k <= 0x4_0000_0000_0000_0000;
        assert(-0x2_0000_0000 * 0x4_0000_0000_0000_0000 <= dy * k <= 0x2_0000_0000 * 0x4_0000_0000_0000_0000) by (nonlinear_arith)
            requires -0x2_0000_0000 <= dy <= 0x2_0000_0000, -0x4_0000_0000_0000_0000 <= k <= 0x4_0000_0000_0000_0000;
        assert(-0x2_0000_0000 * 0x4_0000_0000_0000_0000 <= dz * k <= 0x2_0000_0000 * 0x4_0000_0000_0000_0000) by (nonlinear_arith)
            requires -0x2_0000_0000 <= dz <= 0x2_0000_0000, -0x4_0000_0000_0000_0000 <= k <= 0x4_0000_0000_0000_0000;
    }
    let rx = div_away_i128(dx as i128 * k, dd);
    let ry = div_away_i128(dy as i128 * k, dd);
    let rz = div_away_i128(dz as i128 * k, dd);
    proof {
        lemma_div_away(dx * k, dd as int);
        lemma_div_away(dy * k, dd as int);
        lemma_div_away(dz * k, dd as int);
    }
    let wx: i128 = v.vx as i128 - rx;
    let wy: i128 = v.vy as i128 - ry;
    let wz: i128 = v.vz as i128 - rz;
    if wx < i32::MIN as i128 || wx > i32::MAX as i128 || wy < i32::MIN as i128 || wy > i32::MAX as i128
        || wz < i32::MIN as i128 || wz > i32::MAX as i128 {
        None
    } else {
        Some(Velocity { vx: wx as i32, vy: wy as i32, vz: wz as i32 })
    }
}

/// A neighbour close enough to matter: its index among the contacts, its
/// predicted position and its squared distance.
#[derive(Clone, Copy, Debug, PartialEq, Eq, Structural)]
pub struct Danger {
    pub idx: usize,
    pub pos: PosVec,
    pub d2: u128,
}

/// Where a contact is predicted to be at `now`.
pub open spec fn predicted(c: Contact, now: u64) -> PosVec {
    advance_spec(c.desc.p, c.desc.v, elapsed(c.last_heard, now) as int)
}

/// The collision-avoidance filter.
pub struct ColliVoid {
    /// Milliseconds.
    pub t_scale: u64,
    pub modest_num_dangers: usize,
    /// Millimetres.
    pub minimal_alert_dist: u64,
    /// Millimetres.
    pub evasion_dist: u64,
}

impl ColliVoid {
    pub open spec fn wf(&self) -> bool {
        &&& 0 < self.t_scale <= 0x10_0000
        &&& self.minimal_alert_dist <= 0x100_0000_0000
        &&& self.evasion_dist <= self.minimal_alert_dist
    }

    /// Whether a neighbour at squared distance `d2` is inside the alert
    /// radius `max(|v_aim| * t_scale, minimal_alert_dist)`.
    pub open spec fn in_alert(&self, d2: int, v_aim: Velocity) -> bool {
        d2 * 1_000_000 <= v_norm_sq_spec(v_aim) * (self.t_scale * self.t_scale) || d2
            <= self.minimal_alert_dist * self.minimal_alert_dist
    }

    pub fn new(conf: &AstroConf) -> (r: ColliVoid)
        ensures
            r.wf(),
            r.t_scale == DEFAULT_TIME_SCALE,
            r.modest_num_dangers == DEFAULT_MODEST_NUM_DANGERS,
            r.minimal_alert_dist == conf.uav_radius * DEFAULT_MINIMAL_ALERT_DISTANCE_RATIO,
            r.evasion_dist == conf.uav_radius * DEFAULT_EVASION_DIST_RATIO,
    {
        ColliVoid {
            t_scale: DEFAULT_TIME_SCALE,
            modest_num_dangers: DEFAULT_MODEST_NUM_DANGERS,
            minimal_alert_dist: conf.uav_radius as u64 * DEFAULT_MINIMAL_ALERT_DISTANCE_RATIO,
            evasion_dist: conf.uav_radius as u64 * DEFAULT_EVASION_DIST_RATIO,
        }
    }

    fn in_alert_exec(&self, d2: u128, v_aim: &Velocity) -> (r: bool)
        requires
            self.wf(),
            d2 <= 0x3_0000_0000_0000_0000,
        ensures
            r == self.in_alert(d2 as int, *v_aim),
    {
        proof {
            assert(0 <= v_aim.vx * v_aim.vx <= 0x4000_0000_0000_0000) by (nonlinear_arith)
                requires -0x8000_0000 <= v_aim.vx <= 0x8000_0000;
            assert(0 <= v_aim.vy * v_aim.vy <= 0x4000_0000_0000_0000) by (nonlinear_arith)
                requires -0x8000_0000 <= v_aim.vy <= 0x8000_0000;
            assert(0 <= v_aim.vz * v_aim.vz <= 0x4000_0000_0000_0000) by (nonlinear_arith)
                requires -0x8000_0000 <= v_aim.vz <= 0x8000_0000;
            assert(self.t_scale * self.t_scale <= 0x10_0000 * 0x10_0000) by (nonlinear_arith)
                requires 0 < self.t_scale <= 0x10_0000;
            assert(self.minimal_alert_dist * self.minimal_alert_dist <= 0x100_0000_0000 * 0x100_0000_0000)
                by (nonlinear_arith)
                requires self.minimal_alert_dist <= 0x100_0000_0000;
        }
        let n2: u128 = (v_aim.vx as i128 * v_aim.vx as i128) as u128 + (v_aim.vy as i128
            * v_aim.vy as i128) as u128 + (v_aim.vz as i128 * v_aim.vz as i128) as u128;
        let t2: u128 = self.t_scale as u128 * self.t_scale as u128;
        proof {
            assert(n2 * t2 <= 0x1_0000_0000_0000_0000 * 0x100_0000_0000) by (nonlinear_arith)
                requires n2 <= 0x1_0000_0000_0000_0000, t2 <= 0x100_0000_0000;
        }
        let m: u128 = self.minimal_alert_dist as u128;
        d2 * 1_000_000 <= n2 * t2 || d2 <= m * m
    }

    /// The neighbours inside the alert radius, nearest first.
    pub fn pick_dangers(&self, v_aim: &Velocity, p_self: &PosVec, neighbours: &Vec<Contact>, now: u64) -> (r:
        Vec<Danger>)
        requires
            self.wf(),
        ensures
            forall|a: int, b: int| 0 <= a < b < r@.len() ==> (#[trigger] r@[a]).d2 <= (#[trigger] r@[b]).d2,
            self.is_danger_list(*v_aim, *p_self, neighbours@, now, r@),
            forall|q: int|
                0 <= q < r@.len() ==> {
                    &&& (#[trigger] r@[q]).idx < neighbours@.len()
                    &&& r@[q].pos == predicted(neighbours@[r@[q].idx as int], now)
                    &&& r@[q].d2 == dist_sq_spec(r@[q].pos, *p_self)
                    &&& r@[q].d2 <= 0x3_0000_0000_0000_0000
                    &&& self.in_alert(r@[q].d2 as int, *v_aim)
                },
            forall|j: int|
                0 <= j < neighbours@.len() && self.in_alert(
                    dist_sq_spec(predicted(#[trigger] neighbours@[j], now), *p_self),
                    *v_aim,
                ) ==> exists|q: int| 0 <= q < r@.len() && r@[q].idx == j,
    {
        let mut ds: Vec<Danger> = Vec::new();
        let mut i: usize = 0;
        while i < neighbours.len()
            invariant
                self.wf(),
                i <= neighbours@.len(),
                forall|a: int, b: int| 0 <= a < b < ds@.len() ==> (#[trigger] ds@[a]).d2 < (#[trigger] ds@[b]).d2
                    || (ds@[a].d2 == ds@[b].d2 && ds@[a].idx < ds@[b].idx),
                forall|q: int| 0 <= q < ds@.len() ==> (#[trigger] ds@[q]).idx < i,
                forall|q: int|
                    0 <= q < ds@.len() ==> {
                        &&& (#[trigger] ds@[q]).idx < neighbours@.len()
                        &&& ds@[q].pos == predicted(neighbours@[ds@[q].idx as int], now)
                        &&& ds@[q].d2 == dist_sq_spec(ds@[q].pos, *p_self)
                        &&& ds@[q].d2 <= 0x3_0000_0000_0000_0000
                        &&& self.in_alert(ds@[q].d2 as int, *v_aim)
                    },
                forall|j: int|
                    0 <= j < i && self.in_alert(
                        dist_sq_spec(predicted(#[trigger] neighbours@[j], now), *p_self),
                        *v_aim,
                    ) ==> exists|q: int| 0 <= q < ds@.len() && ds@[q].idx == j,
            decreases neighbours.len() - i,
        {
            let pos = neighbours[i].predict_p(now);
            let d2 = dist_sq(&pos, p_self);
            if self.in_alert_exec(d2, v_aim) {
                let mut k: usize = 0;
                while k < ds.len() && ds[k].d2 <= d2
                    invariant
                        k <= ds@.len(),
                        forall|q: int| 0 <= q < k ==> (#[trigger] ds@[q]).d2 <= d2,
                    decreases ds.len() - k,
                {
                    k += 1;
                }
                let ghost before = ds@;
                ds.insert(k, Danger { idx: i, pos, d2 });
                proof {
                    assert forall|q: int| 0 <= q < ds@.len() implies (#[trigger] ds@[q]).idx < i + 1 by {
                        if q < k {
                            assert(ds@[q] == before[q]);
                        } else if q > k {
                            assert(ds@[q] == before[q - 1]);
                        }
                    }
                    assert forall|a: int, b: int| 0 <= a < b < ds@.len() implies (#[trigger] ds@[a]).d2 < (#[trigger] ds@[b]).d2
                        || (ds@[a].d2 == ds@[b].d2 && ds@[a].idx < ds@[b].idx) by {
                        if a < k && b < k {
                            assert(ds@[a] == before[a] && ds@[b] == before[b]);
                        } else if a < k && b == k {
                            assert(ds@[a] == before[a]);
                        } else if a < k {
                            assert(ds@[a] == before[a] && ds@[b] == before[b - 1]);
                        } else if a == k {
                            assert(ds@[b] == before[b - 1]);
                            if k < before.len() {
                                assert(before[k as int].d2 > d2);
                                assert(before[k as int].d2 <= before[b - 1].d2 || k == b - 1);
                            }
                        } else {
                            assert(ds@[a] == before[a - 1] && ds@[b] == before[b - 1]);
                        }
                    }
                    assert forall|q: int| 0 <= q < ds@.len() implies {
                        &&& (#[trigger] ds@[q]).idx < neighbours@.len()
                        &&& ds@[q].pos == predicted(neighbours@[ds@[q].idx as int], now)
                        &&& ds@[q].d2 == dist_sq_spec(ds@[q].pos, *p_self)
                        &&& ds@[q].d2 <= 0x3_0000_0000_0000_0000
                        &&& self.in_alert(ds@[q].d2 as int, *v_aim)
                    } by {
                        if q < k {
                            assert(ds@[q] == before[q]);
                        } else if q > k {
                            assert(ds@[q] == before[q - 1]);
                        }
                    }
                    assert forall|j: int|
                        0 <= j < i + 1 && self.in_alert(
                            dist_sq_spec(predicted(#[trigger] neighbours@[j], now), *p_self),
                            *v_aim,
                        ) implies exists|q: int| 0 <= q < ds@.len() && ds@[q].idx == j by {
                        if j < i {
                            let q = choose|q: int| 0 <= q < before.len() && before[q].idx == j;
                            if q < k {
                                assert(ds@[q] == before[q]);
                            } else {
                                assert(ds@[q + 1] == before[q]);
                            }
                        } else {
                            assert(ds@[k as int].idx == j);
                        }
                    }
                }
            }
            i += 1;
        }
        ds
    }

    /// Strict evasion, as a value.
    pub open spec fn evade_spec(&self, v: Velocity, p: PosVec, d: Danger) -> Velocity {
        let dx = d.pos.x - p.x;
        let dy = d.pos.y - p.y;
        let dz = d.pos.z - p.z;
        if d.d2 > self.evasion_dist * self.evasion_dist {
            v
        } else if dot3(v, dx, dy, dz) <= 0 {
            v
        } else {
            let t = perp_away(v, dx, dy, dz);
            if fits_i32(t) {
                Velocity { vx: t.0 as i32, vy: t.1 as i32, vz: t.2 as i32 }
            } else {
                Velocity { vx: 0, vy: 0, vz: 0 }
            }
        }
    }

    /// Strict evasion: when the danger is within the evasion distance and
    /// `v` moves toward it, only the part of `v` across that direction is
    /// kept (zero if that part does not fit).
    pub fn evade(&self, v: Velocity, p_self: &PosVec, danger: &Danger) -> (r: Velocity)
        requires
            self.wf(),
            danger.d2 == dist_sq_spec(danger.pos, *p_self),
        ensures
            danger.d2 > self.evasion_dist * self.evasion_dist ==> r == v,
            r == self.evade_spec(v, *p_self, *danger),
            dot3(r, danger.pos.x - p_self.x, danger.pos.y - p_self.y, danger.pos.z - p_self.z) <= 0
                || r == v && dot3(v, danger.pos.x - p_self.x, danger.pos.y - p_self.y, danger.pos.z - p_self.z) <= 0
                || danger.d2 > self.evasion_dist * self.evasion_dist,
    {
        proof {
            assert(self.evasion_dist * self.evasion_dist <= 0x100_0000_0000 * 0x100_0000_0000) by (nonlinear_arith)
                requires self.evasion_dist <= 0x100_0000_0000;
        }
        let ev: u128 = self.evasion_dist as u128;
        if danger.d2 > ev * ev {
            return v;
        }
        let dx: i64 = danger.pos.x as i64 - p_self.x as i64;
        let dy: i64 = danger.pos.y as i64 - p_self.y as i64;
        let dz: i64 = danger.pos.z as i64 - p_self.z as i64;
        let k: i128 = mul_vd(v.vx, dx) + mul_vd(v.vy, dy) + mul_vd(v.vz, dz);
        if k <= 0 {
            return v;
        }
        proof {
            if dx * dx + dy * dy + dz * dz <= 0 {
                assert(dx == 0 && dy == 0 && dz == 0) by (nonlinear_arith)
                    requires dx * dx + dy * dy + dz * dz <= 0;
                assert(v.vx * dx + v.vy * dy + v.vz * dz == 0) by (nonlinear_arith)
                    requires dx == 0 && dy == 0 && dz == 0;
                assert(false);
            }
        }
        match perp_away_exec(&v, dx, dy, dz) {
            Some(w) => {
                proof {
                    lemma_perp_away_not_toward(v, dx as int, dy as int, dz as int);
                    assert(dot3(w, dx as int, dy as int, dz as int) <= 0);
                }
                w
            },
            None => {
                let z = Velocity { vx: 0, vy: 0, vz: 0 };
                proof {
                    assert(dot3(z, dx as int, dy as int, dz as int) == 0) by (nonlinear_arith)
                        requires z.vx == 0 && z.vy == 0 && z.vz == 0;
                }
                z
            },
        }
    }

    /// The aimed velocity capped near a crowd, as a value: beyond a modest
    /// number of dangers it may deviate from the dangers' average velocity
    /// only by the speed that covers the distance to the next danger in one
    /// time scale (averages and scaling rounded toward zero).
    pub open spec fn capped_spec(&self, v: Velocity, nb: Seq<Contact>, ds: Seq<Danger>) -> Velocity {
        if ds.len() <= self.modest_num_dangers {
            v
        } else {
            let s = danger_v_sum(nb, ds, ds.len() as int);
            let n = ds.len() as int;
            let ax = clamp_i32(trunc_div(s.0, n)) as int;
            let ay = clamp_i32(trunc_div(s.1, n)) as int;
            let az = clamp_i32(trunc_div(s.2, n)) as int;
            let dx = v.vx - ax;
            let dy = v.vy - ay;
            let dz = v.vz - az;
            let cap = (isqrt_spec(ds[self.modest_num_dangers as int].d2 as nat) * 1000 / (self.t_scale as nat)) as int;
            let n2 = dx * dx + dy * dy + dz * dz;
            let norm = isqrt_spec(n2 as nat) as int;
            let c = if n2 > cap * cap && norm != 0 {
                (trunc_div(dx * cap, norm), trunc_div(dy * cap, norm), trunc_div(dz * cap, norm))
            } else {
                (dx, dy, dz)
            };
            Velocity { vx: clamp_i32(ax + c.0), vy: clamp_i32(ay + c.1), vz: clamp_i32(az + c.2) }
        }
    }

    fn get_capped_v(&self, v_aim: &Velocity, neighbours: &Vec<Contact>, dangers: &Vec<Danger>) -> (r: Velocity)
        requires
            self.wf(),
            forall|q: int| 0 <= q < dangers@.len() ==> (#[trigger] dangers@[q]).idx < neighbours@.len(),
            forall|q: int| 0 <= q < dangers@.len() ==> (#[trigger] dangers@[q]).d2 <= 0x3_0000_0000_0000_0000,
        ensures
            r == self.capped_spec(*v_aim, neighbours@, dangers@),
    {
        let n = dangers.len();
        if n <= self.modest_num_dangers {
            return *v_aim;
        }
        let mut sx: i128 = 0;
        let mut sy: i128 = 0;
        let mut sz: i128 = 0;
        let mut i: usize = 0;
        while i < n
            invariant
                i <= n == dangers@.len(),
                forall|q: int| 0 <= q < dangers@.len() ==> (#[trigger] dangers@[q]).idx < neighbours@.len(),
                -0x8000_0000 * i <= sx <= 0x8000_0000 * i,
                -0x8000_0000 * i <= sy <= 0x8000_0000 * i,
                -0x8000_0000 * i <= sz <= 0x8000_0000 * i,
                (sx as int, sy as int, sz as int) == danger_v_sum(neighbours@, dangers@, i as int),
            decreases n - i,
        {
            let c = &neighbours[dangers[i].idx];
            sx = sx + c.desc.v.vx as i128;
            sy = sy + c.desc.v.vy as i128;
            sz = sz + c.desc.v.vz as i128;
            i += 1;
        }
        let ax: i64 = crate::vector::clamp_to_i32(trunc_div_i128(sx, n as i128)) as i64;
        let ay: i64 = crate::vector::clamp_to_i32(trunc_div_i128(sy, n as i128)) as i64;
        let az: i64 = crate::vector::clamp_to_i32(trunc_div_i128(sz, n as i128)) as i64;
        let dx: i64 = v_aim.vx as i64 - ax;
        let dy: i64 = v_aim.vy as i64 - ay;
        let dz: i64 = v_aim.vz as i64 - az;
        let d2 = dangers[self.modest_num_dangers].d2;
        let dist = isqrt(d2);
        proof {
            lemma_isqrt_spec(d2 as nat);
            lemma_isqrt_unique(d2 as int, dist as int, isqrt_spec(d2 as nat) as int);
        }
        let cap: u128 = dist as u128 * 1000 / self.t_scale as u128;
        proof {
            vstd::arithmetic::div_mod::lemma_div_is_ordered_by_denominator((dist as int) * 1000, 1, self.t_scale as int);
            assert(cap * cap <= 0x1000_0000_0000 * 0x1000_0000_0000) by (nonlinear_arith)
                requires cap <= 0x1000_0000_0000;
            assert(-0x2_0000_0000 * 0x1000_0000_0000 <= dx * cap <= 0x2_0000_0000 * 0x1000_0000_0000) by (nonlinear_arith)
                requires cap <= 0x1000_0000_0000, -0x2_0000_0000 <= dx <= 0x2_0000_0000, cap >= 0;
            assert(-0x2_0000_0000 * 0x1000_0000_0000 <= dy * cap <= 0x2_0000_0000 * 0x1000_0000_0000) by (nonlinear_arith)
                requires cap <= 0x1000_0000_0000, -0x2_0000_0000 <= dy <= 0x2_0000_0000, cap >= 0;
            assert(-0x2_0000_0000 * 0x1000_0000_0000 <= dz * cap <= 0x2_0000_0000 * 0x1000_0000_0000) by (nonlinear_arith)
                requires cap <= 0x1000_0000_0000, -0x2_0000_0000 <= dz <= 0x2_0000_0000, cap >= 0;
        }
        let n2: u128 = sq_i64(dx) + sq_i64(dy) + sq_i64(dz);
        let norm = isqrt(n2) as i128;
        proof {
            lemma_isqrt_spec(n2 as nat);
            lemma_isqrt_unique(n2 as int, norm as int, isqrt_spec(n2 as nat) as int);
        }
        let (cx, cy, cz) = if n2 > cap * cap && norm != 0 {
            (
                trunc_div_i128(dx as i128 * cap as i128, norm),
                trunc_div_i128(dy as i128 * cap as i128, norm),
                trunc_div_i128(dz as i128 * cap as i128, norm),
            )
        } else {
            (dx as i128, dy as i128, dz as i128)
        };
        Velocity {
            vx: crate::vector::clamp_to_i32(ax as i128 + cx),
            vy: crate::vector::clamp_to_i32(ay as i128 + cy),
            vz: crate::vector::clamp_to_i32(az as i128 + cz),
        }
    }

    /// Soft evasion from a danger at offset `(dx, dy, dz)`, when `c` moves
    /// toward it: the part of `c` along the offset is limited to the speed
    /// that covers the offset in one evasion time scale.
    fn soft_evasion(c: &Velocity, dx: i64, dy: i64, dz: i64) -> (r: Option<(i128, i128, i128)>)
        requires
            -0x2_0000_0000 <= dx <= 0x2_0000_0000,
            -0x2_0000_0000 <= dy <= 0x2_0000_0000,
            -0x2_0000_0000 <= dz <= 0x2_0000_0000,
        ensures
            r matches Some((x, y, z)) ==> -0x10_0000_0000 <= x <= 0x10_0000_0000 && -0x10_0000_0000 <= y
                <= 0x10_0000_0000 && -0x10_0000_0000 <= z <= 0x10_0000_0000,
            dot3(*c, dx as int, dy as int, dz as int) <= 0 ==> r is None,
            match r {
                Some((x, y, z)) => soft_evasion_spec(*c, dx as int, dy as int, dz as int) == Some(
                    (x as int, y as int, z as int),
                ),
                None => soft_evasion_spec(*c, dx as int, dy as int, dz as int) is None,
            },
    {
        let k: i128 = mul_vd(c.vx, dx) + mul_vd(c.vy, dy) + mul_vd(c.vz, dz);
        if k <= 0 {
            return None;
        }
        let dd: i128 = (sq_i64(dx) + sq_i64(dy) + sq_i64(dz)) as i128;
        if dd == 0 {
            return None;
        }
        proof {
            assert(-0x2_0000_0000 * 0x4_0000_0000_0000_0000 <= dx * k <= 0x2_0000_0000 * 0x4_0000_0000_0000_0000) by (nonlinear_arith)
                requires -0x2_0000_0000 <= dx <= 0x2_0000_0000, 0 <= k <= 0x4_0000_0000_0000_0000;
            assert(-0x2_0000_0000 * 0x4_0000_0000_0000_0000 <= dy * k <= 0x2_0000_0000 * 0x4_0000_0000_0000_0000) by (nonlinear_arith)
                requires -0x2_0000_0000 <= dy <= 0x2_0000_0000, 0 <= k <= 0x4_0000_0000_0000_0000;
            assert(-0x2_0000_0000 * 0x4_0000_0000_0000_0000 <= dz * k <= 0x2_0000_0000 * 0x4_0000_0000_0000_0000) by (nonlinear_arith)
                requires -0x2_0000_0000 <= dz <= 0x2_0000_0000, 0 <= k <= 0x4_0000_0000_0000_0000;
        }
        let px: i128 = trunc_div_i128(dx as i128 * k, dd);
        let py: i128 = trunc_div_i128(dy as i128 * k, dd);
        let pz: i128 = trunc_div_i128(dz as i128 * k, dd);
        let t: i128 = DEFAULT_EVASION_TIME_SCALE as i128;
        let (lx, ly, lz) = if k * t > dd * 1000 {
            (
                trunc_div_i128(dx as i128 * 1000, t),
                trunc_div_i128(dy as i128 * 1000, t),
                trunc_div_i128(dz as i128 * 1000, t),
            )
        } else {
            (px, py, pz)
        };
        let ex = c.vx as i128 - px + lx;
        let ey = c.vy as i128 - py + ly;
        let ez = c.vz as i128 - pz + lz;
        if ex < -0x10_0000_0000 || ex > 0x10_0000_0000 || ey < -0x10_0000_0000 || ey > 0x10_0000_0000
            || ez < -0x10_0000_0000 || ez > 0x10_0000_0000 {
            return None;
        }
        Some((ex, ey, ez))
    }

    /// Weighted sums (and total weight) of the capped velocity, weight 10,
    /// and of the soft evasions from the first `m` dangers, weights 10 then 3.
    pub open spec fn soft_acc(&self, c: Velocity, p: PosVec, ds: Seq<Danger>, m: int) -> (int, int, int, int)
        decreases m,
    {
        if m <= 0 {
            (10 * c.vx, 10 * c.vy, 10 * c.vz, 10)
        } else {
            let prev = self.soft_acc(c, p, ds, m - 1);
            let d = ds[m - 1];
            match soft_evasion_spec(c, d.pos.x - p.x, d.pos.y - p.y, d.pos.z - p.z) {
                Some(e) => {
                    let w: int = if m - 1 == 0 { 10 } else { 3 };
                    (prev.0 + e.0 * w, prev.1 + e.1 * w, prev.2 + e.2 * w, prev.3 + w)
                },
                None => prev,
            }
        }
    }

    /// Soft evasion from the nearest dangers (at most the modest number, and
    /// at most two), as the weighted average of the velocities.
    pub open spec fn soft_spec(&self, c: Velocity, p: PosVec, ds: Seq<Danger>) -> Velocity {
        let m = if ds.len() < self.modest_num_dangers && ds.len() < 2 {
            ds.len() as int
        } else if self.modest_num_dangers < 2 {
            self.modest_num_dangers as int
        } else {
            2
        };
        let a = self.soft_acc(c, p, ds, m);
        Velocity { vx: clamp_i32(trunc_div(a.0, a.3)), vy: clamp_i32(trunc_div(a.1, a.3)), vz: clamp_i32(trunc_div(a.2, a.3)) }
    }

    /// The safe velocity given the dangers, nearest first.
    pub open spec fn safe_spec(&self, v_aim: Velocity, p: PosVec, nb: Seq<Contact>, ds: Seq<Danger>) -> Velocity {
        if ds.len() == 0 {
            v_aim
        } else {
            self.evade_spec(self.soft_spec(self.capped_spec(v_aim, nb, ds), p, ds), p, ds[0])
        }
    }

    /// `ds` lists each neighbour inside the alert radius once, with its
    /// predicted position and squared distance, nearest first (lower index
    /// first among equals). Only one list meets this.
    pub open spec fn is_danger_list(&self, v_aim: Velocity, p: PosVec, nb: Seq<Contact>, now: u64, ds: Seq<Danger>) -> bool {
        &&& forall|a: int, b: int|
            0 <= a < b < ds.len() ==> (#[trigger] ds[a]).d2 < (#[trigger] ds[b]).d2 || (ds[a].d2 == ds[b].d2
                && ds[a].idx < ds[b].idx)
        &&& forall|q: int|
            0 <= q < ds.len() ==> {
                &&& (#[trigger] ds[q]).idx < nb.len()
                &&& ds[q].pos == predicted(nb[ds[q].idx as int], now)
                &&& ds[q].d2 == dist_sq_spec(ds[q].pos, p)
                &&& ds[q].d2 <= 0x3_0000_0000_0000_0000
                &&& self.in_alert(ds[q].d2 as int, v_aim)
            }
        &&& forall|j: int|
            0 <= j < nb.len() && self.in_alert(dist_sq_spec(predicted(#[trigger] nb[j], now), p), v_aim)
                ==> exists|q: int| 0 <= q < ds.len() && ds[q].idx == j
    }

    /// The safe velocity for aiming at `v_aim`: `v_aim` itself when no
    /// neighbour is inside the alert radius; otherwise `v_aim` capped near
    /// a crowd, softly deflected from the two nearest dangers, and, when
    /// the nearest is within the evasion distance, stripped of any motion
    /// toward it.
    pub fn get_safe_v(&self, v_aim: &Velocity, p_self: &PosVec, neighbours: &Vec<Contact>, now: u64) -> (r: Velocity)
        requires
            self.wf(),
        ensures
            (forall|j: int|
                0 <= j < neighbours@.len() ==> !self.in_alert(
                    dist_sq_spec(predicted(#[trigger] neighbours@[j], now), *p_self),
                    *v_aim,
                )) ==> r == *v_aim,
            (exists|j: int|
                0 <= j < neighbours@.len() && dist_sq_spec(predicted(#[trigger] neighbours@[j], now), *p_self)
                    <= self.evasion_dist * self.evasion_dist) ==> exists|j0: int|
                0 <= j0 < neighbours@.len() && (forall|j: int|
                    0 <= j < neighbours@.len() ==> dist_sq_spec(predicted(neighbours@[j0], now), *p_self)
                        <= dist_sq_spec(predicted(#[trigger] neighbours@[j], now), *p_self)) && dot3(
                    r,
                    predicted(neighbours@[j0], now).x - p_self.x,
                    predicted(neighbours@[j0], now).y - p_self.y,
                    predicted(neighbours@[j0], now).z - p_self.z,
                ) <= 0,
            exists|ds: Seq<Danger>|
                #[trigger] self.is_danger_list(*v_aim, *p_self, neighbours@, now, ds) && r == self.safe_spec(
                    *v_aim,
                    *p_self,
                    neighbours@,
                    ds,
                ),
    {
        let dangers = self.pick_dangers(v_aim, p_self, neighbours, now);
        if dangers.len() == 0 {
            proof {
                assert forall|j: int| 0 <= j < neighbours@.len() implies !self.in_alert(
                    dist_sq_spec(predicted(#[trigger] neighbours@[j], now), *p_self), *v_aim) by {
                    if self.in_alert(dist_sq_spec(predicted(neighbours@[j], now), *p_self), *v_aim) {
                        let q = choose|q: int| 0 <= q < dangers@.len() && dangers@[q].idx == j;
                    }
                }
                if exists|j: int| 0 <= j < neighbours@.len() && dist_sq_spec(predicted(#[trigger] neighbours@[j], now), *p_self)
                    <= self.evasion_dist * self.evasion_dist {
                    let j = choose|j: int| 0 <= j < neighbours@.len() && dist_sq_spec(predicted(#[trigger] neighbours@[j], now), *p_self)
                        <= self.evasion_dist * self.evasion_dist;
                    assert(self.evasion_dist * self.evasion_dist <= self.minimal_alert_dist * self.minimal_alert_dist) by (nonlinear_arith)
                        requires 0 <= self.evasion_dist <= self.minimal_alert_dist;
                    assert(self.in_alert(dist_sq_spec(predicted(neighbours@[j], now), *p_self), *v_aim));
                    let q = choose|q: int| 0 <= q < dangers@.len() && dangers@[q].idx == j;
                }
            }
            assert(self.is_danger_list(*v_aim, *p_self, neighbours@, now, dangers@));
            return *v_aim;
        }
        let capped = self.get_capped_v(v_aim, neighbours, &dangers);
        let mut sx: i128 = capped.vx as i128 * 10;
        let mut sy: i128 = capped.vy as i128 * 10;
        let mut sz: i128 = capped.vz as i128 * 10;
        let mut wsum: i128 = 10;
        let mut i: usize = 0;
        while i < dangers.len() && i < self.modest_num_dangers && i < 2
            invariant
                i <= 2,
                10 <= wsum <= 10 + 10 * i,
                -0x10_0000_0000 * (10 + 10 * i) <= sx <= 0x10_0000_0000 * (10 + 10 * i),
                -0x10_0000_0000 * (10 + 10 * i) <= sy <= 0x10_0000_0000 * (10 + 10 * i),
                -0x10_0000_0000 * (10 + 10 * i) <= sz <= 0x10_0000_0000 * (10 + 10 * i),
                (sx as int, sy as int, sz as int, wsum as int) == self.soft_acc(capped, *p_self, dangers@, i as int),
                i <= dangers@.len(),
                i <= self.modest_num_dangers,
            decreases 2 - i,
        {
            let d = &dangers[i];
            let dx: i64 = d.pos.x as i64 - p_self.x as i64;
            let dy: i64 = d.pos.y as i64 - p_self.y as i64;
            let dz: i64 = d.pos.z as i64 - p_self.z as i64;
            if let Some((ex, ey, ez)) = Self::soft_evasion(&capped, dx, dy, dz) {
                let w: i128 = if i == 0 { 10 } else { 3 };
                sx = sx + ex * w;
                sy = sy + ey * w;
                sz = sz + ez * w;
                wsum = wsum + w;
            }
            i += 1;
        }
        let soft = Velocity {
            vx: crate::vector::clamp_to_i32(trunc_div_i128(sx, wsum)),
            vy: crate::vector::clamp_to_i32(trunc_div_i128(sy, wsum)),
            vz: crate::vector::clamp_to_i32(trunc_div_i128(sz, wsum)),
        };
        proof {
            assert(soft == self.soft_spec(capped, *p_self, dangers@));
        }
        let r = self.evade(soft, p_self, &dangers[0]);
        proof {
            assert(self.is_danger_list(*v_aim, *p_self, neighbours@, now, dangers@));
            assert(r == self.safe_spec(*v_aim, *p_self, neighbours@, dangers@));
            if exists|j: int| 0 <= j < neighbours@.len() && dist_sq_spec(predicted(#[trigger] neighbours@[j], now), *p_self)
                <= self.evasion_dist * self.evasion_dist {
                let j = choose|j: int| 0 <= j < neighbours@.len() && dist_sq_spec(predicted(#[trigger] neighbours@[j], now), *p_self)
                    <= self.evasion_dist * self.evasion_dist;
                assert(self.evasion_dist * self.evasion_dist <= self.minimal_alert_dist * self.minimal_alert_dist) by (nonlinear_arith)
                    requires 0 <= self.evasion_dist <= self.minimal_alert_dist;
                assert(self.in_alert(dist_sq_spec(predicted(neighbours@[j], now), *p_self), *v_aim));
                let q = choose|q: int| 0 <= q < dangers@.len() && dangers@[q].idx == j;
                let j0 = dangers@[0].idx as int;
                assert(dangers@[0].d2 <= dangers@[q].d2);
                assert forall|j2: int| 0 <= j2 < neighbours@.len() implies dist_sq_spec(predicted(neighbours@[j0], now), *p_self)
                    <= dist_sq_spec(predicted(#[trigger] neighbours@[j2], now), *p_self) by {
                    if self.in_alert(dist_sq_spec(predicted(neighbours@[j2], now), *p_self), *v_aim) {
                        let q2 = choose|q2: int| 0 <= q2 < dangers@.len() && dangers@[q2].idx == j2;
                        assert(dangers@[0].d2 <= dangers@[q2].d2);
                    } else {
                        assert(dist_sq_spec(predicted(neighbours@[j2], now), *p_self) > self.minimal_alert_dist * self.minimal_alert_dist);
                    }
                }
                assert(dangers@[0].d2 <= self.evasion_dist * self.evasion_dist);
                let dd0 = dangers@[0];
                assert(dot3(r, dd0.pos.x - p_self.x, dd0.pos.y - p_self.y, dd0.pos.z - p_self.z) <= 0);
            }
        }
        r
    }
}

} // verus!
