//! Fixed-point 3-vectors: positions in millimetres, velocities in
//! millimetres per second.

use vstd::prelude::*;

verus! {

/// A displacement, in millimetres.
#[derive(Clone, Copy, Debug, PartialEq, Eq, Structural)]
pub struct PosVec {
    pub x: i32,
    pub y: i32,
    pub z: i32,
}

/// A velocity, in millimetres per second.
#[derive(Clone, Copy, Debug, PartialEq, Eq, Structural)]
pub struct Velocity {
    pub vx: i32,
    pub vy: i32,
    pub vz: i32,
}

/// Squared Euclidean distance between two positions, in square millimetres.
pub open spec fn dist_sq_spec(a: PosVec, b: PosVec) -> int {
    (a.x - b.x) * (a.x - b.x) + (a.y - b.y) * (a.y - b.y) + (a.z - b.z) * (a.z - b.z)
}

/// `r` is the integer square root of `n` (rounded down).
pub open spec fn is_isqrt(n: int, r: int) -> bool {
    0 <= r && r * r <= n && n < (r + 1) * (r + 1)
}

/// The integer square root, rounded down, defined by counting up.
pub open spec fn isqrt_spec(n: nat) -> nat
    decreases n,
{
    if n == 0 {
        0
    } else {
        let r = isqrt_spec((n - 1) as nat);
        if (r + 1) * (r + 1) <= n {
            r + 1
        } else {
            r
        }
    }
}

/// Length of the segment between two points, in millimetres rounded down.
pub open spec fn seg_len(a: PosVec, b: PosVec) -> nat {
    isqrt_spec(dist_sq_spec(a, b) as nat)
}

pub proof fn lemma_isqrt_spec(n: nat)
    ensures
        is_isqrt(n as int, isqrt_spec(n) as int),
    decreases n,
{
    if n > 0 {
        lemma_isqrt_spec((n - 1) as nat);
        let r = isqrt_spec((n - 1) as nat) as int;
        if (r + 1) * (r + 1) <= n {
            assert(n < (r + 2) * (r + 2)) by (nonlinear_arith)
                requires
                    n - 1 < (r + 1) * (r + 1),
                    r >= 0,
            ;
        }
    }
}

pub proof fn lemma_isqrt_unique(n: int, r1: int, r2: int)
    requires
        is_isqrt(n, r1),
        is_isqrt(n, r2),
    ensures
        r1 == r2,
{
    if r1 < r2 {
        assert((r1 + 1) * (r1 + 1) <= r2 * r2) by (nonlinear_arith)
            requires
                0 <= r1 + 1 <= r2,
        ;
    } else if r2 < r1 {
        assert((r2 + 1) * (r2 + 1) <= r1 * r1) by (nonlinear_arith)
            requires
                0 <= r2 + 1 <= r1,
        ;
    }
}

/// Integer division rounded toward zero, as Rust's `/` rounds.
pub open spec fn trunc_div(a: int, b: int) -> int
    recommends
        b > 0,
{
    if a >= 0 {
        a / b
    } else {
        -((-a) / b)
    }
}

/// The value clamped into the range of `i32`.
pub open spec fn clamp_i32(a: int) -> i32 {
    if a < i32::MIN {
        i32::MIN
    } else if a > i32::MAX {
        i32::MAX
    } else {
        a as i32
    }
}

/// Position reached from `p` after moving at `v` for `dt_ms` milliseconds,
/// each coordinate rounded toward zero and clamped into `i32`.
pub open spec fn advance_spec(p: PosVec, v: Velocity, dt_ms: int) -> PosVec {
    PosVec {
        x: clamp_i32(p.x + trunc_div(v.vx * dt_ms, 1000)),
        y: clamp_i32(p.y + trunc_div(v.vy * dt_ms, 1000)),
        z: clamp_i32(p.z + trunc_div(v.vz * dt_ms, 1000)),
    }
}

fn square_diff(a: i32, b: i32) -> (r: u128)
    ensures
        r == (a - b) * (a - b),
        r <= 0x1_0000_0000_0000_0000,
{
    let d: i64 = a as i64 - b as i64;
    proof {
        assert(-0x1_0000_0000 <= d <= 0x1_0000_0000);
        assert(0 <= d * d <= 0x1_0000_0000_0000_0000) by (nonlinear_arith)
            requires
                -0x1_0000_0000 <= d <= 0x1_0000_0000,
        ;
    }
    let w: i128 = d as i128;
    (w * w) as u128
}

/// Squared distance between two positions.
pub fn dist_sq(a: &PosVec, b: &PosVec) -> (r: u128)
    ensures
        r == dist_sq_spec(*a, *b),
        r <= 0x3_0000_0000_0000_0000,
{
    square_diff(a.x, b.x) + square_diff(a.y, b.y) + square_diff(a.z, b.z)
}

/// Integer square root, rounded down, of a value below `2^68`.
pub fn isqrt(n: u128) -> (r: u64)
    requires
        n < 0x10_0000_0000_0000_0000,
    ensures
        is_isqrt(n as int, r as int),
        r < 0x4_0000_0000,
{
    let mut lo: u64 = 0;
    let mut hi: u64 = 0x4_0000_0000;
    proof {
        assert(0x4_0000_0000 * 0x4_0000_0000 == 0x10_0000_0000_0000_0000);
    }
    while lo + 1 < hi
        invariant
            lo < hi <= 0x4_0000_0000,
            lo * lo <= n,
            n < hi * hi,
        decreases hi - lo,
    {
        let mid: u64 = lo + (hi - lo) / 2;
        proof {
            assert(mid * mid <= 0x4_0000_0000 * 0x4_0000_0000) by (nonlinear_arith)
                requires
                    mid <= 0x4_0000_0000,
            ;
        }
        if (mid as u128) * (mid as u128) <= n {
            lo = mid;
        } else {
            hi = mid;
        }
    }
    lo
}

/// Distance between two positions in millimetres, rounded down.
pub fn distance(a: &PosVec, b: &PosVec) -> (r: u64)
    ensures
        r == seg_len(*a, *b),
        r < 0x4_0000_0000,
{
    let r = isqrt(dist_sq(a, b));
    proof {
        lemma_isqrt_spec(dist_sq_spec(*a, *b) as nat);
        lemma_isqrt_unique(dist_sq_spec(*a, *b), r as int, seg_len(*a, *b) as int);
    }
    r
}

pub fn trunc_div_i128(a: i128, b: i128) -> (r: i128)
    requires
        b > 0,
        a > i128::MIN,
    ensures
        r == trunc_div(a as int, b as int),
{
    if a >= 0 {
        a / b
    } else {
        -((-a) / b)
    }
}

/// Position reached from `p` after moving at `v` for `dt_ms` milliseconds.
pub fn advance(p: &PosVec, v: &Velocity, dt_ms: u64) -> (r: PosVec)
    ensures
        r == advance_spec(*p, *v, dt_ms as int),
{
    PosVec {
        x: advance_coord(p.x, v.vx, dt_ms),
        y: advance_coord(p.y, v.vy, dt_ms),
        z: advance_coord(p.z, v.vz, dt_ms),
    }
}

fn advance_coord(c: i32, vc: i32, dt_ms: u64) -> (r: i32)
    ensures
        r == clamp_i32(c + trunc_div(vc * dt_ms, 1000)),
{
    proof {
        assert(-0x8000_0000 * 0x1_0000_0000_0000_0000 <= vc * dt_ms <= 0x8000_0000 * 0x1_0000_0000_0000_0000)
            by (nonlinear_arith)
            requires
                -0x8000_0000 <= vc < 0x8000_0000,
                0 <= dt_ms < 0x1_0000_0000_0000_0000,
        ;
    }
    let prod: i128 = vc as i128 * dt_ms as i128;
    let moved: i128 = c as i128 + trunc_div_i128(prod, 1000);
    clamp_to_i32(moved)
}

pub fn clamp_to_i32(a: i128) -> (r: i32)
    ensures
        r == clamp_i32(a as int),
{
    if a < i32::MIN as i128 {
        i32::MIN
    } else if a > i32::MAX as i128 {
        i32::MAX
    } else {
        a as i32
    }
}

/// Coordinate at weight `w` out of `total` from `a` toward `b`, rounded
/// toward `a`; `a` itself when `total` is zero.
pub open spec fn interp_coord(a: int, b: int, w: int, total: int) -> int {
    if total == 0 {
        a
    } else {
        a + trunc_div((b - a) * w, total)
    }
}

/// Point at weight `w` out of `total` on the segment from `a` to `b`.
pub open spec fn interp_spec(a: PosVec, b: PosVec, w: int, total: int) -> PosVec {
    PosVec {
        x: interp_coord(a.x as int, b.x as int, w, total) as i32,
        y: interp_coord(a.y as int, b.y as int, w, total) as i32,
        z: interp_coord(a.z as int, b.z as int, w, total) as i32,
    }
}

/// An interpolated coordinate lies between the two ends.
pub proof fn lemma_interp_between(a: int, b: int, w: int, total: int)
    requires
        0 <= w <= total,
    ensures
        a <= b ==> a <= interp_coord(a, b, w, total) <= b,
        b < a ==> b <= interp_coord(a, b, w, total) <= a,
{
    if total > 0 {
        let d = b - a;
        if d >= 0 {
            vstd::arithmetic::mul::lemma_mul_inequality(w, total, d);
            assert(0 <= d * w) by (nonlinear_arith)
                requires
                    d >= 0,
                    w >= 0,
            ;
            assert(w * d == d * w && total * d == d * total) by (nonlinear_arith);
            vstd::arithmetic::div_mod::lemma_div_is_ordered(d * w, d * total, total);
            vstd::arithmetic::div_mod::lemma_div_multiples_vanish(d, total);
            vstd::arithmetic::div_mod::lemma_div_pos_is_pos(d * w, total);
        } else {
            let e = -d;
            vstd::arithmetic::mul::lemma_mul_inequality(w, total, e);
            assert(0 <= e * w) by (nonlinear_arith)
                requires
                    e >= 0,
                    w >= 0,
            ;
            assert(w * e == e * w && total * e == e * total && (b - a) * w == -(e * w))
                by (nonlinear_arith)
                requires
                    e == -(b - a),
            ;
            vstd::arithmetic::div_mod::lemma_div_is_ordered(e * w, e * total, total);
            vstd::arithmetic::div_mod::lemma_div_multiples_vanish(e, total);
            vstd::arithmetic::div_mod::lemma_div_pos_is_pos(e * w, total);
        }
    }
}

fn interp_coord_exec(a: i32, b: i32, w: u64, total: u64) -> (r: i32)
    requires
        w <= total,
    ensures
        r == interp_coord(a as int, b as int, w as int, total as int),
{
    proof {
        lemma_interp_between(a as int, b as int, w as int, total as int);
    }
    if total == 0 {
        return a;
    }
    let d: i128 = b as i128 - a as i128;
    proof {
        assert(-0x1_0000_0000 * 0x1_0000_0000_0000_0000 <= d * w <= 0x1_0000_0000
            * 0x1_0000_0000_0000_0000) by (nonlinear_arith)
            requires
                -0x1_0000_0000 <= d <= 0x1_0000_0000,
                0 <= w < 0x1_0000_0000_0000_0000,
        ;
    }
    let q: i128 = trunc_div_i128(d * (w as i128), total as i128);
    (a as i128 + q) as i32
}

/// Point at weight `w` out of `total` on the segment from `a` to `b`.
pub fn interp(a: &PosVec, b: &PosVec, w: u64, total: u64) -> (r: PosVec)
    requires
        w <= total,
    ensures
        r == interp_spec(*a, *b, w as int, total as int),
{
    PosVec {
        x: interp_coord_exec(a.x, b.x, w, total),
        y: interp_coord_exec(a.y, b.y, w, total),
        z: interp_coord_exec(a.z, b.z, w, total),
    }
}

/// Euclidean norm of `(x, y, z)`, rounded down.
pub fn norm3d(x: i32, y: i32, z: i32) -> (r: u64)
    ensures
        r == isqrt_spec((x * x + y * y + z * z) as nat),
{
    let o = PosVec { x: 0, y: 0, z: 0 };
    distance(&PosVec { x, y, z }, &o)
}

/// Velocity coordinate for covering `d` of a `dist` long way at `speed`.
pub open spec fn pursuit_coord(d: int, speed: int, dist: int) -> i32 {
    clamp_i32(trunc_div(d * speed, dist))
}

/// Velocity of magnitude `speed` from `from` toward `to`; zero when the
/// two are less than a millimetre apart.
pub open spec fn pursuit_spec(from: PosVec, to: PosVec, speed: nat) -> Velocity {
    let dist = seg_len(from, to);
    if dist == 0 {
        Velocity { vx: 0, vy: 0, vz: 0 }
    } else {
        Velocity {
            vx: pursuit_coord(to.x - from.x, speed as int, dist as int),
            vy: pursuit_coord(to.y - from.y, speed as int, dist as int),
            vz: pursuit_coord(to.z - from.z, speed as int, dist as int),
        }
    }
}

fn pursuit_coord_exec(a: i32, b: i32, speed: u64, dist: u64) -> (r: i32)
    requires
        dist > 0,
        speed <= 0x1_0000_0000,
    ensures
        r == pursuit_coord(b - a, speed as int, dist as int),
{
    let d: i128 = b as i128 - a as i128;
    proof {
        assert(-0x1_0000_0000 * 0x1_0000_0000 <= d * speed <= 0x1_0000_0000 * 0x1_0000_0000)
            by (nonlinear_arith)
            requires
                -0x1_0000_0000 <= d <= 0x1_0000_0000,
                0 <= speed <= 0x1_0000_0000,
        ;
    }
    clamp_to_i32(trunc_div_i128(d * speed as i128, dist as i128))
}

/// Velocity of magnitude `speed` (millimetres per second) from `from`
/// toward `to`.
pub fn pursuit(from: &PosVec, to: &PosVec, speed: u64) -> (r: Velocity)
    requires
        speed <= 0x1_0000_0000,
    ensures
        r == pursuit_spec(*from, *to, speed as nat),
{
    let dist = distance(from, to);
    if dist == 0 {
        Velocity { vx: 0, vy: 0, vz: 0 }
    } else {
        Velocity {
            vx: pursuit_coord_exec(from.x, to.x, speed, dist),
            vy: pursuit_coord_exec(from.y, to.y, speed, dist),
            vz: pursuit_coord_exec(from.z, to.z, speed, dist),
        }
    }
}

/// Squared norm of a velocity.
pub open spec fn v_norm_sq_spec(v: Velocity) -> int {
    v.vx * v.vx + v.vy * v.vy + v.vz * v.vz
}

/// `v` when its norm is at most `limit`; otherwise `v` scaled by
/// `limit / (floor(|v|) + 1)`, which keeps it within `limit`.
pub open spec fn norm_limited_spec(v: Velocity, limit: u32) -> Velocity {
    if v_norm_sq_spec(v) <= limit * limit {
        v
    } else {
        let nr = (isqrt_spec(v_norm_sq_spec(v) as nat) + 1) as int;
        Velocity {
            vx: clamp_i32(trunc_div(v.vx * limit, nr)),
            vy: clamp_i32(trunc_div(v.vy * limit, nr)),
            vz: clamp_i32(trunc_div(v.vz * limit, nr)),
        }
    }
}

/// The part of `v` along `p`, each coordinate rounded toward zero and
/// clamped.
pub open spec fn paral_spec(v: Velocity, p: PosVec) -> Velocity {
    let k = v.vx * p.x + v.vy * p.y + v.vz * p.z;
    let dd = dist_sq_spec(p, PosVec { x: 0, y: 0, z: 0 });
    Velocity {
        vx: clamp_i32(trunc_div(p.x * k, dd)),
        vy: clamp_i32(trunc_div(p.y * k, dd)),
        vz: clamp_i32(trunc_div(p.z * k, dd)),
    }
}

proof fn lemma_dot_bound(v: Velocity, p: PosVec)
    ensures
        -0x3_0000_0000_0000_0000 <= v.vx * p.x + v.vy * p.y + v.vz * p.z <= 0x3_0000_0000_0000_0000,
{
    assert(-0x1_0000_0000_0000_0000 <= v.vx * p.x <= 0x1_0000_0000_0000_0000) by (nonlinear_arith)
        requires -0x8000_0000 <= v.vx <= 0x8000_0000, -0x8000_0000 <= p.x <= 0x8000_0000;
    assert(-0x1_0000_0000_0000_0000 <= v.vy * p.y <= 0x1_0000_0000_0000_0000) by (nonlinear_arith)
        requires -0x8000_0000 <= v.vy <= 0x8000_0000, -0x8000_0000 <= p.y <= 0x8000_0000;
    assert(-0x1_0000_0000_0000_0000 <= v.vz * p.z <= 0x1_0000_0000_0000_0000) by (nonlinear_arith)
        requires -0x8000_0000 <= v.vz <= 0x8000_0000, -0x8000_0000 <= p.z <= 0x8000_0000;
}

fn dot_exec(v: &Velocity, p: &PosVec) -> (r: i128)
    ensures
        r == v.vx * p.x + v.vy * p.y + v.vz * p.z,
{
    proof {
        lemma_dot_bound(*v, *p);
        assert(-0x1_0000_0000_0000_0000 <= v.vx * p.x <= 0x1_0000_0000_0000_0000) by (nonlinear_arith)
            requires -0x8000_0000 <= v.vx <= 0x8000_0000, -0x8000_0000 <= p.x <= 0x8000_0000;
        assert(-0x1_0000_0000_0000_0000 <= v.vy * p.y <= 0x1_0000_0000_0000_0000) by (nonlinear_arith)
            requires -0x8000_0000 <= v.vy <= 0x8000_0000, -0x8000_0000 <= p.y <= 0x8000_0000;
    }
    v.vx as i128 * p.x as i128 + v.vy as i128 * p.y as i128 + v.vz as i128 * p.z as i128
}

impl Velocity {
    /// This velocity, slowed down to at most `limit` millimetres per second.
    pub fn get_norm_limited(&self, limit: u32) -> (r: Velocity)
        ensures
            r == norm_limited_spec(*self, limit),
    {
        proof {
            assert(0 <= self.vx * self.vx <= 0x4000_0000_0000_0000) by (nonlinear_arith)
                requires -0x8000_0000 <= self.vx <= 0x8000_0000;
            assert(0 <= self.vy * self.vy <= 0x4000_0000_0000_0000) by (nonlinear_arith)
                requires -0x8000_0000 <= self.vy <= 0x8000_0000;
            assert(0 <= self.vz * self.vz <= 0x4000_0000_0000_0000) by (nonlinear_arith)
                requires -0x8000_0000 <= self.vz <= 0x8000_0000;
            assert(limit * limit <= 0xFFFF_FFFF * 0xFFFF_FFFF) by (nonlinear_arith)
                requires limit <= 0xFFFF_FFFF;
            assert(-0x8000_0000 * 0xFFFF_FFFF <= self.vx * limit <= 0x8000_0000 * 0xFFFF_FFFF) by (nonlinear_arith)
                requires -0x8000_0000 <= self.vx <= 0x8000_0000, 0 <= limit <= 0xFFFF_FFFF;
            assert(-0x8000_0000 * 0xFFFF_FFFF <= self.vy * limit <= 0x8000_0000 * 0xFFFF_FFFF) by (nonlinear_arith)
                requires -0x8000_0000 <= self.vy <= 0x8000_0000, 0 <= limit <= 0xFFFF_FFFF;
            assert(-0x8000_0000 * 0xFFFF_FFFF <= self.vz * limit <= 0x8000_0000 * 0xFFFF_FFFF) by (nonlinear_arith)
                requires -0x8000_0000 <= self.vz <= 0x8000_0000, 0 <= limit <= 0xFFFF_FFFF;
        }
        let n2: u128 = (self.vx as i128 * self.vx as i128) as u128 + (self.vy as i128 * self.vy as i128) as u128
            + (self.vz as i128 * self.vz as i128) as u128;
        if n2 <= limit as u128 * limit as u128 {
            return *self;
        }
        let nr = isqrt(n2);
        proof {
            lemma_isqrt_spec(n2 as nat);
            lemma_isqrt_unique(n2 as int, nr as int, isqrt_spec(n2 as nat) as int);
        }
        let nr1: i128 = nr as i128 + 1;
        Velocity {
            vx: clamp_to_i32(trunc_div_i128(self.vx as i128 * limit as i128, nr1)),
            vy: clamp_to_i32(trunc_div_i128(self.vy as i128 * limit as i128, nr1)),
            vz: clamp_to_i32(trunc_div_i128(self.vz as i128 * limit as i128, nr1)),
        }
    }

    /// Speed along `p` (millimetres per second, rounded toward zero); `p`
    /// must not be zero.
    pub fn paral_component_to(&self, p: &PosVec) -> (r: i128)
        requires
            dist_sq_spec(*p, PosVec { x: 0, y: 0, z: 0 }) > 0,
        ensures
            r == trunc_div(
                self.vx * p.x + self.vy * p.y + self.vz * p.z,
                isqrt_spec(dist_sq_spec(*p, PosVec { x: 0, y: 0, z: 0 }) as nat) as int,
            ),
    {
        let o = PosVec { x: 0, y: 0, z: 0 };
        let n = distance(p, &o);
        proof {
            let d = dist_sq_spec(*p, o);
            assert(d >= 0) by (nonlinear_arith)
                requires d == p.x * p.x + p.y * p.y + p.z * p.z;
            lemma_isqrt_spec(d as nat);
            assert(is_isqrt(d, n as int));
            if n == 0 {
                assert(d < 1) by (nonlinear_arith)
                    requires is_isqrt(d, 0);
            }
            lemma_dot_bound(*self, *p);
        }
        let k = dot_exec(self, p);
        trunc_div_i128(k, n as i128)
    }

    /// The part of this velocity along `p` (each coordinate rounded toward
    /// zero and clamped); `p` must not be zero.
    pub fn paral_to(&self, p: &PosVec) -> (r: Velocity)
        requires
            dist_sq_spec(*p, PosVec { x: 0, y: 0, z: 0 }) > 0,
        ensures
            r == paral_spec(*self, *p),
    {
        let o = PosVec { x: 0, y: 0, z: 0 };
        let dd = dist_sq(p, &o);
        proof {
            lemma_dot_bound(*self, *p);
        }
        let k = dot_exec(self, p);
        proof {
            assert(-0x8000_0000 * 0x3_0000_0000_0000_0000 <= p.x * k <= 0x8000_0000 * 0x3_0000_0000_0000_0000) by (nonlinear_arith)
                requires -0x8000_0000 <= p.x <= 0x8000_0000, -0x3_0000_0000_0000_0000 <= k <= 0x3_0000_0000_0000_0000;
            assert(-0x8000_0000 * 0x3_0000_0000_0000_0000 <= p.y * k <= 0x8000_0000 * 0x3_0000_0000_0000_0000) by (nonlinear_arith)
                requires -0x8000_0000 <= p.y <= 0x8000_0000, -0x3_0000_0000_0000_0000 <= k <= 0x3_0000_0000_0000_0000;
            assert(-0x8000_0000 * 0x3_0000_0000_0000_0000 <= p.z * k <= 0x8000_0000 * 0x3_0000_0000_0000_0000) by (nonlinear_arith)
                requires -0x8000_0000 <= p.z <= 0x8000_0000, -0x3_0000_0000_0000_0000 <= k <= 0x3_0000_0000_0000_0000;
        }
        Velocity {
            vx: clamp_to_i32(trunc_div_i128(p.x as i128 * k, dd as i128)),
            vy: clamp_to_i32(trunc_div_i128(p.y as i128 * k, dd as i128)),
            vz: clamp_to_i32(trunc_div_i128(p.z as i128 * k, dd as i128)),
        }
    }

    /// The part of this velocity across `p`: this velocity less its part
    /// along `p` (clamped); `p` must not be zero.
    pub fn perp_to(&self, p: &PosVec) -> (r: Velocity)
        requires
            dist_sq_spec(*p, PosVec { x: 0, y: 0, z: 0 }) > 0,
        ensures
            r == (Velocity {
                vx: clamp_i32(self.vx - paral_spec(*self, *p).vx),
                vy: clamp_i32(self.vy - paral_spec(*self, *p).vy),
                vz: clamp_i32(self.vz - paral_spec(*self, *p).vz),
            }),
    {
        let a = self.paral_to(p);
        Velocity {
            vx: clamp_to_i32(self.vx as i128 - a.vx as i128),
            vy: clamp_to_i32(self.vy as i128 - a.vy as i128),
            vz: clamp_to_i32(self.vz as i128 - a.vz as i128),
        }
    }

    /// Slows this velocity down to at most `limit` millimetres per second.
    pub fn limit_norm_to(&mut self, limit: u32)
        ensures
            *final(self) == norm_limited_spec(*old(self), limit),
    {
        *self = self.get_norm_limited(limit);
    }
}

} // verus!
