//! Geometry kernel over three-dimensional solubility coordinates.
//!
//! Coordinates are fixed-point integers: a component of `SCALE` stands for
//! one unit of a solubility parameter.  All distances returned by this module
//! are floors of the mathematical Euclidean distance in the same fixed-point
//! unit.

use vstd::prelude::*;
use crate::math::isqrt;
use crate::math::sqrt_floor;
use crate::codec::ID_LIMIT;

verus! {

/// Fixed-point unit: this many counts make one solubility-parameter unit.
pub const SCALE: i64 = 100_000;

/// Largest magnitude a coordinate component may have (1340 units).
pub const COORD_LIMIT: i64 = 134_000_000;

/// A point of the three-dimensional solubility space, in fixed point.
#[derive(Clone, Copy, Debug, PartialEq, Eq, Structural)]
pub struct Vec3 {
    pub x: i64,
    pub y: i64,
    pub z: i64,
}

impl Vec3 {
    /// Every component is within the supported coordinate range.
    pub open spec fn bounded(self) -> bool {
        &&& -COORD_LIMIT <= self.x <= COORD_LIMIT
        &&& -COORD_LIMIT <= self.y <= COORD_LIMIT
        &&& -COORD_LIMIT <= self.z <= COORD_LIMIT
    }
}

/// A solvent record: identifier, display name and fixed-point coordinates.
#[derive(Clone, Debug)]
pub struct Solvent {
    pub id: u64,
    pub solvent: String,
    pub d_d: i64,
    pub d_p: i64,
    pub d_h: i64,
}

/// A target compound record, in the same coordinate space as the solvents.
#[derive(Clone, Debug)]
pub struct Drug {
    pub id: u64,
    pub drug: String,
    pub d_d: i64,
    pub d_p: i64,
    pub d_h: i64,
}

impl Solvent {
    /// The coordinates of this solvent as a point.
    pub open spec fn spec_params(self) -> Vec3 {
        Vec3 { x: self.d_d, y: self.d_p, z: self.d_h }
    }

    /// Identifier fits the codec and the coordinates are in range.
    pub open spec fn wf(self) -> bool {
        self.id <= ID_LIMIT && self.spec_params().bounded()
    }

    /// The coordinates of this solvent as a point.
    pub fn params(&self) -> (v: Vec3)
        ensures
            v == self.spec_params(),
    {
        Vec3 { x: self.d_d, y: self.d_p, z: self.d_h }
    }
}

impl Drug {
    /// The coordinates of this compound as a point.
    pub open spec fn spec_params(self) -> Vec3 {
        Vec3 { x: self.d_d, y: self.d_p, z: self.d_h }
    }

    /// Identifier fits the codec and the coordinates are in range.
    pub open spec fn wf(self) -> bool {
        self.id <= ID_LIMIT && self.spec_params().bounded()
    }

    /// The coordinates of this compound as a point.
    pub fn params(&self) -> (v: Vec3)
        ensures
            v == self.spec_params(),
    {
        Vec3 { x: self.d_d, y: self.d_p, z: self.d_h }
    }
}

/// A blend of two solvents at a given ratio, with its blended coordinates.
#[derive(Clone, Debug)]
pub struct SolventMix {
    pub solvent_a: String,
    pub solvent_b: String,
    pub ratio_a: u8,
    pub ratio_b: u8,
    pub sol_params: Vec3,
}

/// Build a point from its three components.
pub open spec fn spec_vec3(x: i64, y: i64, z: i64) -> Vec3 {
    Vec3 { x: x, y: y, z: z }
}

/// Squared Euclidean distance between two points.
pub open spec fn spec_dist_sq(p: Vec3, q: Vec3) -> int {
    (q.x - p.x) * (q.x - p.x) + (q.y - p.y) * (q.y - p.y) + (q.z - p.z) * (q.z - p.z)
}

/// Euclidean distance between two points, rounded down to the fixed-point
/// grid.
pub open spec fn spec_standard_dist(p: Vec3, q: Vec3) -> int {
    sqrt_floor(spec_dist_sq(p, q) as nat) as int
}

/// Dot product of `end - start` with `p - end`: positive exactly when the
/// projection of `p` onto the segment's line falls beyond `end`.
pub open spec fn spec_seg_dot_end(p: Vec3, s: Vec3, e: Vec3) -> int {
    (e.x - s.x) * (p.x - e.x) + (e.y - s.y) * (p.y - e.y) + (e.z - s.z) * (p.z - e.z)
}

/// Dot product of `end - start` with `p - start`: negative exactly when the
/// projection of `p` onto the segment's line falls before `start`.
pub open spec fn spec_seg_dot_start(p: Vec3, s: Vec3, e: Vec3) -> int {
    (e.x - s.x) * (p.x - s.x) + (e.y - s.y) * (p.y - s.y) + (e.z - s.z) * (p.z - s.z)
}

/// Squared norm of the cross product of `end - start` and `start - p`.
pub open spec fn spec_cross_sq(p: Vec3, s: Vec3, e: Vec3) -> int {
    let ux = e.x - s.x;
    let uy = e.y - s.y;
    let uz = e.z - s.z;
    let wx = s.x - p.x;
    let wy = s.y - p.y;
    let wz = s.z - p.z;
    let c1 = uy * wz - uz * wy;
    let c2 = uz * wx - ux * wz;
    let c3 = ux * wy - uy * wx;
    c1 * c1 + c2 * c2 + c3 * c3
}

/// Distance from point `p` to the closed segment from `s` to `e`: the
/// distance to the nearer endpoint when the projection of `p` falls outside
/// the segment, the perpendicular distance otherwise, and the plain point
/// distance when the segment is degenerate.  In every case this is the
/// floor of the true distance: the perpendicular case divides the exact
/// squared cross product by the exact squared segment length before taking
/// the one floored root, and for integers `x, y > 0` the floor of
/// `sqrt(x / y)` equals `sqrt_floor` of the integer quotient `x / y`.
pub open spec fn spec_distance(p: Vec3, s: Vec3, e: Vec3) -> int {
    if spec_seg_dot_end(p, s, e) > 0 {
        spec_standard_dist(e, p)
    } else if spec_seg_dot_start(p, s, e) < 0 {
        spec_standard_dist(s, p)
    } else if spec_dist_sq(s, e) == 0 {
        spec_standard_dist(s, p)
    } else {
        sqrt_floor((spec_cross_sq(p, s, e) / spec_dist_sq(s, e)) as nat) as int
    }
}

/// Component of a blend: the ratio-weighted average of two components,
/// with `r` counted in hundredths.
pub open spec fn spec_blend1(u: int, v: int, r: int) -> int {
    (r * u + (100 - r) * v) / 100
}

/// Coordinates of the blend of points `p` and `q` at ratio `r` (in
/// hundredths) of `p`.
pub open spec fn spec_mixture(p: Vec3, q: Vec3, r: int) -> Vec3 {
    Vec3 {
        x: spec_blend1(p.x as int, q.x as int, r) as i64,
        y: spec_blend1(p.y as int, q.y as int, r) as i64,
        z: spec_blend1(p.z as int, q.z as int, r) as i64,
    }
}

/// The product of two values bounded by `m` is bounded by `m * m`.
proof fn lemma_mul_bound(x: int, y: int, m: int)
    requires
        -m <= x <= m,
        -m <= y <= m,
        0 <= m,
    ensures
        -(m * m) <= x * y <= m * m,
{
    assert(-(m * m) <= x * y <= m * m) by (nonlinear_arith)
        requires
            -m <= x <= m,
            -m <= y <= m,
            0 <= m,
    ;
}

/// Square of a coordinate difference, exactly, in 64 bits.
fn sq_u64(d: i64) -> (r: u64)
    requires
        -300_000_000 <= d <= 300_000_000,
    ensures
        r == d * d,
{
    let m: u64 = if d >= 0 {
        d as u64
    } else {
        (-d) as u64
    };
    proof {
        assert(m * m == d * d && m * m <= 300_000_000i64 * 300_000_000i64) by (nonlinear_arith)
            requires
                m == d || m == -d,
                -300_000_000 <= d <= 300_000_000,
        ;
    }
    m * m
}

/// Square of a cross-product component, exactly, in 128 bits.
fn sq_u128(d: i64) -> (r: u128)
    requires
        -200_000_000_000_000_000 <= d <= 200_000_000_000_000_000,
    ensures
        r == d * d,
{
    let m: u64 = if d >= 0 {
        d as u64
    } else {
        (-d) as u64
    };
    proof {
        assert((m as u128) * (m as u128) == d * d && (m as u128) * (m as u128)
            <= 200_000_000_000_000_000i64 * 200_000_000_000_000_000i64) by (nonlinear_arith)
            requires
                m == d || m == -d,
                -200_000_000_000_000_000 <= d <= 200_000_000_000_000_000,
        ;
    }
    (m as u128) * (m as u128)
}

/// Euclidean distance between the points `(a_x, a_y, a_z)` and
/// `(b_x, b_y, b_z)`, rounded down to the fixed-point grid.
pub fn standard_dist(a_x: i64, a_y: i64, a_z: i64, b_x: i64, b_y: i64, b_z: i64) -> (r: u64)
    requires
        (spec_vec3(a_x, a_y, a_z)).bounded(),
        (spec_vec3(b_x, b_y, b_z)).bounded(),
    ensures
        r == spec_standard_dist(spec_vec3(a_x, a_y, a_z), spec_vec3(b_x, b_y, b_z)),
{
    let dx: i64 = b_x - a_x;
    let dy: i64 = b_y - a_y;
    let dz: i64 = b_z - a_z;
    let sx: u64 = sq_u64(dx);
    let sy: u64 = sq_u64(dy);
    let sz: u64 = sq_u64(dz);
    proof {
        lemma_mul_bound(dx as int, dx as int, 300_000_000);
        lemma_mul_bound(dy as int, dy as int, 300_000_000);
        lemma_mul_bound(dz as int, dz as int, 300_000_000);
        assert(300_000_000i64 * 300_000_000i64 == 90_000_000_000_000_000i64) by (nonlinear_arith);
    }
    let sum: u64 = sx + sy + sz;
    isqrt(sum as u128)
}

/// Shortest distance from a compound to the closed segment between `start`
/// and `end`, following the projection test and, for interior projections,
/// the cross-product formula; a degenerate segment falls back to the point
/// distance.
pub fn distance(drug: &Drug, start: &Vec3, end: &Vec3) -> (r: u64)
    requires
        drug.spec_params().bounded(),
        start.bounded(),
        end.bounded(),
    ensures
        r == spec_distance(drug.spec_params(), *start, *end),
{
    let p = drug.params();
    let ux: i64 = end.x - start.x;
    let uy: i64 = end.y - start.y;
    let uz: i64 = end.z - start.z;
    proof {
        lemma_mul_bound((ux) as int, (p.x - end.x) as int, 300_000_000);
        lemma_mul_bound((uy) as int, (p.y - end.y) as int, 300_000_000);
        lemma_mul_bound((uz) as int, (p.z - end.z) as int, 300_000_000);
        assert(300_000_000i64 * 300_000_000i64 == 90_000_000_000_000_000i64) by (nonlinear_arith);
    }
    let ab_be: i64 = ux * (p.x - end.x) + uy * (p.y - end.y) + uz * (p.z - end.z);
    if ab_be > 0 {
        // the end point is the nearest part of the segment
        return standard_dist(end.x, end.y, end.z, p.x, p.y, p.z);
    }
    proof {
        lemma_mul_bound((ux) as int, (p.x - start.x) as int, 300_000_000);
        lemma_mul_bound((uy) as int, (p.y - start.y) as int, 300_000_000);
        lemma_mul_bound((uz) as int, (p.z - start.z) as int, 300_000_000);
    }
    let ab_ae: i64 = ux * (p.x - start.x) + uy * (p.y - start.y) + uz * (p.z - start.z);
    if ab_ae < 0 {
        // the start point is the nearest part of the segment
        return standard_dist(start.x, start.y, start.z, p.x, p.y, p.z);
    }
    proof {
        lemma_mul_bound(ux as int, ux as int, 300_000_000);
        lemma_mul_bound(uy as int, uy as int, 300_000_000);
        lemma_mul_bound(uz as int, uz as int, 300_000_000);
    }
    let den_sq: u64 = sq_u64(ux) + sq_u64(uy) + sq_u64(uz);
    if den_sq == 0 {
        // degenerate segment: both endpoints coincide
        return standard_dist(start.x, start.y, start.z, p.x, p.y, p.z);
    }
    let wx: i64 = start.x - p.x;
    let wy: i64 = start.y - p.y;
    let wz: i64 = start.z - p.z;
    proof {
        lemma_mul_bound(uy as int, wz as int, 300_000_000);
        lemma_mul_bound(uz as int, wy as int, 300_000_000);
        lemma_mul_bound(uz as int, wx as int, 300_000_000);
        lemma_mul_bound(ux as int, wz as int, 300_000_000);
        lemma_mul_bound(ux as int, wy as int, 300_000_000);
        lemma_mul_bound(uy as int, wx as int, 300_000_000);
    }
    let c1: i64 = uy * wz - uz * wy;
    let c2: i64 = uz * wx - ux * wz;
    let c3: i64 = ux * wy - uy * wx;
    proof {
        lemma_mul_bound(c1 as int, c1 as int, 200_000_000_000_000_000);
        lemma_mul_bound(c2 as int, c2 as int, 200_000_000_000_000_000);
        lemma_mul_bound(c3 as int, c3 as int, 200_000_000_000_000_000);
    }
    let cross: u128 = sq_u128(c1) + sq_u128(c2) + sq_u128(c3);
    // divide the exact squares first, then take the one floored root: the
    // result is the floor of the true perpendicular distance
    let quot: u128 = cross / (den_sq as u128);
    proof {
        assert(quot == spec_cross_sq(drug.spec_params(), *start, *end) / spec_dist_sq(
            *start,
            *end,
        ));
        assert(quot <= cross);
    }
    isqrt(quot)
}

/// Blend component at ratio `r` (in hundredths): the floor of the weighted
/// average of `u` and `v`.
fn blend1(u: i64, v: i64, r: u8) -> (w: i64)
    requires
        -COORD_LIMIT <= u <= COORD_LIMIT,
        -COORD_LIMIT <= v <= COORD_LIMIT,
        r <= 100,
    ensures
        w == spec_blend1(u as int, v as int, r as int),
        -COORD_LIMIT <= w <= COORD_LIMIT,
{
    proof {
        assert(-100 * COORD_LIMIT <= (r as int) * u + (100 - r as int) * v <= 100 * COORD_LIMIT)
            by (nonlinear_arith)
            requires
                -COORD_LIMIT <= u <= COORD_LIMIT,
                -COORD_LIMIT <= v <= COORD_LIMIT,
                0 <= r as int <= 100,
        ;
        lemma_mul_bound(r as int, u as int, 200_000_000);
        lemma_mul_bound((100 - r as int), v as int, 200_000_000);
    }
    let num: i64 = (r as i64) * u + (100 - r as i64) * v;
    let sh: u64 = (num + 100 * COORD_LIMIT) as u64;
    let q: u64 = sh / 100;
    let w: i64 = (q as i64) - COORD_LIMIT;
    proof {
        assert(sh == num + 100 * COORD_LIMIT);
        assert(q == (num + 100 * COORD_LIMIT) / 100);
        assert((num + 100 * COORD_LIMIT) / 100 == num / 100 + COORD_LIMIT) by (nonlinear_arith)
            requires
                -100 * COORD_LIMIT <= num,
        ;
        assert(-COORD_LIMIT <= num / 100 <= COORD_LIMIT) by (nonlinear_arith)
            requires
                -100 * COORD_LIMIT <= num <= 100 * COORD_LIMIT,
        ;
    }
    w
}

/// Blend of two solvents: `r_a` hundredths of `a` and the rest of `b`,
/// with the blended coordinates attached.
pub fn mixture(a: &Solvent, b: &Solvent, r_a: u8) -> (mix: SolventMix)
    requires
        a.spec_params().bounded(),
        b.spec_params().bounded(),
        r_a <= 100,
    ensures
        mix.solvent_a@ == a.solvent@,
        mix.solvent_b@ == b.solvent@,
        mix.ratio_a == r_a,
        mix.ratio_b == 100 - r_a,
        mix.ratio_a + mix.ratio_b == 100,
        mix.sol_params == spec_mixture(a.spec_params(), b.spec_params(), r_a as int),
        mix.sol_params.bounded(),
{
    let r_b: u8 = 100 - r_a;
    let sol_params = Vec3 {
        x: blend1(a.d_d, b.d_d, r_a),
        y: blend1(a.d_p, b.d_p, r_a),
        z: blend1(a.d_h, b.d_h, r_a),
    };
    SolventMix {
        solvent_a: a.solvent.clone(),
        solvent_b: b.solvent.clone(),
        ratio_a: r_a,
        ratio_b: r_b,
        sol_params: sol_params,
    }
}

/// The achievable blend continuum of a solvent pair: the blend at ratio
/// 90/10 and the blend at ratio 10/90 (more extreme ratios are excluded by
/// design).
pub fn line_segment(a: &Solvent, b: &Solvent) -> (seg: (Vec3, Vec3))
    requires
        a.spec_params().bounded(),
        b.spec_params().bounded(),
    ensures
        seg.0 == spec_mixture(a.spec_params(), b.spec_params(), 90),
        seg.1 == spec_mixture(a.spec_params(), b.spec_params(), 10),
        seg.0.bounded(),
        seg.1.bounded(),
{
    let start: SolventMix = mixture(a, b, 90);
    let end: SolventMix = mixture(a, b, 10);
    (start.sol_params, end.sol_params)
}

/// A blend at ratio 100 has exactly the first component's coordinates, and
/// a blend at ratio 0 exactly the second's.
pub proof fn lemma_mixture_endpoints(p: Vec3, q: Vec3)
    ensures
        spec_mixture(p, q, 100) == p,
        spec_mixture(p, q, 0) == q,
{
    assert(100 * (p.x as int) + 0 * (q.x as int) == 100 * (p.x as int)) by (nonlinear_arith);
    assert(forall|u: int| #[trigger] (100 * u) / 100 == u) by {
        assert forall|u: int| #[trigger] (100 * u) / 100 == u by {
            vstd::arithmetic::div_mod::lemma_div_multiples_vanish(u, 100);
        }
    }
    assert(spec_blend1(p.x as int, q.x as int, 100) == p.x as int) by {
        assert(100 * (p.x as int) + (100 - 100) * (q.x as int) == 100 * (p.x as int))
            by (nonlinear_arith);
    }
    assert(spec_blend1(p.y as int, q.y as int, 100) == p.y as int) by {
        assert(100 * (p.y as int) + (100 - 100) * (q.y as int) == 100 * (p.y as int))
            by (nonlinear_arith);
    }
    assert(spec_blend1(p.z as int, q.z as int, 100) == p.z as int) by {
        assert(100 * (p.z as int) + (100 - 100) * (q.z as int) == 100 * (p.z as int))
            by (nonlinear_arith);
    }
    assert(spec_blend1(p.x as int, q.x as int, 0) == q.x as int) by {
        assert(0 * (p.x as int) + (100 - 0) * (q.x as int) == 100 * (q.x as int))
            by (nonlinear_arith);
    }
    assert(spec_blend1(p.y as int, q.y as int, 0) == q.y as int) by {
        assert(0 * (p.y as int) + (100 - 0) * (q.y as int) == 100 * (q.y as int))
            by (nonlinear_arith);
    }
    assert(spec_blend1(p.z as int, q.z as int, 0) == q.z as int) by {
        assert(0 * (p.z as int) + (100 - 0) * (q.z as int) == 100 * (q.z as int))
            by (nonlinear_arith);
    }
}

/// Square of a difference, expanded.
proof fn lemma_sq_diff(a: int, b: int)
    ensures
        (a - b) * (a - b) == a * a - 2 * (a * b) + b * b,
{
    assert((a - b) * (a - b) == a * a - 2 * (a * b) + b * b) by (nonlinear_arith);
}

/// Square of a three-term sum, expanded.
proof fn lemma_sq_sum3(a: int, b: int, c: int)
    ensures
        (a + b + c) * (a + b + c) == a * a + b * b + c * c + 2 * (a * b) + 2 * (a * c) + 2 * (b
            * c),
{
    assert((a + b + c) * (a + b + c) == a * a + b * b + c * c + 2 * (a * b) + 2 * (a * c) + 2 * (
    b * c)) by (nonlinear_arith);
}

/// Product of two three-term sums, distributed.
proof fn lemma_distribute33(a: int, b: int, c: int, d: int, e: int, f: int)
    ensures
        (a + b + c) * (d + e + f) == a * d + a * e + a * f + b * d + b * e + b * f + c * d + c
            * e + c * f,
{
    assert((a + b + c) * (d + e + f) == a * d + a * e + a * f + b * d + b * e + b * f + c * d + c
        * e + c * f) by (nonlinear_arith);
}

/// A product of two squares is the square of the product.
proof fn lemma_prod_sq(x: int, w: int)
    ensures
        (x * x) * (w * w) == (x * w) * (x * w),
{
    assert((x * x) * (w * w) == (x * w) * (x * w)) by (nonlinear_arith);
}

/// Two mixed products of four factors are equal however they pair up.
proof fn lemma_prod_swap(x: int, y: int, z: int, w: int)
    ensures
        (x * z) * (y * w) == (x * w) * (y * z),
{
    assert((x * z) * (y * w) == (x * w) * (y * z)) by (nonlinear_arith);
}

/// Lagrange's identity in three dimensions: the squared cross product plus
/// the squared dot product of two vectors is the product of their squared
/// norms.
proof fn lemma_lagrange(ux: int, uy: int, uz: int, wx: int, wy: int, wz: int)
    ensures
        (uy * wz - uz * wy) * (uy * wz - uz * wy) + (uz * wx - ux * wz) * (uz * wx - ux * wz) + (
        ux * wy - uy * wx) * (ux * wy - uy * wx) + (ux * wx + uy * wy + uz * wz) * (ux * wx + uy
            * wy + uz * wz) == (ux * ux + uy * uy + uz * uz) * (wx * wx + wy * wy + wz * wz),
{
    lemma_sq_diff(uy * wz, uz * wy);
    lemma_sq_diff(uz * wx, ux * wz);
    lemma_sq_diff(ux * wy, uy * wx);
    lemma_sq_sum3(ux * wx, uy * wy, uz * wz);
    lemma_distribute33(ux * ux, uy * uy, uz * uz, wx * wx, wy * wy, wz * wz);
    lemma_prod_sq(ux, wx);
    lemma_prod_sq(ux, wy);
    lemma_prod_sq(ux, wz);
    lemma_prod_sq(uy, wx);
    lemma_prod_sq(uy, wy);
    lemma_prod_sq(uy, wz);
    lemma_prod_sq(uz, wx);
    lemma_prod_sq(uz, wy);
    lemma_prod_sq(uz, wz);
    lemma_prod_swap(ux, uy, wx, wy);
    lemma_prod_swap(ux, uz, wx, wz);
    lemma_prod_swap(uy, uz, wy, wz);
}

/// The distance to a closed segment never exceeds the distance to either
/// of its endpoints.
pub proof fn lemma_distance_le_endpoints(p: Vec3, s: Vec3, e: Vec3)
    ensures
        spec_distance(p, s, e) <= spec_standard_dist(s, p),
        spec_distance(p, s, e) <= spec_standard_dist(e, p),
{
    let dsp = spec_dist_sq(s, p);
    let dep = spec_dist_sq(e, p);
    let den = spec_dist_sq(s, e);
    let de = spec_seg_dot_end(p, s, e);
    let ds = spec_seg_dot_start(p, s, e);
    assert(0 <= dsp && 0 <= dep && 0 <= den) by (nonlinear_arith)
        requires
            dsp == (p.x - s.x) * (p.x - s.x) + (p.y - s.y) * (p.y - s.y) + (p.z - s.z) * (p.z
                - s.z),
            dep == (p.x - e.x) * (p.x - e.x) + (p.y - e.y) * (p.y - e.y) + (p.z - e.z) * (p.z
                - e.z),
            den == (e.x - s.x) * (e.x - s.x) + (e.y - s.y) * (e.y - s.y) + (e.z - s.z) * (e.z
                - s.z),
    ;
    if de > 0 {
        // the projection falls beyond the end: the start is at least as far
        assert(dsp == dep + den + 2 * de) by (nonlinear_arith)
            requires
                dsp == (p.x - s.x) * (p.x - s.x) + (p.y - s.y) * (p.y - s.y) + (p.z - s.z) * (
                p.z - s.z),
                dep == (p.x - e.x) * (p.x - e.x) + (p.y - e.y) * (p.y - e.y) + (p.z - e.z) * (
                p.z - e.z),
                den == (e.x - s.x) * (e.x - s.x) + (e.y - s.y) * (e.y - s.y) + (e.z - s.z) * (
                e.z - s.z),
                de == (e.x - s.x) * (p.x - e.x) + (e.y - s.y) * (p.y - e.y) + (e.z - s.z) * (
                p.z - e.z),
        ;
        crate::math::lemma_sqrt_floor_mono(dep as nat, dsp as nat);
    } else if ds < 0 {
        // the projection falls before the start: the end is at least as far
        assert(dep == dsp + den - 2 * ds) by (nonlinear_arith)
            requires
                dsp == (p.x - s.x) * (p.x - s.x) + (p.y - s.y) * (p.y - s.y) + (p.z - s.z) * (
                p.z - s.z),
                dep == (p.x - e.x) * (p.x - e.x) + (p.y - e.y) * (p.y - e.y) + (p.z - e.z) * (
                p.z - e.z),
                den == (e.x - s.x) * (e.x - s.x) + (e.y - s.y) * (e.y - s.y) + (e.z - s.z) * (
                e.z - s.z),
                ds == (e.x - s.x) * (p.x - s.x) + (e.y - s.y) * (p.y - s.y) + (e.z - s.z) * (
                p.z - s.z),
        ;
        crate::math::lemma_sqrt_floor_mono(dsp as nat, dep as nat);
    } else if den == 0 {
        // degenerate: both endpoints coincide
        assert(e.x == s.x && e.y == s.y && e.z == s.z) by (nonlinear_arith)
            requires
                den == (e.x - s.x) * (e.x - s.x) + (e.y - s.y) * (e.y - s.y) + (e.z - s.z) * (
                e.z - s.z),
                den == 0,
        ;
        assert(dsp == dep);
    } else {
        // interior: by Lagrange's identity the squared cross product is at
        // most the squared segment length times either squared endpoint
        // distance; the cross product is the same against both endpoint
        // offsets
        let cs = spec_cross_sq(p, s, e);
        let ux = e.x - s.x;
        let uy = e.y - s.y;
        let uz = e.z - s.z;
        let wx = s.x - p.x;
        let wy = s.y - p.y;
        let wz = s.z - p.z;
        let vx = wx + ux;
        let vy = wy + uy;
        let vz = wz + uz;
        let c1 = uy * wz - uz * wy;
        let c2 = uz * wx - ux * wz;
        let c3 = ux * wy - uy * wx;
        assert(cs == c1 * c1 + c2 * c2 + c3 * c3);
        assert(0 <= cs) by (nonlinear_arith)
            requires
                cs == c1 * c1 + c2 * c2 + c3 * c3,
        ;
        assert(dsp == wx * wx + wy * wy + wz * wz) by (nonlinear_arith)
            requires
                dsp == (p.x - s.x) * (p.x - s.x) + (p.y - s.y) * (p.y - s.y) + (p.z - s.z) * (
                p.z - s.z),
                wx == s.x - p.x,
                wy == s.y - p.y,
                wz == s.z - p.z,
        ;
        assert(dep == vx * vx + vy * vy + vz * vz) by (nonlinear_arith)
            requires
                dep == (p.x - e.x) * (p.x - e.x) + (p.y - e.y) * (p.y - e.y) + (p.z - e.z) * (
                p.z - e.z),
                vx == (s.x - p.x) + (e.x - s.x),
                vy == (s.y - p.y) + (e.y - s.y),
                vz == (s.z - p.z) + (e.z - s.z),
        ;
        // the segment offset drops out of the cross product
        assert(uy * vz - uz * vy == c1 && uz * vx - ux * vz == c2 && ux * vy - uy * vx == c3)
            by (nonlinear_arith)
            requires
                vx == wx + ux,
                vy == wy + uy,
                vz == wz + uz,
                c1 == uy * wz - uz * wy,
                c2 == uz * wx - ux * wz,
                c3 == ux * wy - uy * wx,
        ;
        lemma_lagrange(ux, uy, uz, wx, wy, wz);
        lemma_lagrange(ux, uy, uz, vx, vy, vz);
        let dd = ux * wx + uy * wy + uz * wz;
        let dv = ux * vx + uy * vy + uz * vz;
        assert(cs + dd * dd == den * dsp);
        assert(cs + dv * dv == den * dep);
        assert(0 <= dd * dd && 0 <= dv * dv) by (nonlinear_arith);
        assert(cs <= den * dsp && cs <= den * dep);
        assert(cs / den <= dsp && cs / den <= dep && 0 <= cs / den) by (nonlinear_arith)
            requires
                0 <= cs,
                1 <= den,
                cs <= den * dsp,
                cs <= den * dep,
                0 <= dsp,
                0 <= dep,
        ;
        crate::math::lemma_sqrt_floor_mono((cs / den) as nat, dsp as nat);
        crate::math::lemma_sqrt_floor_mono((cs / den) as nat, dep as nat);
    }
}

/// The distance to a degenerate segment is the plain point distance to its
/// (single) endpoint.
pub proof fn lemma_degenerate_segment(p: Vec3, s: Vec3)
    ensures
        spec_distance(p, s, s) == spec_standard_dist(s, p),
{
    assert(spec_seg_dot_end(p, s, s) == 0);
    assert(spec_seg_dot_start(p, s, s) == 0);
    assert(spec_dist_sq(s, s) == 0);
}

} // verus!
