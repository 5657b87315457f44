//! Points, vectors and triangles.
//!
//! A triangle knows its axis-aligned bounding box and the barycentric
//! coordinates of an arbitrary query point. The barycentric numerators are
//! exact signed doubled areas; the normalized coordinates divide them by the
//! sum of their magnitudes, mirroring the renderer's sign conventions.

use vstd::prelude::*;

verus! {

use crate::fixed::{
    Fx, SCALE, tdiv, abs_int, floor_raw, ceil_raw, is_sqrt_floor, sqrt_floor, fx_div_spec,
    lemma_sqrt_floor_unique, lemma_tdiv_bound, lemma_tdiv_sign, tdiv_i128, isqrt_u128,
    floor_div_i64,
};
use vstd::arithmetic::div_mod::{
    lemma_div_by_multiple, lemma_mod_multiples_basic, lemma_div_multiples_vanish, lemma_div_of0,
};

/// Raw-coordinate magnitude (2^31, i.e. 32768 whole units) under which all
/// geometry routines are free of overflow.
pub const COORD_LIM: i64 = 0x8000_0000;

/// A 2D point.
#[derive(Clone, Copy, PartialEq, Eq, Structural, Debug)]
pub struct Point {
    pub x: Fx,
    pub y: Fx,
}

/// A 3D point (also used as a vector).
#[derive(Clone, Copy, PartialEq, Eq, Structural, Debug)]
pub struct Point3D {
    pub x: Fx,
    pub y: Fx,
    pub z: Fx,
}

/// A triangle: exactly three vertices.
#[derive(Clone, Copy, Debug)]
pub struct Triangle {
    pub vertices: [Point3D; 3],
}

/// The coordinate magnitudes of a scalar are within the overflow-safe range.
pub open spec fn fx_ok(v: Fx) -> bool {
    -(COORD_LIM as int) <= v.raw <= COORD_LIM as int
}

/// All three coordinates of a point are within the overflow-safe range.
pub open spec fn pt_ok(p: Point3D) -> bool {
    fx_ok(p.x) && fx_ok(p.y) && fx_ok(p.z)
}

/// The loose magnitude bound under which squaring still fits the wide
/// intermediate range; vectors built from products of ordinary coordinates
/// satisfy it.
pub open spec fn fx_wide_ok(v: Fx) -> bool {
    -0x4000_0000_0000_0000 <= v.raw <= 0x4000_0000_0000_0000
}

/// All three coordinates are within the loose range.
pub open spec fn pt_wide_ok(p: Point3D) -> bool {
    fx_wide_ok(p.x) && fx_wide_ok(p.y) && fx_wide_ok(p.z)
}

/// A query (scan) point may overhang the vertex range by up to a whole
/// unit; twice the vertex range is comfortably safe.
pub open spec fn fx_scan_ok(v: Fx) -> bool {
    -2 * (COORD_LIM as int) <= v.raw <= 2 * (COORD_LIM as int)
}

/// All vertices of a triangle are within the overflow-safe range.
pub open spec fn tri_ok(t: Triangle) -> bool {
    pt_ok(t.vertices@[0]) && pt_ok(t.vertices@[1]) && pt_ok(t.vertices@[2])
}

/// 2D cross product (signed doubled area of the parallelogram on `a`, `b`).
pub open spec fn cross2(ax: int, ay: int, bx: int, by: int) -> int {
    ax * by - ay * bx
}

/// Raw x coordinate of vertex `i`.
pub open spec fn vx(t: Triangle, i: int) -> int {
    t.vertices@[i].x.raw as int
}

/// Raw y coordinate of vertex `i`.
pub open spec fn vy(t: Triangle, i: int) -> int {
    t.vertices@[i].y.raw as int
}

/// Raw z coordinate of vertex `i`.
pub open spec fn vz(t: Triangle, i: int) -> int {
    t.vertices@[i].z.raw as int
}

/// Barycentric numerator for vertex 0: the signed doubled area spanned by
/// the edges from the query point to vertices 1 and 2.
pub open spec fn bary_num0(t: Triangle, px: int, py: int) -> int {
    cross2(vx(t, 1) - px, vy(t, 1) - py, vx(t, 2) - px, vy(t, 2) - py)
}

/// Barycentric numerator for vertex 1.
pub open spec fn bary_num1(t: Triangle, px: int, py: int) -> int {
    -cross2(vx(t, 0) - px, vy(t, 0) - py, vx(t, 2) - px, vy(t, 2) - py)
}

/// Barycentric numerator for vertex 2.
pub open spec fn bary_num2(t: Triangle, px: int, py: int) -> int {
    cross2(vx(t, 0) - px, vy(t, 0) - py, vx(t, 1) - px, vy(t, 1) - py)
}

/// Normalizer of the barycentric coordinates: the sum of the numerators'
/// magnitudes. Zero exactly when the point lies on the line of a degenerate
/// triangle.
pub open spec fn bary_den(t: Triangle, px: int, py: int) -> int {
    abs_int(bary_num0(t, px, py)) + abs_int(bary_num1(t, px, py)) + abs_int(
        bary_num2(t, px, py),
    )
}

/// A normalized barycentric coordinate in fixed-point: `num / den`, scaled.
pub open spec fn bary_coord(num: int, den: int) -> int {
    tdiv(num * SCALE, den)
}

/// Signed doubled area of the triangle itself.
pub open spec fn double_area(t: Triangle) -> int {
    cross2(vx(t, 1) - vx(t, 0), vy(t, 1) - vy(t, 0), vx(t, 2) - vx(t, 0), vy(t, 2) - vy(t, 0))
}

/// The query point lies in the triangle: every barycentric numerator is
/// non-negative and they are not all zero. This is the predicate the
/// rasterizer fills.
pub open spec fn in_tri(t: Triangle, px: int, py: int) -> bool {
    &&& bary_den(t, px, py) > 0
    &&& bary_num0(t, px, py) >= 0
    &&& bary_num1(t, px, py) >= 0
    &&& bary_num2(t, px, py) >= 0
}

/// Half-plane side test: the signed doubled area of `(a, b, p)`, positive
/// when `p` lies to the left of the directed edge `a -> b`.
pub open spec fn edge_side(ax: int, ay: int, bx: int, by: int, px: int, py: int) -> int {
    (bx - ax) * (py - ay) - (by - ay) * (px - ax)
}

/// The three barycentric numerators sum to the triangle's signed doubled
/// area, independently of the query point.
pub proof fn lemma_bary_sum(t: Triangle, px: int, py: int)
    ensures
        bary_num0(t, px, py) + bary_num1(t, px, py) + bary_num2(t, px, py) == double_area(t),
{
    lemma_cross_sum(vx(t, 0), vy(t, 0), vx(t, 1), vy(t, 1), vx(t, 2), vy(t, 2), px, py);
}

/// Polynomial identity behind [`lemma_bary_sum`], stated over plain
/// integers.
#[verifier::rlimit(50)]
proof fn lemma_cross_sum(x0: int, y0: int, x1: int, y1: int, x2: int, y2: int, px: int, py: int)
    by (nonlinear_arith)
    ensures
        ((x1 - px) * (y2 - py) - (y1 - py) * (x2 - px)) - ((x0 - px) * (y2 - py) - (y0 - py) * (
        x2 - px)) + ((x0 - px) * (y1 - py) - (y0 - py) * (x1 - px)) == (x1 - x0) * (y2 - y0) - (
        y1 - y0) * (x2 - x0),
{
}

/// Each barycentric numerator is the half-plane test of the opposite edge.
pub proof fn lemma_bary_is_edge_side(t: Triangle, px: int, py: int)
    ensures
        bary_num0(t, px, py) == edge_side(vx(t, 1), vy(t, 1), vx(t, 2), vy(t, 2), px, py),
        bary_num1(t, px, py) == edge_side(vx(t, 2), vy(t, 2), vx(t, 0), vy(t, 0), px, py),
        bary_num2(t, px, py) == edge_side(vx(t, 0), vy(t, 0), vx(t, 1), vy(t, 1), px, py),
{
    assert(cross2(vx(t, 1) - px, vy(t, 1) - py, vx(t, 2) - px, vy(t, 2) - py) == edge_side(
        vx(t, 1), vy(t, 1), vx(t, 2), vy(t, 2), px, py)) by (nonlinear_arith);
    assert(-cross2(vx(t, 0) - px, vy(t, 0) - py, vx(t, 2) - px, vy(t, 2) - py) == edge_side(
        vx(t, 2), vy(t, 2), vx(t, 0), vy(t, 0), px, py)) by (nonlinear_arith);
    assert(cross2(vx(t, 0) - px, vy(t, 0) - py, vx(t, 1) - px, vy(t, 1) - py) == edge_side(
        vx(t, 0), vy(t, 0), vx(t, 1), vy(t, 1), px, py)) by (nonlinear_arith);
}

/// Membership agrees with an independent half-plane test: for any
/// non-degenerate triangle, a point is accepted exactly when it lies on the
/// non-negative side of all three directed edges.
pub proof fn lemma_point_in_triangle_halfplane(t: Triangle, px: int, py: int)
    requires
        double_area(t) != 0,
    ensures
        in_tri(t, px, py) <==> {
            &&& edge_side(vx(t, 1), vy(t, 1), vx(t, 2), vy(t, 2), px, py) >= 0
            &&& edge_side(vx(t, 2), vy(t, 2), vx(t, 0), vy(t, 0), px, py) >= 0
            &&& edge_side(vx(t, 0), vy(t, 0), vx(t, 1), vy(t, 1), px, py) >= 0
        },
{
    lemma_bary_is_edge_side(t, px, py);
    lemma_bary_sum(t, px, py);
}

/// A cross product with a zero first column vanishes.
proof fn lemma_cross2_zero_left(bx: int, by: int)
    ensures
        cross2(0, 0, bx, by) == 0,
{
    lemma_mul_zero(by, 0);
    lemma_mul_zero(bx, 0);
}

/// A cross product with a zero second column vanishes.
proof fn lemma_cross2_zero_right(ax: int, ay: int)
    ensures
        cross2(ax, ay, 0, 0) == 0,
{
    lemma_mul_zero(ax, 0);
    lemma_mul_zero(ay, 0);
}

/// At each vertex of a positively oriented non-degenerate triangle, the
/// barycentric coordinates are exactly one unit at that vertex's position
/// and zero at the other two.
pub proof fn lemma_barycentric_at_vertices(t: Triangle)
    requires
        double_area(t) > 0,
    ensures
        bary_coord(bary_num0(t, vx(t, 0), vy(t, 0)), bary_den(t, vx(t, 0), vy(t, 0)))
            == SCALE,
        bary_coord(bary_num1(t, vx(t, 0), vy(t, 0)), bary_den(t, vx(t, 0), vy(t, 0))) == 0,
        bary_coord(bary_num2(t, vx(t, 0), vy(t, 0)), bary_den(t, vx(t, 0), vy(t, 0))) == 0,
        bary_coord(bary_num0(t, vx(t, 1), vy(t, 1)), bary_den(t, vx(t, 1), vy(t, 1))) == 0,
        bary_coord(bary_num1(t, vx(t, 1), vy(t, 1)), bary_den(t, vx(t, 1), vy(t, 1)))
            == SCALE,
        bary_coord(bary_num2(t, vx(t, 1), vy(t, 1)), bary_den(t, vx(t, 1), vy(t, 1))) == 0,
        bary_coord(bary_num0(t, vx(t, 2), vy(t, 2)), bary_den(t, vx(t, 2), vy(t, 2))) == 0,
        bary_coord(bary_num1(t, vx(t, 2), vy(t, 2)), bary_den(t, vx(t, 2), vy(t, 2))) == 0,
        bary_coord(bary_num2(t, vx(t, 2), vy(t, 2)), bary_den(t, vx(t, 2), vy(t, 2)))
            == SCALE,
{
    let d = double_area(t);
    assert(d * SCALE > 0) by (nonlinear_arith)
        requires
            d > 0,
            SCALE as int > 0;
    lemma_div_multiples_vanish(SCALE as int, d);
    // vertex 0: both numerators built on the edge to vertex 0 vanish
    lemma_cross2_zero_left(vx(t, 2) - vx(t, 0), vy(t, 2) - vy(t, 0));
    lemma_cross2_zero_left(vx(t, 1) - vx(t, 0), vy(t, 1) - vy(t, 0));
    lemma_bary_sum(t, vx(t, 0), vy(t, 0));
    assert(bary_num0(t, vx(t, 0), vy(t, 0)) == d);
    lemma_div_of0(d);
    // vertex 1
    lemma_cross2_zero_left(vx(t, 2) - vx(t, 1), vy(t, 2) - vy(t, 1));
    lemma_cross2_zero_right(vx(t, 0) - vx(t, 1), vy(t, 0) - vy(t, 1));
    lemma_bary_sum(t, vx(t, 1), vy(t, 1));
    assert(bary_num1(t, vx(t, 1), vy(t, 1)) == d);
    // vertex 2
    lemma_cross2_zero_right(vx(t, 1) - vx(t, 2), vy(t, 1) - vy(t, 2));
    lemma_cross2_zero_right(vx(t, 0) - vx(t, 2), vy(t, 0) - vy(t, 2));
    lemma_bary_sum(t, vx(t, 2), vy(t, 2));
    assert(bary_num2(t, vx(t, 2), vy(t, 2)) == d);
}

/// The magnitude of a product is bounded by the product of the magnitudes.
pub proof fn lemma_abs_mul_bound(a: int, b: int, ba: int, bb: int)
    by (nonlinear_arith)
    requires
        -ba <= a <= ba,
        -bb <= b <= bb,
    ensures
        -(ba * bb) <= a * b <= ba * bb,
{
}

impl Point {
    /// Componentwise sum.
    pub fn add(self, other: Point) -> (r: Point)
        requires
            i64::MIN <= self.x.raw + other.x.raw <= i64::MAX,
            i64::MIN <= self.y.raw + other.y.raw <= i64::MAX,
        ensures
            r.x.raw == self.x.raw + other.x.raw,
            r.y.raw == self.y.raw + other.y.raw,
    {
        Point { x: self.x.add(other.x), y: self.y.add(other.y) }
    }

    /// Componentwise difference.
    pub fn sub(self, other: Point) -> (r: Point)
        requires
            i64::MIN <= self.x.raw - other.x.raw <= i64::MAX,
            i64::MIN <= self.y.raw - other.y.raw <= i64::MAX,
        ensures
            r.x.raw == self.x.raw - other.x.raw,
            r.y.raw == self.y.raw - other.y.raw,
    {
        Point { x: self.x.sub(other.x), y: self.y.sub(other.y) }
    }
}

/// Sum of the squared raw components: the squared raw length.
pub open spec fn sumsq(p: Point3D) -> int {
    p.x.raw * p.x.raw + p.y.raw * p.y.raw + p.z.raw * p.z.raw
}

impl Point3D {
    /// Build a point from a coordinate array.
    pub fn new(arr: [Fx; 3]) -> (r: Point3D)
        ensures
            r.x == arr@[0],
            r.y == arr@[1],
            r.z == arr@[2],
    {
        Point3D { x: arr[0], y: arr[1], z: arr[2] }
    }

    /// The coordinates as an array.
    pub fn to_array(self) -> (r: [Fx; 3])
        ensures
            r@[0] == self.x,
            r@[1] == self.y,
            r@[2] == self.z,
    {
        [self.x, self.y, self.z]
    }

    /// The origin.
    pub fn zero() -> (r: Point3D)
        ensures
            r.x.raw == 0,
            r.y.raw == 0,
            r.z.raw == 0,
    {
        Point3D { x: Fx { raw: 0 }, y: Fx { raw: 0 }, z: Fx { raw: 0 } }
    }

    /// Euclidean length, rounded down to the fixed-point grid.
    pub fn length(self) -> (r: Fx)
        requires
            pt_wide_ok(self),
        ensures
            r.raw == sqrt_floor(sumsq(self)),
            is_sqrt_floor(sumsq(self), r.raw as int),
    {
        proof {
            lemma_abs_mul_bound(self.x.raw as int, self.x.raw as int, 0x4000_0000_0000_0000,
                0x4000_0000_0000_0000);
            lemma_abs_mul_bound(self.y.raw as int, self.y.raw as int, 0x4000_0000_0000_0000,
                0x4000_0000_0000_0000);
            lemma_abs_mul_bound(self.z.raw as int, self.z.raw as int, 0x4000_0000_0000_0000,
                0x4000_0000_0000_0000);
            assert(self.x.raw as int * self.x.raw as int >= 0) by (nonlinear_arith);
            assert(self.y.raw as int * self.y.raw as int >= 0) by (nonlinear_arith);
            assert(self.z.raw as int * self.z.raw as int >= 0) by (nonlinear_arith);
        }
        let sx: i128 = (self.x.raw as i128) * (self.x.raw as i128);
        let sy: i128 = (self.y.raw as i128) * (self.y.raw as i128);
        let sz: i128 = (self.z.raw as i128) * (self.z.raw as i128);
        let sum: u128 = (sx + sy + sz) as u128;
        let root: u128 = isqrt_u128(sum);
        proof {
            assert((root as int) * (root as int) <= sum as int);
            assert(root as int <= 0x7FFF_FFFF_FFFF_FFFF) by (nonlinear_arith)
                requires
                    (root as int) * (root as int) <= sum as int,
                    0 <= root as int,
                    sum as int <= 3 * (0x4000_0000_0000_0000 * 0x4000_0000_0000_0000);
        }
        Fx { raw: root as i64 }
    }

    /// Scale to unit length (undefined on the zero vector, which is ruled
    /// out): each component is divided by the rounded-down length.
    pub fn normalize(&mut self)
        requires
            pt_wide_ok(*old(self)),
            sumsq(*old(self)) > 0,
        ensures
            final(self).x.raw == tdiv(old(self).x.raw * SCALE, sqrt_floor(sumsq(*old(self)))),
            final(self).y.raw == tdiv(old(self).y.raw * SCALE, sqrt_floor(sumsq(*old(self)))),
            final(self).z.raw == tdiv(old(self).z.raw * SCALE, sqrt_floor(sumsq(*old(self)))),
            -(SCALE as int) <= final(self).x.raw <= SCALE as int,
            -(SCALE as int) <= final(self).y.raw <= SCALE as int,
            -(SCALE as int) <= final(self).z.raw <= SCALE as int,
    {
        let len: Fx = self.length();
        proof {
            let s = sumsq(*old(self));
            let l = len.raw as int;
            assert(l >= 1) by (nonlinear_arith)
                requires
                    is_sqrt_floor(s, l),
                    s > 0;
            assert(self.x.raw as int * self.x.raw as int >= 0) by (nonlinear_arith);
            assert(self.y.raw as int * self.y.raw as int >= 0) by (nonlinear_arith);
            assert(self.z.raw as int * self.z.raw as int >= 0) by (nonlinear_arith);
            lemma_component_le_length(self.x.raw as int, l, s, sumsq(*old(self)));
            lemma_component_le_length(self.y.raw as int, l, s, sumsq(*old(self)));
            lemma_component_le_length(self.z.raw as int, l, s, sumsq(*old(self)));
            lemma_abs_mul_bound(self.x.raw as int, SCALE as int, l, SCALE as int);
            lemma_abs_mul_bound(self.y.raw as int, SCALE as int, l, SCALE as int);
            lemma_abs_mul_bound(self.z.raw as int, SCALE as int, l, SCALE as int);
            assert(l * SCALE == SCALE as int * l) by (nonlinear_arith);
            lemma_tdiv_bound(self.x.raw as int * SCALE as int, l, SCALE as int);
            lemma_tdiv_bound(self.y.raw as int * SCALE as int, l, SCALE as int);
            lemma_tdiv_bound(self.z.raw as int * SCALE as int, l, SCALE as int);
        }
        let lx: i128 = (self.x.raw as i128) * (SCALE as i128);
        let ly: i128 = (self.y.raw as i128) * (SCALE as i128);
        let lz: i128 = (self.z.raw as i128) * (SCALE as i128);
        self.x = Fx { raw: tdiv_i128(lx, len.raw as i128) as i64 };
        self.y = Fx { raw: tdiv_i128(ly, len.raw as i128) as i64 };
        self.z = Fx { raw: tdiv_i128(lz, len.raw as i128) as i64 };
    }

    /// Dot product; each componentwise product is rounded toward zero.
    pub fn dot(self, other: Point3D) -> (r: Fx)
        requires
            pt_ok(self),
            pt_ok(other),
        ensures
            r.raw == tdiv(self.x.raw * other.x.raw, SCALE as int) + tdiv(
                self.y.raw * other.y.raw, SCALE as int) + tdiv(
                self.z.raw * other.z.raw, SCALE as int),
    {
        proof {
            lemma_pt_mul_safe(self, other);
        }
        let px: i64 = self.x.mul(other.x).raw;
        let py: i64 = self.y.mul(other.y).raw;
        let pz: i64 = self.z.mul(other.z).raw;
        Fx { raw: px + py + pz }
    }

    /// Componentwise sum.
    pub fn add(self, other: Point3D) -> (r: Point3D)
        requires
            i64::MIN <= self.x.raw + other.x.raw <= i64::MAX,
            i64::MIN <= self.y.raw + other.y.raw <= i64::MAX,
            i64::MIN <= self.z.raw + other.z.raw <= i64::MAX,
        ensures
            r.x.raw == self.x.raw + other.x.raw,
            r.y.raw == self.y.raw + other.y.raw,
            r.z.raw == self.z.raw + other.z.raw,
    {
        Point3D { x: self.x.add(other.x), y: self.y.add(other.y), z: self.z.add(other.z) }
    }

    /// Componentwise difference.
    pub fn sub(self, other: Point3D) -> (r: Point3D)
        requires
            i64::MIN <= self.x.raw - other.x.raw <= i64::MAX,
            i64::MIN <= self.y.raw - other.y.raw <= i64::MAX,
            i64::MIN <= self.z.raw - other.z.raw <= i64::MAX,
        ensures
            r.x.raw == self.x.raw - other.x.raw,
            r.y.raw == self.y.raw - other.y.raw,
            r.z.raw == self.z.raw - other.z.raw,
    {
        Point3D { x: self.x.sub(other.x), y: self.y.sub(other.y), z: self.z.sub(other.z) }
    }

    /// Cross product, following the renderer's convention of negating the
    /// second component of the determinant expansion.
    pub fn cross(self, other: Point3D) -> (r: Point3D)
        requires
            pt_ok(self),
            pt_ok(other),
        ensures
            r.x.raw == tdiv(self.y.raw * other.z.raw, SCALE as int) - tdiv(
                other.y.raw * self.z.raw, SCALE as int),
            r.y.raw == -(tdiv(self.x.raw * other.z.raw, SCALE as int) - tdiv(
                other.x.raw * self.z.raw, SCALE as int)),
            r.z.raw == tdiv(self.x.raw * other.y.raw, SCALE as int) - tdiv(
                other.x.raw * self.y.raw, SCALE as int),
    {
        proof {
            lemma_pt_mul_safe(self, other);
            lemma_pt_mul_safe(other, self);
        }
        let x: i64 = self.y.mul(other.z).raw - other.y.mul(self.z).raw;
        let y: i64 = self.x.mul(other.z).raw - other.x.mul(self.z).raw;
        let z: i64 = self.x.mul(other.y).raw - other.x.mul(self.y).raw;
        Point3D { x: Fx { raw: x }, y: Fx { raw: -y }, z: Fx { raw: z } }
    }

    /// Scale by a scalar; each componentwise product is rounded toward zero.
    pub fn scale(self, s: Fx) -> (r: Point3D)
        requires
            pt_ok(self),
            fx_ok(s),
        ensures
            r.x.raw == tdiv(self.x.raw * s.raw, SCALE as int),
            r.y.raw == tdiv(self.y.raw * s.raw, SCALE as int),
            r.z.raw == tdiv(self.z.raw * s.raw, SCALE as int),
    {
        proof {
            lemma_pt_mul_safe(self, Point3D { x: s, y: s, z: s });
        }
        Point3D { x: self.x.mul(s), y: self.y.mul(s), z: self.z.mul(s) }
    }

    /// Divide by a scalar; each component is rounded toward zero.
    pub fn div_by(self, s: Fx) -> (r: Point3D)
        requires
            pt_ok(self),
            s.raw != 0,
            fx_ok(s),
        ensures
            r.x.raw == fx_div_spec(self.x.raw as int, s.raw as int),
            r.y.raw == fx_div_spec(self.y.raw as int, s.raw as int),
            r.z.raw == fx_div_spec(self.z.raw as int, s.raw as int),
    {
        proof {
            lemma_pt_div_safe(self, s);
        }
        Point3D { x: self.x.div(s), y: self.y.div(s), z: self.z.div(s) }
    }
}

/// Smallest of three integers.
pub open spec fn min3(a: int, b: int, c: int) -> int {
    if a <= b && a <= c {
        a
    } else if b <= c {
        b
    } else {
        c
    }
}

/// Largest of three integers and zero (the renderer's bounding-box fold
/// seeds its maximum with zero).
pub open spec fn max3_zero(a: int, b: int, c: int) -> int {
    if a >= b && a >= c && a >= 0 {
        a
    } else if b >= c && b >= 0 {
        b
    } else if c >= 0 {
        c
    } else {
        0
    }
}

/// Stable sort of three points by ascending y, as an insertion sort
/// decision tree: ties keep their original order.
pub open spec fn sort3_by_y(s: Seq<Point3D>) -> Seq<Point3D> {
    let a = s[0];
    let b = s[1];
    let c = s[2];
    if b.y.raw < a.y.raw {
        if c.y.raw < b.y.raw {
            seq![c, b, a]
        } else if c.y.raw < a.y.raw {
            seq![b, c, a]
        } else {
            seq![b, a, c]
        }
    } else {
        if c.y.raw < b.y.raw {
            if c.y.raw < a.y.raw {
                seq![c, a, b]
            } else {
                seq![a, c, b]
            }
        } else {
            seq![a, b, c]
        }
    }
}

/// A product with a zero factor vanishes.
proof fn lemma_mul_zero(a: int, b: int)
    by (nonlinear_arith)
    requires
        b == 0,
    ensures
        a * b == 0,
        b * a == 0,
{
}

impl Triangle {
    /// Reorder the vertices by ascending y (a stable sort, as the line-sweep
    /// filler expects).
    pub fn sort(&mut self)
        ensures
            final(self).vertices@ == sort3_by_y(old(self).vertices@),
            final(self).vertices@[0].y.raw <= final(self).vertices@[1].y.raw,
            final(self).vertices@[1].y.raw <= final(self).vertices@[2].y.raw,
    {
        let a = self.vertices[0];
        let b = self.vertices[1];
        let c = self.vertices[2];
        if b.y.raw < a.y.raw {
            if c.y.raw < b.y.raw {
                self.vertices = [c, b, a];
            } else if c.y.raw < a.y.raw {
                self.vertices = [b, c, a];
            } else {
                self.vertices = [b, a, c];
            }
        } else {
            if c.y.raw < b.y.raw {
                if c.y.raw < a.y.raw {
                    self.vertices = [c, a, b];
                } else {
                    self.vertices = [a, c, b];
                }
            } else {
                self.vertices = [a, b, c];
            }
        }
        proof {
            assert(self.vertices@ =~= sort3_by_y(old(self).vertices@));
        }
    }

    /// Axis-aligned bounding box as a (south-west, north-east) pair of
    /// whole-unit corner points: the floor of the least coordinates and the
    /// ceiling of the greatest (the maxima are seeded with zero). The box
    /// contains every vertex.
    pub fn compute_bbox(&self) -> (r: (Point, Point))
        requires
            tri_ok(*self),
        ensures
            r.0.x.raw == floor_raw(min3(vx(*self, 0), vx(*self, 1), vx(*self, 2))),
            r.0.y.raw == floor_raw(min3(vy(*self, 0), vy(*self, 1), vy(*self, 2))),
            r.1.x.raw == ceil_raw(max3_zero(vx(*self, 0), vx(*self, 1), vx(*self, 2))),
            r.1.y.raw == ceil_raw(max3_zero(vy(*self, 0), vy(*self, 1), vy(*self, 2))),
            forall|i: int|
                0 <= i < 3 ==> r.0.x.raw <= vx(*self, i) && vx(*self, i) <= r.1.x.raw,
            forall|i: int|
                0 <= i < 3 ==> r.0.y.raw <= vy(*self, i) && vy(*self, i) <= r.1.y.raw,
            r.0.x.raw as int % (SCALE as int) == 0 && r.0.y.raw as int % (SCALE as int) == 0,
            r.1.x.raw as int % (SCALE as int) == 0 && r.1.y.raw as int % (SCALE as int) == 0,
            -(COORD_LIM as int) - SCALE <= r.0.x.raw && r.1.x.raw <= COORD_LIM as int + SCALE,
            -(COORD_LIM as int) - SCALE <= r.0.y.raw && r.1.y.raw <= COORD_LIM as int + SCALE,
    {
        let v0 = self.vertices[0];
        let v1 = self.vertices[1];
        let v2 = self.vertices[2];
        let x_min: i64 = min3_i64(v0.x.raw, v1.x.raw, v2.x.raw);
        let y_min: i64 = min3_i64(v0.y.raw, v1.y.raw, v2.y.raw);
        let x_max: i64 = max3_zero_i64(v0.x.raw, v1.x.raw, v2.x.raw);
        let y_max: i64 = max3_zero_i64(v0.y.raw, v1.y.raw, v2.y.raw);
        let sw = Point { x: Fx { raw: x_min }.floor(), y: Fx { raw: y_min }.floor() };
        let ne = Point { x: Fx { raw: x_max }.ceil(), y: Fx { raw: y_max }.ceil() };
        proof {
            lemma_floor_ceil_multiple(x_min as int);
            lemma_floor_ceil_multiple(y_min as int);
            lemma_floor_ceil_multiple(x_max as int);
            lemma_floor_ceil_multiple(y_max as int);
        }
        (sw, ne)
    }

    /// The three barycentric numerators of a query point together with
    /// their normalizer, computed exactly in wide integers.
    pub(crate) fn bary_nums(&self, x: Fx, y: Fx) -> (r: (i128, i128, i128, i128))
        requires
            tri_ok(*self),
            fx_scan_ok(x),
            fx_scan_ok(y),
        ensures
            r.0 == bary_num0(*self, x.raw as int, y.raw as int),
            r.1 == bary_num1(*self, x.raw as int, y.raw as int),
            r.2 == bary_num2(*self, x.raw as int, y.raw as int),
            r.3 == bary_den(*self, x.raw as int, y.raw as int),
            abs_int(r.0 as int) <= 0x4_8000_0000_0000_0000,
            abs_int(r.1 as int) <= 0x4_8000_0000_0000_0000,
            abs_int(r.2 as int) <= 0x4_8000_0000_0000_0000,
            0 <= r.3 <= 0xD_8000_0000_0000_0000,
    {
        let v0 = self.vertices[0];
        let v1 = self.vertices[1];
        let v2 = self.vertices[2];
        let e0x: i128 = v0.x.raw as i128 - x.raw as i128;
        let e0y: i128 = v0.y.raw as i128 - y.raw as i128;
        let e1x: i128 = v1.x.raw as i128 - x.raw as i128;
        let e1y: i128 = v1.y.raw as i128 - y.raw as i128;
        let e2x: i128 = v2.x.raw as i128 - x.raw as i128;
        let e2y: i128 = v2.y.raw as i128 - y.raw as i128;
        proof {
            let b: int = 3 * COORD_LIM as int;
            lemma_abs_mul_bound(e1x as int, e2y as int, b, b);
            lemma_abs_mul_bound(e1y as int, e2x as int, b, b);
            lemma_abs_mul_bound(e0x as int, e2y as int, b, b);
            lemma_abs_mul_bound(e0y as int, e2x as int, b, b);
            lemma_abs_mul_bound(e0x as int, e1y as int, b, b);
            lemma_abs_mul_bound(e0y as int, e1x as int, b, b);
        }
        let n0: i128 = e1x * e2y - e1y * e2x;
        let n1: i128 = -(e0x * e2y - e0y * e2x);
        let n2: i128 = e0x * e1y - e0y * e1x;
        let a0: i128 = if n0 >= 0 { n0 } else { -n0 };
        let a1: i128 = if n1 >= 0 { n1 } else { -n1 };
        let a2: i128 = if n2 >= 0 { n2 } else { -n2 };
        (n0, n1, n2, a0 + a1 + a2)
    }

    /// Barycentric coordinates of a query point given by two scalars.
    pub fn barycentric_coords_xy(&self, x: Fx, y: Fx) -> (r: Point3D)
        requires
            tri_ok(*self),
            fx_scan_ok(x),
            fx_scan_ok(y),
            bary_den(*self, x.raw as int, y.raw as int) != 0,
        ensures
            r.x.raw == bary_coord(bary_num0(*self, x.raw as int, y.raw as int),
                bary_den(*self, x.raw as int, y.raw as int)),
            r.y.raw == bary_coord(bary_num1(*self, x.raw as int, y.raw as int),
                bary_den(*self, x.raw as int, y.raw as int)),
            r.z.raw == bary_coord(bary_num2(*self, x.raw as int, y.raw as int),
                bary_den(*self, x.raw as int, y.raw as int)),
    {
        let point = Point3D { x, y, z: Fx { raw: 0 } };
        self.barycentric_coords(point)
    }

    /// Barycentric coordinates of a query point (only its x and y matter):
    /// each coordinate is the fixed-point quotient of its signed doubled
    /// area by the sum of the three areas' magnitudes. Undefined on a
    /// degenerate triangle seen edge-on, which the normalizer precondition
    /// rules out.
    pub fn barycentric_coords(&self, point: Point3D) -> (r: Point3D)
        requires
            tri_ok(*self),
            fx_scan_ok(point.x),
            fx_scan_ok(point.y),
            bary_den(*self, point.x.raw as int, point.y.raw as int) != 0,
        ensures
            r.x.raw == bary_coord(bary_num0(*self, point.x.raw as int, point.y.raw as int),
                bary_den(*self, point.x.raw as int, point.y.raw as int)),
            r.y.raw == bary_coord(bary_num1(*self, point.x.raw as int, point.y.raw as int),
                bary_den(*self, point.x.raw as int, point.y.raw as int)),
            r.z.raw == bary_coord(bary_num2(*self, point.x.raw as int, point.y.raw as int),
                bary_den(*self, point.x.raw as int, point.y.raw as int)),
    {
        let (n0, n1, n2, den) = self.bary_nums(point.x, point.y);
        proof {
            lemma_bary_coord_fits(n0 as int, den as int);
            lemma_bary_coord_fits(n1 as int, den as int);
            lemma_bary_coord_fits(n2 as int, den as int);
        }
        let c0: i128 = tdiv_i128(n0 * (SCALE as i128), den);
        let c1: i128 = tdiv_i128(n1 * (SCALE as i128), den);
        let c2: i128 = tdiv_i128(n2 * (SCALE as i128), den);
        Point3D {
            x: Fx { raw: c0 as i64 },
            y: Fx { raw: c1 as i64 },
            z: Fx { raw: c2 as i64 },
        }
    }

    /// Whether the query point lies inside the triangle or on its boundary:
    /// no barycentric coordinate is negative. A degenerate triangle accepts
    /// nothing.
    pub fn point_in_triangle(&self, x: Fx, y: Fx) -> (r: bool)
        requires
            tri_ok(*self),
            fx_scan_ok(x),
            fx_scan_ok(y),
        ensures
            r == in_tri(*self, x.raw as int, y.raw as int),
    {
        let (n0, n1, n2, den) = self.bary_nums(x, y);
        den > 0 && n0 >= 0 && n1 >= 0 && n2 >= 0
    }
}

/// Smallest of three machine integers.
fn min3_i64(a: i64, b: i64, c: i64) -> (r: i64)
    ensures
        r as int == min3(a as int, b as int, c as int),
{
    if a <= b && a <= c {
        a
    } else if b <= c {
        b
    } else {
        c
    }
}

/// Largest of three machine integers and zero.
fn max3_zero_i64(a: i64, b: i64, c: i64) -> (r: i64)
    ensures
        r as int == max3_zero(a as int, b as int, c as int),
{
    if a >= b && a >= c && a >= 0 {
        a
    } else if b >= c && b >= 0 {
        b
    } else if c >= 0 {
        c
    } else {
        0
    }
}

/// A normalized barycentric coordinate never exceeds one unit in magnitude,
/// so it fits a fixed-point scalar.
proof fn lemma_bary_coord_fits(n: int, den: int)
    requires
        abs_int(n) <= den,
        0 < den <= 0xD_8000_0000_0000_0000,
    ensures
        -(SCALE as int) <= tdiv(n * SCALE, den) <= SCALE as int,
        tdiv(n * SCALE, den) == bary_coord(n, den),
        -0xD_8000_0000_0000_0000_0000 <= n * SCALE <= 0xD_8000_0000_0000_0000_0000,
{
    lemma_abs_mul_bound(n, SCALE as int, 0xD_8000_0000_0000_0000, SCALE as int);
    assert(-(SCALE as int) * den <= n * SCALE <= SCALE as int * den) by (nonlinear_arith)
        requires
            abs_int(n) <= den,
            den > 0,
            SCALE as int > 0;
    lemma_tdiv_bound(n * SCALE, den, SCALE as int);
}

/// Floors and ceilings to the fixed-point grid are multiples of `SCALE`.
pub proof fn lemma_floor_ceil_multiple(x: int)
    ensures
        floor_raw(x) % (SCALE as int) == 0,
        ceil_raw(x) % (SCALE as int) == 0,
{
    lemma_mod_multiples_basic(x / SCALE as int, SCALE as int);
    lemma_mod_multiples_basic(-((-x) / SCALE as int), SCALE as int);
    assert(-(((-x) / SCALE as int) * SCALE as int) == (-((-x) / SCALE as int)) * SCALE as int)
        by (nonlinear_arith);
}

/// No component of a vector exceeds the rounded-down length of the vector.
proof fn lemma_component_le_length(c: int, l: int, s: int, s2: int)
    by (nonlinear_arith)
    requires
        s == s2,
        is_sqrt_floor(s, l),
        c * c <= s2,
    ensures
        -l <= c <= l,
{
}

/// Componentwise fixed-point products of two bounded points stay within
/// `i64` after truncation.
proof fn lemma_pt_mul_safe(a: Point3D, b: Point3D)
    requires
        pt_ok(a),
        pt_ok(b),
    ensures
        forall|x: int, y: int|
            -(COORD_LIM as int) <= x <= COORD_LIM as int && -(COORD_LIM as int) <= y
                <= COORD_LIM as int ==> -(COORD_LIM as int) * COORD_LIM as int <= #[trigger] (x
                * y) <= COORD_LIM as int * COORD_LIM as int,
        forall|x: int, y: int|
            -(COORD_LIM as int) <= x <= COORD_LIM as int && -(COORD_LIM as int) <= y
                <= COORD_LIM as int ==> -0x4000_0000_0000i64 <= tdiv(
                #[trigger] (x * y), SCALE as int) <= 0x4000_0000_0000i64,
{
    assert forall|x: int, y: int|
        -(COORD_LIM as int) <= x <= COORD_LIM as int && -(COORD_LIM as int) <= y
            <= COORD_LIM as int implies -(COORD_LIM as int) * COORD_LIM as int <= #[trigger] (x
            * y) <= COORD_LIM as int * COORD_LIM as int by {
        lemma_abs_mul_bound(x, y, COORD_LIM as int, COORD_LIM as int);
    }
    assert forall|x: int, y: int|
        -(COORD_LIM as int) <= x <= COORD_LIM as int && -(COORD_LIM as int) <= y
            <= COORD_LIM as int implies -0x4000_0000_0000i64 <= tdiv(
            #[trigger] (x * y), SCALE as int) <= 0x4000_0000_0000i64 by {
        lemma_abs_mul_bound(x, y, COORD_LIM as int, COORD_LIM as int);
        assert(COORD_LIM as int * COORD_LIM as int == 0x4000_0000_0000 * SCALE);
        lemma_tdiv_bound(x * y, SCALE as int, 0x4000_0000_0000);
    }
}

/// Componentwise fixed-point quotients of a bounded point by a nonzero
/// bounded scalar stay within `i64`.
proof fn lemma_pt_div_safe(a: Point3D, s: Fx)
    requires
        pt_ok(a),
        s.raw != 0,
    ensures
        forall|x: int|
            -(COORD_LIM as int) <= x <= COORD_LIM as int ==> -(i64::MAX as int) <= tdiv(
                #[trigger] (x * SCALE), abs_int(s.raw as int)) <= i64::MAX as int,
{
    assert forall|x: int| -(COORD_LIM as int) <= x <= COORD_LIM as int implies -(
    i64::MAX as int) <= tdiv(#[trigger] (x * SCALE), abs_int(s.raw as int))
        <= i64::MAX as int by {
        let d = abs_int(s.raw as int);
        lemma_abs_mul_bound(x, SCALE as int, COORD_LIM as int, SCALE as int);
        lemma_tdiv_sign(x * SCALE, d);
    }
}

} // verus!
