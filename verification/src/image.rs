//! The frame buffer and its rasterization entry points.
//!
//! Logical coordinates live in the positive quadrant with the origin at the
//! bottom-left; pixel row 0 is the top of the image, so the vertical mapping
//! flips (`row = clamp(height - y)`) while the horizontal one clamps
//! directly. Out-of-range coordinates saturate to the nearest valid row or
//! column.

use vstd::prelude::*;

verus! {

use crate::fixed::{Fx, SCALE, tdiv, abs_int, floor_div_i64, floor_raw, ceil_raw, tdiv_i128,
    fx_div_spec, lemma_tdiv_bound, lemma_tdiv_sign, lemma_tdiv_exact};
use crate::geometry::{
    Point, Point3D, Triangle, fx_ok, fx_scan_ok, COORD_LIM, min3, max3_zero, vx, vy, vz,
    in_tri, tri_ok, pt_ok, bary_num0, bary_num1, bary_num2, bary_den, lemma_abs_mul_bound,
    sort3_by_y,
};
use vstd::arithmetic::div_mod::{
    lemma_fundamental_div_mod, lemma_mod_division_less_than_divisor, lemma_div_by_multiple,
    lemma_div_multiples_vanish, lemma_div_is_ordered, lemma_div_of0,
};

/// One RGB pixel.
#[derive(Clone, Copy, PartialEq, Eq, Structural, Debug)]
pub struct RGBPixel {
    pub red: u8,
    pub green: u8,
    pub blue: u8,
}

/// A frame buffer: a row-major pixel array with its dimensions.
pub struct ImageMeta {
    pub buffer: Vec<RGBPixel>,
    pub width: i32,
    pub height: i32,
}

/// An RGB texture image: three bytes per pixel, row-major.
pub struct Texture {
    pub width: usize,
    pub height: usize,
    pub bytes: Vec<u8>,
}

impl Texture {
    /// The byte array holds exactly the pixels the dimensions announce, and
    /// the dimensions stay within the coordinate range.
    pub open spec fn wf(self) -> bool {
        &&& 0 < self.width <= 0x8000
        &&& 0 < self.height <= 0x8000
        &&& self.bytes@.len() == 3 * self.width * self.height
    }
}

/// Saturating map of a fixed-point coordinate to a pixel index along one
/// axis: the floor, clamped into `[0, dim)`.
pub open spec fn clamp_spec(raw: int, dim: int) -> int {
    let f = raw / (SCALE as int);
    if f >= dim {
        dim - 1
    } else if f < 0 {
        0
    } else {
        f
    }
}

/// Buffer index of the logical point `(x, y)`: the y axis is flipped and
/// both axes saturate.
pub open spec fn idx_spec(w: int, h: int, xraw: int, yraw: int) -> int {
    w * clamp_spec(h * (SCALE as int) - yraw, h) + clamp_spec(xraw, w)
}

impl ImageMeta {
    /// The pixel array holds exactly the pixels the dimensions announce, and
    /// the dimensions stay within the coordinate range.
    pub open spec fn wf(self) -> bool {
        &&& 0 < self.width <= 0x8000
        &&& 0 < self.height <= 0x8000
        &&& self.buffer@.len() == self.width * self.height
    }

    /// Saturating map of a coordinate to a pixel index along an axis of
    /// extent `dim`.
    fn clamp(&self, num: Fx, dim: i32) -> (r: usize)
        requires
            0 < dim <= 0x8000,
        ensures
            r as int == clamp_spec(num.raw as int, dim as int),
            r < dim,
    {
        let f: i64 = floor_div_i64(num.raw, SCALE);
        if f >= dim as i64 {
            (dim - 1) as usize
        } else if f < 0 {
            0
        } else {
            f as usize
        }
    }

    /// Buffer index of a logical point, assumed shifted into the positive
    /// quadrant (out-of-range coordinates saturate).
    fn image_to_vector_index(&self, x: Fx, y: Fx) -> (r: usize)
        requires
            self.wf(),
            fx_scan_ok(x),
            fx_scan_ok(y),
        ensures
            r as int == idx_spec(self.width as int, self.height as int, x.raw as int,
                y.raw as int),
            r < self.buffer@.len(),
    {
        proof {
            assert(0 <= (self.height as int) * (SCALE as int) <= 0x8000_0000)
                by (nonlinear_arith)
                requires
                    0 < self.height as int <= 0x8000,
                    SCALE as int == 65536;
        }
        let flipped = Fx { raw: (self.height as i64) * (SCALE as i64) - y.raw };
        let row: usize = self.clamp(flipped, self.height);
        let col: usize = self.clamp(x, self.width);
        proof {
            assert((self.width as int) * (row as int) + (col as int) < (self.width as int) * (
            self.height as int) && (self.width as int) * (row as int) + (col as int)
                < 0x4000_0000) by (nonlinear_arith)
                requires
                    (row as int) < self.height as int,
                    (col as int) < self.width as int,
                    0 <= row as int,
                    0 <= col as int,
                    0 < self.width as int <= 0x8000,
                    0 < self.height as int <= 0x8000;
        }
        (self.width as usize) * row + col
    }

    /// Write one pixel at a logical point in the positive quadrant (the
    /// origin is the lower-left corner of the image).
    fn set_pixel(&mut self, x: Fx, y: Fx, color: &RGBPixel)
        requires
            old(self).wf(),
            fx_scan_ok(x),
            fx_scan_ok(y),
        ensures
            final(self).wf(),
            final(self).width == old(self).width,
            final(self).height == old(self).height,
            final(self).buffer@ == old(self).buffer@.update(
                idx_spec(old(self).width as int, old(self).height as int, x.raw as int,
                    y.raw as int), *color),
            0 <= idx_spec(old(self).width as int, old(self).height as int, x.raw as int,
                y.raw as int) < old(self).buffer@.len(),
    {
        let idx = self.image_to_vector_index(x, y);
        self.buffer[idx] = *color;
    }
}

/// Leftmost whole-unit scan column of a triangle's bounding box.
pub open spec fn bb_x0(t: Triangle) -> int {
    min3(vx(t, 0), vx(t, 1), vx(t, 2)) / (SCALE as int)
}

/// Rightmost whole-unit scan column of a triangle's bounding box.
pub open spec fn bb_x1(t: Triangle) -> int {
    -((-max3_zero(vx(t, 0), vx(t, 1), vx(t, 2))) / (SCALE as int))
}

/// Bottom whole-unit scan row of a triangle's bounding box.
pub open spec fn bb_y0(t: Triangle) -> int {
    min3(vy(t, 0), vy(t, 1), vy(t, 2)) / (SCALE as int)
}

/// Top whole-unit scan row of a triangle's bounding box.
pub open spec fn bb_y1(t: Triangle) -> int {
    -((-max3_zero(vy(t, 0), vy(t, 1), vy(t, 2))) / (SCALE as int))
}

/// The scan point `(i, j)` (in whole units) lies inside the triangle's
/// bounding box, inside the triangle itself, and lands on buffer index `p`.
pub open spec fn covers(t: Triangle, w: int, h: int, p: int, i: int, j: int) -> bool {
    &&& bb_x0(t) <= i <= bb_x1(t)
    &&& bb_y0(t) <= j <= bb_y1(t)
    &&& in_tri(t, i * (SCALE as int), j * (SCALE as int))
    &&& idx_spec(w, h, i * (SCALE as int), j * (SCALE as int)) == p
}

/// Some scan point of the triangle lands on buffer index `p`.
pub open spec fn covered_any(t: Triangle, w: int, h: int, p: int) -> bool {
    exists|i: int, j: int| covers(t, w, h, p, i, j)
}

/// The scan point `(i, j)` precedes `(ci, cj)` in scan order (column by
/// column, each column bottom to top).
spec fn before(i: int, j: int, ci: int, cj: int) -> bool {
    i < ci || (i == ci && j < cj)
}

/// Some scan point strictly before `(ci, cj)` covers buffer index `p`.
spec fn covered_before(t: Triangle, w: int, h: int, p: int, ci: int, cj: int) -> bool {
    exists|i: int, j: int| covers(t, w, h, p, i, j) && before(i, j, ci, cj)
}

/// What flat filling does: every pixel some scan point of the triangle
/// lands on holds the fill color, every other pixel is untouched.
pub open spec fn flat_post(
    t: Triangle,
    c: RGBPixel,
    w: int,
    h: int,
    b0: Seq<RGBPixel>,
    b1: Seq<RGBPixel>,
) -> bool {
    &&& b1.len() == b0.len()
    &&& forall|p: int| 0 <= p < b0.len() && covered_any(t, w, h, p) ==> b1[p] == c
    &&& forall|p: int| 0 <= p < b0.len() && !covered_any(t, w, h, p) ==> b1[p] == b0[p]
}

/// Loop invariant of flat filling: the pixels covered by scan points before
/// `(ci, cj)` hold the color, the rest are untouched.
spec fn flat_inv(
    t: Triangle,
    c: RGBPixel,
    w: int,
    h: int,
    b0: Seq<RGBPixel>,
    b: Seq<RGBPixel>,
    ci: int,
    cj: int,
) -> bool {
    &&& b.len() == b0.len()
    &&& forall|p: int| 0 <= p < b0.len() && covered_before(t, w, h, p, ci, cj) ==> b[p] == c
    &&& forall|p: int| 0 <= p < b0.len() && !covered_before(t, w, h, p, ci, cj) ==> b[p] == b0[p]
}

/// Before the first scan point, nothing is covered yet.
proof fn lemma_flat_init(t: Triangle, c: RGBPixel, w: int, h: int, b0: Seq<RGBPixel>)
    ensures
        flat_inv(t, c, w, h, b0, b0, bb_x0(t), bb_y0(t)),
{
    assert forall|p: int| 0 <= p < b0.len() implies !covered_before(t, w, h, p, bb_x0(t),
        bb_y0(t)) by {
        if covered_before(t, w, h, p, bb_x0(t), bb_y0(t)) {
            let (i, j) = choose|i: int, j: int|
                covers(t, w, h, p, i, j) && before(i, j, bb_x0(t), bb_y0(t));
            assert(false);
        }
    }
}

/// A scan point inside the triangle paints its pixel and keeps the
/// invariant.
proof fn lemma_flat_step_hit(
    t: Triangle,
    c: RGBPixel,
    w: int,
    h: int,
    b0: Seq<RGBPixel>,
    b: Seq<RGBPixel>,
    ci: int,
    cj: int,
    bnew: Seq<RGBPixel>,
)
    requires
        flat_inv(t, c, w, h, b0, b, ci, cj),
        bb_x0(t) <= ci <= bb_x1(t),
        bb_y0(t) <= cj <= bb_y1(t),
        in_tri(t, ci * (SCALE as int), cj * (SCALE as int)),
        0 <= idx_spec(w, h, ci * (SCALE as int), cj * (SCALE as int)) < b0.len(),
        bnew == b.update(idx_spec(w, h, ci * (SCALE as int), cj * (SCALE as int)), c),
    ensures
        flat_inv(t, c, w, h, b0, bnew, ci, cj + 1),
{
    let pidx = idx_spec(w, h, ci * (SCALE as int), cj * (SCALE as int));
    assert(covers(t, w, h, pidx, ci, cj));
    assert forall|p: int|
        0 <= p < b0.len() && covered_before(t, w, h, p, ci, cj + 1) implies bnew[p] == c by {
        if p != pidx {
            let (i, j) = choose|i: int, j: int|
                covers(t, w, h, p, i, j) && before(i, j, ci, cj + 1);
            assert(before(i, j, ci, cj));
            assert(covered_before(t, w, h, p, ci, cj));
        }
    }
    assert forall|p: int|
        0 <= p < b0.len() && !covered_before(t, w, h, p, ci, cj + 1) implies bnew[p]
        == b0[p] by {
        assert(before(ci, cj, ci, cj + 1));
        assert(covered_before(t, w, h, pidx, ci, cj + 1));
        assert(p != pidx);
        if covered_before(t, w, h, p, ci, cj) {
            let (i, j) = choose|i: int, j: int|
                covers(t, w, h, p, i, j) && before(i, j, ci, cj);
            assert(before(i, j, ci, cj + 1));
        }
    }
}

/// A scan point outside the triangle covers nothing and keeps the
/// invariant.
proof fn lemma_flat_step_miss(
    t: Triangle,
    c: RGBPixel,
    w: int,
    h: int,
    b0: Seq<RGBPixel>,
    b: Seq<RGBPixel>,
    ci: int,
    cj: int,
)
    requires
        flat_inv(t, c, w, h, b0, b, ci, cj),
        !in_tri(t, ci * (SCALE as int), cj * (SCALE as int)),
    ensures
        flat_inv(t, c, w, h, b0, b, ci, cj + 1),
{
    assert forall|p: int|
        0 <= p < b0.len() && covered_before(t, w, h, p, ci, cj + 1) implies covered_before(
        t, w, h, p, ci, cj) by {
        let (i, j) = choose|i: int, j: int|
            covers(t, w, h, p, i, j) && before(i, j, ci, cj + 1);
        assert(before(i, j, ci, cj));
    }
    assert forall|p: int|
        0 <= p < b0.len() && covered_before(t, w, h, p, ci, cj) implies covered_before(
        t, w, h, p, ci, cj + 1) by {
        let (i, j) = choose|i: int, j: int| covers(t, w, h, p, i, j) && before(i, j, ci, cj);
        assert(before(i, j, ci, cj + 1));
    }
}

/// Finishing a column is the same as standing at the bottom of the next.
proof fn lemma_flat_col_wrap(
    t: Triangle,
    c: RGBPixel,
    w: int,
    h: int,
    b0: Seq<RGBPixel>,
    b: Seq<RGBPixel>,
    ci: int,
)
    requires
        flat_inv(t, c, w, h, b0, b, ci, bb_y1(t) + 1),
    ensures
        flat_inv(t, c, w, h, b0, b, ci + 1, bb_y0(t)),
{
    assert forall|p: int|
        0 <= p < b0.len() implies (#[trigger] covered_before(t, w, h, p, ci + 1, bb_y0(t))
        == covered_before(t, w, h, p, ci, bb_y1(t) + 1)) by {
        if covered_before(t, w, h, p, ci + 1, bb_y0(t)) {
            let (i, j) = choose|i: int, j: int|
                covers(t, w, h, p, i, j) && before(i, j, ci + 1, bb_y0(t));
            assert(before(i, j, ci, bb_y1(t) + 1));
            assert(covered_before(t, w, h, p, ci, bb_y1(t) + 1));
        }
        if covered_before(t, w, h, p, ci, bb_y1(t) + 1) {
            let (i, j) = choose|i: int, j: int|
                covers(t, w, h, p, i, j) && before(i, j, ci, bb_y1(t) + 1);
            assert(before(i, j, ci + 1, bb_y0(t)));
            assert(covered_before(t, w, h, p, ci + 1, bb_y0(t)));
        }
    }
}

/// After the last column, the processed scan points are all of them.
proof fn lemma_flat_done(
    t: Triangle,
    c: RGBPixel,
    w: int,
    h: int,
    b0: Seq<RGBPixel>,
    b: Seq<RGBPixel>,
)
    requires
        flat_inv(t, c, w, h, b0, b, bb_x1(t) + 1, bb_y0(t)),
    ensures
        flat_post(t, c, w, h, b0, b),
{
    assert forall|p: int|
        0 <= p < b0.len() implies (#[trigger] covered_any(t, w, h, p) == covered_before(t, w,
        h, p, bb_x1(t) + 1, bb_y0(t))) by {
        if covered_any(t, w, h, p) {
            let (i, j) = choose|i: int, j: int| covers(t, w, h, p, i, j);
            assert(before(i, j, bb_x1(t) + 1, bb_y0(t)));
            assert(covered_before(t, w, h, p, bb_x1(t) + 1, bb_y0(t)));
        }
        if covered_before(t, w, h, p, bb_x1(t) + 1, bb_y0(t)) {
            let (i, j) = choose|i: int, j: int|
                covers(t, w, h, p, i, j) && before(i, j, bb_x1(t) + 1, bb_y0(t));
            assert(covered_any(t, w, h, p));
        }
    }
}

impl ImageMeta {
    /// Flat-fill a triangle: scan every whole-unit point of its bounding
    /// box and write `color` wherever the barycentric test accepts, with no
    /// depth handling (later fills always overwrite earlier ones).
    pub fn draw_triangle_old(&mut self, triangle: Triangle, color: &RGBPixel)
        requires
            old(self).wf(),
            tri_ok(triangle),
        ensures
            final(self).wf(),
            final(self).width == old(self).width,
            final(self).height == old(self).height,
            flat_post(triangle, *color, old(self).width as int, old(self).height as int,
                old(self).buffer@, final(self).buffer@),
    {
        let ghost w = self.width as int;
        let ghost h = self.height as int;
        let ghost b0 = self.buffer@;
        let (sw, ne) = triangle.compute_bbox();
        let x0: i64 = floor_div_i64(sw.x.raw, SCALE);
        let x1: i64 = floor_div_i64(ne.x.raw, SCALE);
        let y0: i64 = floor_div_i64(sw.y.raw, SCALE);
        let y1: i64 = floor_div_i64(ne.y.raw, SCALE);
        proof {
            lemma_scan_bounds(triangle, sw, ne);
            lemma_flat_init(triangle, *color, w, h, b0);
        }
        let mut xi: i64 = x0;
        while xi <= x1
            invariant
                self.wf(),
                self.width as int == w,
                self.height as int == h,
                tri_ok(triangle),
                x0 as int == bb_x0(triangle),
                x1 as int == bb_x1(triangle),
                y0 as int == bb_y0(triangle),
                y1 as int == bb_y1(triangle),
                -0x8001 <= x0 <= x1 <= 0x8001,
                -0x8001 <= y0 <= y1 <= 0x8001,
                x0 <= xi <= x1 + 1,
                b0.len() == w * h,
                flat_inv(triangle, *color, w, h, b0, self.buffer@, xi as int,
                    bb_y0(triangle)),
            decreases x1 + 1 - xi,
        {
            let mut yj: i64 = y0;
            while yj <= y1
                invariant
                    self.wf(),
                    self.width as int == w,
                    self.height as int == h,
                    tri_ok(triangle),
                    x0 as int == bb_x0(triangle),
                    x1 as int == bb_x1(triangle),
                    y0 as int == bb_y0(triangle),
                    y1 as int == bb_y1(triangle),
                    -0x8001 <= x0 <= x1 <= 0x8001,
                    -0x8001 <= y0 <= y1 <= 0x8001,
                    x0 <= xi <= x1,
                    y0 <= yj <= y1 + 1,
                    b0.len() == w * h,
                    flat_inv(triangle, *color, w, h, b0, self.buffer@, xi as int, yj as int),
                decreases y1 + 1 - yj,
            {
                let px = Fx { raw: xi * SCALE };
                let py = Fx { raw: yj * SCALE };
                if triangle.point_in_triangle(px, py) {
                    let ghost pre = self.buffer@;
                    self.set_pixel(px, py, color);
                    proof {
                        lemma_flat_step_hit(triangle, *color, w, h, b0, pre, xi as int,
                            yj as int, self.buffer@);
                    }
                } else {
                    proof {
                        lemma_flat_step_miss(triangle, *color, w, h, b0, self.buffer@,
                            xi as int, yj as int);
                    }
                }
                yj = yj + 1;
            }
            proof {
                lemma_flat_col_wrap(triangle, *color, w, h, b0, self.buffer@, xi as int);
            }
            xi = xi + 1;
        }
        proof {
            lemma_flat_done(triangle, *color, w, h, b0, self.buffer@);
        }
    }
}

/// Depth of the triangle at the scan point `(i, j)`: the vertex z values
/// interpolated by the exact barycentric weights, rounded toward zero.
pub open spec fn zval(t: Triangle, i: int, j: int) -> int {
    tdiv(
        bary_num0(t, i * (SCALE as int), j * (SCALE as int)) * vz(t, 0) + bary_num1(
            t, i * (SCALE as int), j * (SCALE as int)) * vz(t, 1) + bary_num2(
            t, i * (SCALE as int), j * (SCALE as int)) * vz(t, 2),
        bary_den(t, i * (SCALE as int), j * (SCALE as int)),
    )
}

/// Some scan point covering `p` is deeper than `cap`.
pub open spec fn wins(t: Triangle, w: int, h: int, p: int, cap: int) -> bool {
    exists|i: int, j: int| covers(t, w, h, p, i, j) && zval(t, i, j) > cap
}

/// Some scan point covering `p` has depth exactly `v`.
pub open spec fn reaches(t: Triangle, w: int, h: int, p: int, v: int) -> bool {
    exists|i: int, j: int| covers(t, w, h, p, i, j) && zval(t, i, j) == v
}

/// No scan point covering `p` is deeper than `cap`.
pub open spec fn caps(t: Triangle, w: int, h: int, p: int, cap: int) -> bool {
    forall|i: int, j: int| covers(t, w, h, p, i, j) ==> zval(t, i, j) <= cap
}

/// [`wins`] restricted to scan points before `(ci, cj)`.
spec fn wins_before(t: Triangle, w: int, h: int, p: int, cap: int, ci: int, cj: int) -> bool {
    exists|i: int, j: int|
        covers(t, w, h, p, i, j) && before(i, j, ci, cj) && zval(t, i, j) > cap
}

/// [`reaches`] restricted to scan points before `(ci, cj)`.
spec fn reaches_before(t: Triangle, w: int, h: int, p: int, v: int, ci: int, cj: int) -> bool {
    exists|i: int, j: int|
        covers(t, w, h, p, i, j) && before(i, j, ci, cj) && zval(t, i, j) == v
}

/// [`caps`] restricted to scan points before `(ci, cj)`.
spec fn caps_before(t: Triangle, w: int, h: int, p: int, cap: int, ci: int, cj: int) -> bool {
    forall|i: int, j: int|
        covers(t, w, h, p, i, j) && before(i, j, ci, cj) ==> zval(t, i, j) <= cap
}

/// What depth-tested filling does to one pixel: the stored depth becomes
/// the maximum of its old value and the depths of all scan points landing
/// there, and the pixel takes the fill color exactly when some such point
/// beats the old depth (larger stored depth wins; the comparison is
/// strict).
pub open spec fn depth_pix(
    t: Triangle,
    c: RGBPixel,
    w: int,
    h: int,
    p: int,
    b0p: RGBPixel,
    z0p: Fx,
    b1p: RGBPixel,
    z1p: Fx,
) -> bool {
    &&& z0p.raw <= z1p.raw
    &&& caps(t, w, h, p, z1p.raw as int)
    &&& (z1p == z0p || reaches(t, w, h, p, z1p.raw as int))
    &&& (wins(t, w, h, p, z0p.raw as int) ==> b1p == c)
    &&& (!wins(t, w, h, p, z0p.raw as int) ==> b1p == b0p && z1p == z0p)
}

/// What depth-tested filling does: [`depth_pix`] at every pixel.
pub open spec fn depth_post(
    t: Triangle,
    c: RGBPixel,
    w: int,
    h: int,
    b0: Seq<RGBPixel>,
    z0: Seq<Fx>,
    b1: Seq<RGBPixel>,
    z1: Seq<Fx>,
) -> bool {
    &&& b1.len() == b0.len()
    &&& z1.len() == z0.len()
    &&& z0.len() == b0.len()
    &&& forall|p: int|
        0 <= p < b0.len() ==> #[trigger] depth_pix(t, c, w, h, p, b0[p], z0[p], b1[p], z1[p])
}

/// [`depth_pix`] restricted to scan points before `(ci, cj)`.
spec fn depth_pix_before(
    t: Triangle,
    c: RGBPixel,
    w: int,
    h: int,
    p: int,
    b0p: RGBPixel,
    z0p: Fx,
    bp: RGBPixel,
    zp: Fx,
    ci: int,
    cj: int,
) -> bool {
    &&& z0p.raw <= zp.raw
    &&& caps_before(t, w, h, p, zp.raw as int, ci, cj)
    &&& (zp == z0p || reaches_before(t, w, h, p, zp.raw as int, ci, cj))
    &&& (wins_before(t, w, h, p, z0p.raw as int, ci, cj) ==> bp == c)
    &&& (!wins_before(t, w, h, p, z0p.raw as int, ci, cj) ==> bp == b0p && zp == z0p)
}

/// Loop invariant of depth-tested filling.
spec fn depth_inv(
    t: Triangle,
    c: RGBPixel,
    w: int,
    h: int,
    b0: Seq<RGBPixel>,
    z0: Seq<Fx>,
    b: Seq<RGBPixel>,
    z: Seq<Fx>,
    ci: int,
    cj: int,
) -> bool {
    &&& b.len() == b0.len()
    &&& z.len() == z0.len()
    &&& z0.len() == b0.len()
    &&& forall|p: int|
        0 <= p < b0.len() ==> #[trigger] depth_pix_before(t, c, w, h, p, b0[p], z0[p], b[p],
            z[p], ci, cj)
}

/// Before the first scan point, nothing is covered yet.
proof fn lemma_depth_init(
    t: Triangle,
    c: RGBPixel,
    w: int,
    h: int,
    b0: Seq<RGBPixel>,
    z0: Seq<Fx>,
)
    requires
        z0.len() == b0.len(),
    ensures
        depth_inv(t, c, w, h, b0, z0, b0, z0, bb_x0(t), bb_y0(t)),
{
    assert forall|p: int|
        0 <= p < b0.len() implies #[trigger] depth_pix_before(t, c, w, h, p, b0[p], z0[p],
        b0[p], z0[p], bb_x0(t), bb_y0(t)) by {
        if wins_before(t, w, h, p, z0[p].raw as int, bb_x0(t), bb_y0(t)) {
            let (i, j) = choose|i: int, j: int|
                covers(t, w, h, p, i, j) && before(i, j, bb_x0(t), bb_y0(t)) && zval(t, i, j)
                    > z0[p].raw;
            assert(false);
        }
        if reaches_before(t, w, h, p, z0[p].raw as int, bb_x0(t), bb_y0(t)) {
        }
    }
}

/// Away from the written pixel, extending the processed prefix by one scan
/// point landing elsewhere changes none of the prefix predicates.
proof fn lemma_depth_pix_shift(
    t: Triangle,
    c: RGBPixel,
    w: int,
    h: int,
    p: int,
    b0p: RGBPixel,
    z0p: Fx,
    bp: RGBPixel,
    zp: Fx,
    ci: int,
    cj: int,
)
    requires
        depth_pix_before(t, c, w, h, p, b0p, z0p, bp, zp, ci, cj),
        idx_spec(w, h, ci * (SCALE as int), cj * (SCALE as int)) != p || !in_tri(
            t, ci * (SCALE as int), cj * (SCALE as int)),
    ensures
        depth_pix_before(t, c, w, h, p, b0p, z0p, bp, zp, ci, cj + 1),
{
    assert forall|i: int, j: int|
        covers(t, w, h, p, i, j) && before(i, j, ci, cj + 1) implies zval(t, i, j)
        <= zp.raw by {
        assert(before(i, j, ci, cj));
    }
    if zp != z0p {
        let (i, j) = choose|i: int, j: int|
            covers(t, w, h, p, i, j) && before(i, j, ci, cj) && zval(t, i, j) == zp.raw;
        assert(before(i, j, ci, cj + 1));
        assert(reaches_before(t, w, h, p, zp.raw as int, ci, cj + 1));
    }
    if wins_before(t, w, h, p, z0p.raw as int, ci, cj + 1) {
        let (i, j) = choose|i: int, j: int|
            covers(t, w, h, p, i, j) && before(i, j, ci, cj + 1) && zval(t, i, j) > z0p.raw;
        assert(before(i, j, ci, cj));
        assert(wins_before(t, w, h, p, z0p.raw as int, ci, cj));
    }
}

/// A scan point that passes the depth test writes its pixel and depth and
/// keeps the invariant.
proof fn lemma_depth_step_write(
    t: Triangle,
    c: RGBPixel,
    w: int,
    h: int,
    b0: Seq<RGBPixel>,
    z0: Seq<Fx>,
    b: Seq<RGBPixel>,
    z: Seq<Fx>,
    ci: int,
    cj: int,
    zv: Fx,
    bnew: Seq<RGBPixel>,
    znew: Seq<Fx>,
)
    requires
        depth_inv(t, c, w, h, b0, z0, b, z, ci, cj),
        bb_x0(t) <= ci <= bb_x1(t),
        bb_y0(t) <= cj <= bb_y1(t),
        in_tri(t, ci * (SCALE as int), cj * (SCALE as int)),
        0 <= idx_spec(w, h, ci * (SCALE as int), cj * (SCALE as int)) < b0.len(),
        zv.raw == zval(t, ci, cj),
        z[idx_spec(w, h, ci * (SCALE as int), cj * (SCALE as int))].raw < zv.raw,
        bnew == b.update(idx_spec(w, h, ci * (SCALE as int), cj * (SCALE as int)), c),
        znew == z.update(idx_spec(w, h, ci * (SCALE as int), cj * (SCALE as int)), zv),
    ensures
        depth_inv(t, c, w, h, b0, z0, bnew, znew, ci, cj + 1),
{
    let pidx = idx_spec(w, h, ci * (SCALE as int), cj * (SCALE as int));
    assert(covers(t, w, h, pidx, ci, cj));
    assert(before(ci, cj, ci, cj + 1));
    assert forall|p: int|
        0 <= p < b0.len() implies #[trigger] depth_pix_before(t, c, w, h, p, b0[p], z0[p],
        bnew[p], znew[p], ci, cj + 1) by {
        assert(depth_pix_before(t, c, w, h, p, b0[p], z0[p], b[p], z[p], ci, cj));
        if p != pidx {
            lemma_depth_pix_shift(t, c, w, h, p, b0[p], z0[p], b[p], z[p], ci, cj);
        } else {
            // the written pixel: its depth rises to the new point's depth
            assert(z0[p].raw <= z[p].raw);
            assert forall|i: int, j: int|
                covers(t, w, h, p, i, j) && before(i, j, ci, cj + 1) implies zval(t, i, j)
                <= zv.raw by {
                if i == ci && j == cj {
                } else {
                    assert(before(i, j, ci, cj));
                    assert(zval(t, i, j) <= z[p].raw);
                }
            }
            assert(reaches_before(t, w, h, p, zv.raw as int, ci, cj + 1));
            assert(wins_before(t, w, h, p, z0[p].raw as int, ci, cj + 1));
        }
    }
}

/// A scan point that fails the depth test changes nothing and keeps the
/// invariant.
proof fn lemma_depth_step_skip(
    t: Triangle,
    c: RGBPixel,
    w: int,
    h: int,
    b0: Seq<RGBPixel>,
    z0: Seq<Fx>,
    b: Seq<RGBPixel>,
    z: Seq<Fx>,
    ci: int,
    cj: int,
)
    requires
        depth_inv(t, c, w, h, b0, z0, b, z, ci, cj),
        bb_x0(t) <= ci <= bb_x1(t),
        bb_y0(t) <= cj <= bb_y1(t),
        in_tri(t, ci * (SCALE as int), cj * (SCALE as int)),
        0 <= idx_spec(w, h, ci * (SCALE as int), cj * (SCALE as int)) < b0.len(),
        zval(t, ci, cj) <= z[idx_spec(w, h, ci * (SCALE as int), cj * (SCALE as int))].raw,
    ensures
        depth_inv(t, c, w, h, b0, z0, b, z, ci, cj + 1),
{
    let pidx = idx_spec(w, h, ci * (SCALE as int), cj * (SCALE as int));
    assert(covers(t, w, h, pidx, ci, cj));
    assert forall|p: int|
        0 <= p < b0.len() implies #[trigger] depth_pix_before(t, c, w, h, p, b0[p], z0[p],
        b[p], z[p], ci, cj + 1) by {
        assert(depth_pix_before(t, c, w, h, p, b0[p], z0[p], b[p], z[p], ci, cj));
        if p != pidx {
            lemma_depth_pix_shift(t, c, w, h, p, b0[p], z0[p], b[p], z[p], ci, cj);
        } else {
            assert forall|i: int, j: int|
                covers(t, w, h, p, i, j) && before(i, j, ci, cj + 1) implies zval(t, i, j)
                <= z[p].raw by {
                if !(i == ci && j == cj) {
                    assert(before(i, j, ci, cj));
                }
            }
            if z[p] != z0[p] {
                let (i, j) = choose|i: int, j: int|
                    covers(t, w, h, p, i, j) && before(i, j, ci, cj) && zval(t, i, j)
                        == z[p].raw;
                assert(before(i, j, ci, cj + 1));
                assert(reaches_before(t, w, h, p, z[p].raw as int, ci, cj + 1));
            }
            if wins_before(t, w, h, p, z0[p].raw as int, ci, cj + 1) {
                // either an already processed point won, or the new point
                // beats the old depth while losing to the current one, in
                // which case some processed point already reached the
                // current depth and itself beats the old one
                let (i, j) = choose|i: int, j: int|
                    covers(t, w, h, p, i, j) && before(i, j, ci, cj + 1) && zval(t, i, j)
                        > z0[p].raw;
                if i == ci && j == cj {
                    assert(z[p].raw > z0[p].raw);
                    assert(z[p] != z0[p]);
                    let (i2, j2) = choose|i2: int, j2: int|
                        covers(t, w, h, p, i2, j2) && before(i2, j2, ci, cj) && zval(
                            t, i2, j2) == z[p].raw;
                    assert(wins_before(t, w, h, p, z0[p].raw as int, ci, cj));
                } else {
                    assert(before(i, j, ci, cj));
                    assert(wins_before(t, w, h, p, z0[p].raw as int, ci, cj));
                }
                assert(b[p] == c);
            } else {
                if wins_before(t, w, h, p, z0[p].raw as int, ci, cj) {
                    let (i, j) = choose|i: int, j: int|
                        covers(t, w, h, p, i, j) && before(i, j, ci, cj) && zval(t, i, j)
                            > z0[p].raw;
                    assert(before(i, j, ci, cj + 1));
                    assert(false);
                }
            }
        }
    }
}

/// A scan point outside the triangle covers nothing and keeps the
/// invariant.
proof fn lemma_depth_step_miss(
    t: Triangle,
    c: RGBPixel,
    w: int,
    h: int,
    b0: Seq<RGBPixel>,
    z0: Seq<Fx>,
    b: Seq<RGBPixel>,
    z: Seq<Fx>,
    ci: int,
    cj: int,
)
    requires
        depth_inv(t, c, w, h, b0, z0, b, z, ci, cj),
        !in_tri(t, ci * (SCALE as int), cj * (SCALE as int)),
    ensures
        depth_inv(t, c, w, h, b0, z0, b, z, ci, cj + 1),
{
    assert forall|p: int|
        0 <= p < b0.len() implies #[trigger] depth_pix_before(t, c, w, h, p, b0[p], z0[p],
        b[p], z[p], ci, cj + 1) by {
        assert(depth_pix_before(t, c, w, h, p, b0[p], z0[p], b[p], z[p], ci, cj));
        lemma_depth_pix_shift(t, c, w, h, p, b0[p], z0[p], b[p], z[p], ci, cj);
    }
}

/// Finishing a column is the same as standing at the bottom of the next.
proof fn lemma_depth_col_wrap(
    t: Triangle,
    c: RGBPixel,
    w: int,
    h: int,
    b0: Seq<RGBPixel>,
    z0: Seq<Fx>,
    b: Seq<RGBPixel>,
    z: Seq<Fx>,
    ci: int,
)
    requires
        depth_inv(t, c, w, h, b0, z0, b, z, ci, bb_y1(t) + 1),
    ensures
        depth_inv(t, c, w, h, b0, z0, b, z, ci + 1, bb_y0(t)),
{
    assert forall|p: int|
        0 <= p < b0.len() implies #[trigger] depth_pix_before(t, c, w, h, p, b0[p], z0[p],
        b[p], z[p], ci + 1, bb_y0(t)) by {
        assert(depth_pix_before(t, c, w, h, p, b0[p], z0[p], b[p], z[p], ci, bb_y1(t) + 1));
        assert forall|i: int, j: int|
            covers(t, w, h, p, i, j) && before(i, j, ci + 1, bb_y0(t)) implies zval(t, i, j)
            <= z[p].raw by {
            assert(before(i, j, ci, bb_y1(t) + 1));
        }
        if z[p] != z0[p] {
            let (i, j) = choose|i: int, j: int|
                covers(t, w, h, p, i, j) && before(i, j, ci, bb_y1(t) + 1) && zval(t, i, j)
                    == z[p].raw;
            assert(before(i, j, ci + 1, bb_y0(t)));
            assert(reaches_before(t, w, h, p, z[p].raw as int, ci + 1, bb_y0(t)));
        }
        if wins_before(t, w, h, p, z0[p].raw as int, ci + 1, bb_y0(t)) {
            let (i, j) = choose|i: int, j: int|
                covers(t, w, h, p, i, j) && before(i, j, ci + 1, bb_y0(t)) && zval(t, i, j)
                    > z0[p].raw;
            assert(before(i, j, ci, bb_y1(t) + 1));
            assert(wins_before(t, w, h, p, z0[p].raw as int, ci, bb_y1(t) + 1));
        } else {
            if wins_before(t, w, h, p, z0[p].raw as int, ci, bb_y1(t) + 1) {
                let (i, j) = choose|i: int, j: int|
                    covers(t, w, h, p, i, j) && before(i, j, ci, bb_y1(t) + 1) && zval(
                        t, i, j) > z0[p].raw;
                assert(before(i, j, ci + 1, bb_y0(t)));
                assert(false);
            }
        }
    }
}

/// After the last column, the processed scan points are all of them.
proof fn lemma_depth_done(
    t: Triangle,
    c: RGBPixel,
    w: int,
    h: int,
    b0: Seq<RGBPixel>,
    z0: Seq<Fx>,
    b: Seq<RGBPixel>,
    z: Seq<Fx>,
)
    requires
        depth_inv(t, c, w, h, b0, z0, b, z, bb_x1(t) + 1, bb_y0(t)),
    ensures
        depth_post(t, c, w, h, b0, z0, b, z),
{
    let cx = bb_x1(t) + 1;
    let cy = bb_y0(t);
    assert forall|p: int|
        0 <= p < b0.len() implies #[trigger] depth_pix(t, c, w, h, p, b0[p], z0[p], b[p],
        z[p]) by {
        assert(depth_pix_before(t, c, w, h, p, b0[p], z0[p], b[p], z[p], cx, cy));
        assert forall|i: int, j: int| covers(t, w, h, p, i, j) implies zval(t, i, j)
            <= z[p].raw by {
            assert(before(i, j, cx, cy));
        }
        if z[p] != z0[p] {
            let (i, j) = choose|i: int, j: int|
                covers(t, w, h, p, i, j) && before(i, j, cx, cy) && zval(t, i, j) == z[p].raw;
            assert(reaches(t, w, h, p, z[p].raw as int));
        }
        if wins(t, w, h, p, z0[p].raw as int) {
            let (i, j) = choose|i: int, j: int|
                covers(t, w, h, p, i, j) && zval(t, i, j) > z0[p].raw;
            assert(before(i, j, cx, cy));
            assert(wins_before(t, w, h, p, z0[p].raw as int, cx, cy));
        } else {
            if wins_before(t, w, h, p, z0[p].raw as int, cx, cy) {
                let (i, j) = choose|i: int, j: int|
                    covers(t, w, h, p, i, j) && before(i, j, cx, cy) && zval(t, i, j)
                        > z0[p].raw;
                assert(false);
            }
        }
    }
}

/// Depth resolution: draw two triangles one after the other, in either
/// order, into the same buffers. At a pixel that both triangles reach with
/// depths beating the initial one, the final color is the color of the
/// triangle whose deepest scan point there is larger, and the final stored
/// depth is that larger depth.
pub proof fn lemma_depth_order(
    t1: Triangle,
    c1: RGBPixel,
    t2: Triangle,
    c2: RGBPixel,
    w: int,
    h: int,
    b0: Seq<RGBPixel>,
    z0: Seq<Fx>,
    b1: Seq<RGBPixel>,
    z1: Seq<Fx>,
    b2: Seq<RGBPixel>,
    z2: Seq<Fx>,
    p: int,
    m1: int,
    m2: int,
)
    requires
        depth_post(t1, c1, w, h, b0, z0, b1, z1),
        depth_post(t2, c2, w, h, b1, z1, b2, z2),
        0 <= p < b0.len(),
        reaches(t1, w, h, p, m1),
        caps(t1, w, h, p, m1),
        reaches(t2, w, h, p, m2),
        caps(t2, w, h, p, m2),
        z0[p].raw < m1,
        z0[p].raw < m2,
        m1 != m2,
    ensures
        b2[p] == if m1 > m2 {
            c1
        } else {
            c2
        },
        z2[p].raw == if m1 > m2 {
            m1
        } else {
            m2
        },
{
    assert(depth_pix(t1, c1, w, h, p, b0[p], z0[p], b1[p], z1[p]));
    assert(depth_pix(t2, c2, w, h, p, b1[p], z1[p], b2[p], z2[p]));
    // after the first draw the stored depth is exactly m1
    let (i1, j1) = choose|i: int, j: int| covers(t1, w, h, p, i, j) && zval(t1, i, j) == m1;
    assert(wins(t1, w, h, p, z0[p].raw as int));
    assert(m1 <= z1[p].raw);
    assert(z1[p] != z0[p]);
    let (ir, jr) = choose|i: int, j: int|
        covers(t1, w, h, p, i, j) && zval(t1, i, j) == z1[p].raw;
    assert(z1[p].raw == m1);
    assert(b1[p] == c1);
    let (i2, j2) = choose|i: int, j: int| covers(t2, w, h, p, i, j) && zval(t2, i, j) == m2;
    if m2 > m1 {
        assert(wins(t2, w, h, p, z1[p].raw as int));
        assert(m2 <= z2[p].raw);
        assert(z2[p] != z1[p]);
        let (is, js) = choose|i: int, j: int|
            covers(t2, w, h, p, i, j) && zval(t2, i, j) == z2[p].raw;
        assert(z2[p].raw == m2);
        assert(b2[p] == c2);
    } else {
        if wins(t2, w, h, p, z1[p].raw as int) {
            let (iw, jw) = choose|i: int, j: int|
                covers(t2, w, h, p, i, j) && zval(t2, i, j) > z1[p].raw;
            assert(zval(t2, iw, jw) <= m2);
            assert(false);
        }
        assert(b2[p] == b1[p] && z2[p] == z1[p]);
    }
}

/// Acceptance test of the textured path: the barycentric numerators are
/// either all non-negative or all non-positive (and not all zero), so both
/// triangle winding orders fill.
pub open spec fn in_tri_either(t: Triangle, px: int, py: int) -> bool {
    &&& bary_den(t, px, py) > 0
    &&& ((bary_num0(t, px, py) >= 0 && bary_num1(t, px, py) >= 0 && bary_num2(t, px, py) >= 0)
        || (bary_num0(t, px, py) <= 0 && bary_num1(t, px, py) <= 0 && bary_num2(t, px, py)
        <= 0))
}

/// [`covers`] with the symmetric acceptance test of the textured path.
pub open spec fn covers_either(t: Triangle, w: int, h: int, p: int, i: int, j: int) -> bool {
    &&& bb_x0(t) <= i <= bb_x1(t)
    &&& bb_y0(t) <= j <= bb_y1(t)
    &&& in_tri_either(t, i * (SCALE as int), j * (SCALE as int))
    &&& idx_spec(w, h, i * (SCALE as int), j * (SCALE as int)) == p
}

/// Interpolated texture x coordinate at the scan point `(i, j)`: the
/// vertices' texture coordinates weighted by the exact barycentric weights.
pub open spec fn tex_u(t: Triangle, tcs: [Point3D; 3], i: int, j: int) -> int {
    tdiv(
        bary_num0(t, i * (SCALE as int), j * (SCALE as int)) * tcs@[0].x.raw + bary_num1(
            t, i * (SCALE as int), j * (SCALE as int)) * tcs@[1].x.raw + bary_num2(
            t, i * (SCALE as int), j * (SCALE as int)) * tcs@[2].x.raw,
        bary_den(t, i * (SCALE as int), j * (SCALE as int)),
    )
}

/// Interpolated texture y coordinate at the scan point `(i, j)`.
pub open spec fn tex_v(t: Triangle, tcs: [Point3D; 3], i: int, j: int) -> int {
    tdiv(
        bary_num0(t, i * (SCALE as int), j * (SCALE as int)) * tcs@[0].y.raw + bary_num1(
            t, i * (SCALE as int), j * (SCALE as int)) * tcs@[1].y.raw + bary_num2(
            t, i * (SCALE as int), j * (SCALE as int)) * tcs@[2].y.raw,
        bary_den(t, i * (SCALE as int), j * (SCALE as int)),
    )
}

/// Texture clamp: like [`clamp_spec`] below zero, but overflowing the upper
/// bound wraps by modulo instead of saturating (a deliberate asymmetry).
pub open spec fn tex_clamp_spec(raw: int, dim: int) -> int {
    let f = raw / (SCALE as int);
    if f >= dim {
        f % dim
    } else if raw <= 0 {
        0
    } else {
        f
    }
}

/// Texture pixel index of a texture-space point, with the same vertical
/// flip as the frame buffer.
pub open spec fn tex_idx(texw: int, texh: int, uraw: int, vraw: int) -> int {
    texw * tex_clamp_spec(texh * (SCALE as int) - vraw, texh) + tex_clamp_spec(uraw, texw)
}

/// One 8-bit channel scaled by a lighting intensity in `[0, 1]`, rounded
/// down.
pub open spec fn scale_channel(ch: u8, iraw: int) -> int {
    tdiv(ch * iraw, SCALE as int)
}

/// The color sampled at a texture-space point and lit with `iraw`.
pub open spec fn tex_pix_at(tex: Texture, uraw: int, vraw: int, iraw: int) -> RGBPixel {
    let base = 3 * tex_idx(tex.width as int, tex.height as int, uraw, vraw);
    RGBPixel {
        red: scale_channel(tex.bytes@[base], iraw) as u8,
        green: scale_channel(tex.bytes@[base + 1], iraw) as u8,
        blue: scale_channel(tex.bytes@[base + 2], iraw) as u8,
    }
}

/// The color the textured path writes for the scan point `(i, j)`.
pub open spec fn tex_pix(
    tex: Texture,
    t: Triangle,
    tcs: [Point3D; 3],
    iraw: int,
    i: int,
    j: int,
) -> RGBPixel {
    tex_pix_at(tex, tex_u(t, tcs, i, j), tex_v(t, tcs, i, j), iraw)
}

/// Some scan point accepted by the textured path and covering `p` is deeper
/// than `cap`.
pub open spec fn wins_either(t: Triangle, w: int, h: int, p: int, cap: int) -> bool {
    exists|i: int, j: int| covers_either(t, w, h, p, i, j) && zval(t, i, j) > cap
}

/// Some accepted scan point covering `p` has depth exactly `v`.
pub open spec fn reaches_either(t: Triangle, w: int, h: int, p: int, v: int) -> bool {
    exists|i: int, j: int| covers_either(t, w, h, p, i, j) && zval(t, i, j) == v
}

/// No accepted scan point covering `p` is deeper than `cap`.
pub open spec fn caps_either(t: Triangle, w: int, h: int, p: int, cap: int) -> bool {
    forall|i: int, j: int| covers_either(t, w, h, p, i, j) ==> zval(t, i, j) <= cap
}

/// Some accepted scan point covering `p` has depth exactly `v` and samples
/// the color `pix`.
pub open spec fn best_pix(
    t: Triangle,
    tcs: [Point3D; 3],
    tex: Texture,
    iraw: int,
    w: int,
    h: int,
    p: int,
    v: int,
    pix: RGBPixel,
) -> bool {
    exists|i: int, j: int|
        covers_either(t, w, h, p, i, j) && zval(t, i, j) == v && tex_pix(tex, t, tcs, iraw, i,
            j) == pix
}

/// What textured depth-tested filling does to one pixel: the stored depth
/// becomes the maximum of its old value and the depths of all accepted scan
/// points landing there; when some such point beats the old depth, the
/// pixel holds the texture sample of a deepest such point.
pub open spec fn tex_post_pix(
    t: Triangle,
    tcs: [Point3D; 3],
    tex: Texture,
    iraw: int,
    w: int,
    h: int,
    p: int,
    b0p: RGBPixel,
    z0p: Fx,
    b1p: RGBPixel,
    z1p: Fx,
) -> bool {
    &&& z0p.raw <= z1p.raw
    &&& caps_either(t, w, h, p, z1p.raw as int)
    &&& (z1p == z0p || reaches_either(t, w, h, p, z1p.raw as int))
    &&& (wins_either(t, w, h, p, z0p.raw as int) ==> best_pix(t, tcs, tex, iraw, w, h, p,
        z1p.raw as int, b1p))
    &&& (!wins_either(t, w, h, p, z0p.raw as int) ==> b1p == b0p && z1p == z0p)
}

/// What textured depth-tested filling does: [`tex_post_pix`] at every pixel.
pub open spec fn tex_post(
    t: Triangle,
    tcs: [Point3D; 3],
    tex: Texture,
    iraw: int,
    w: int,
    h: int,
    b0: Seq<RGBPixel>,
    z0: Seq<Fx>,
    b1: Seq<RGBPixel>,
    z1: Seq<Fx>,
) -> bool {
    &&& b1.len() == b0.len()
    &&& z1.len() == z0.len()
    &&& z0.len() == b0.len()
    &&& forall|p: int|
        0 <= p < b0.len() ==> #[trigger] tex_post_pix(t, tcs, tex, iraw, w, h, p, b0[p],
            z0[p], b1[p], z1[p])
}

/// [`wins_either`] restricted to scan points before `(ci, cj)`.
spec fn wins_e_before(t: Triangle, w: int, h: int, p: int, cap: int, ci: int, cj: int) -> bool {
    exists|i: int, j: int|
        covers_either(t, w, h, p, i, j) && before(i, j, ci, cj) && zval(t, i, j) > cap
}

/// [`reaches_either`] restricted to scan points before `(ci, cj)`.
spec fn reaches_e_before(t: Triangle, w: int, h: int, p: int, v: int, ci: int, cj: int) -> bool {
    exists|i: int, j: int|
        covers_either(t, w, h, p, i, j) && before(i, j, ci, cj) && zval(t, i, j) == v
}

/// [`caps_either`] restricted to scan points before `(ci, cj)`.
spec fn caps_e_before(t: Triangle, w: int, h: int, p: int, cap: int, ci: int, cj: int) -> bool {
    forall|i: int, j: int|
        covers_either(t, w, h, p, i, j) && before(i, j, ci, cj) ==> zval(t, i, j) <= cap
}

/// [`best_pix`] restricted to scan points before `(ci, cj)`.
spec fn best_pix_before(
    t: Triangle,
    tcs: [Point3D; 3],
    tex: Texture,
    iraw: int,
    w: int,
    h: int,
    p: int,
    v: int,
    pix: RGBPixel,
    ci: int,
    cj: int,
) -> bool {
    exists|i: int, j: int|
        covers_either(t, w, h, p, i, j) && before(i, j, ci, cj) && zval(t, i, j) == v
            && tex_pix(tex, t, tcs, iraw, i, j) == pix
}

/// [`tex_post_pix`] restricted to scan points before `(ci, cj)`.
spec fn tex_pix_inv(
    t: Triangle,
    tcs: [Point3D; 3],
    tex: Texture,
    iraw: int,
    w: int,
    h: int,
    p: int,
    b0p: RGBPixel,
    z0p: Fx,
    bp: RGBPixel,
    zp: Fx,
    ci: int,
    cj: int,
) -> bool {
    &&& z0p.raw <= zp.raw
    &&& caps_e_before(t, w, h, p, zp.raw as int, ci, cj)
    &&& (zp == z0p || reaches_e_before(t, w, h, p, zp.raw as int, ci, cj))
    &&& (wins_e_before(t, w, h, p, z0p.raw as int, ci, cj) ==> best_pix_before(t, tcs, tex,
        iraw, w, h, p, zp.raw as int, bp, ci, cj))
    &&& (!wins_e_before(t, w, h, p, z0p.raw as int, ci, cj) ==> bp == b0p && zp == z0p)
}

/// Loop invariant of textured filling.
spec fn tex_inv(
    t: Triangle,
    tcs: [Point3D; 3],
    tex: Texture,
    iraw: int,
    w: int,
    h: int,
    b0: Seq<RGBPixel>,
    z0: Seq<Fx>,
    b: Seq<RGBPixel>,
    z: Seq<Fx>,
    ci: int,
    cj: int,
) -> bool {
    &&& b.len() == b0.len()
    &&& z.len() == z0.len()
    &&& z0.len() == b0.len()
    &&& forall|p: int|
        0 <= p < b0.len() ==> #[trigger] tex_pix_inv(t, tcs, tex, iraw, w, h, p, b0[p], z0[p],
            b[p], z[p], ci, cj)
}

/// Before the first scan point, nothing is covered yet.
proof fn lemma_tex_init(
    t: Triangle,
    tcs: [Point3D; 3],
    tex: Texture,
    iraw: int,
    w: int,
    h: int,
    b0: Seq<RGBPixel>,
    z0: Seq<Fx>,
)
    requires
        z0.len() == b0.len(),
    ensures
        tex_inv(t, tcs, tex, iraw, w, h, b0, z0, b0, z0, bb_x0(t), bb_y0(t)),
{
    assert forall|p: int|
        0 <= p < b0.len() implies #[trigger] tex_pix_inv(t, tcs, tex, iraw, w, h, p, b0[p],
        z0[p], b0[p], z0[p], bb_x0(t), bb_y0(t)) by {
        if wins_e_before(t, w, h, p, z0[p].raw as int, bb_x0(t), bb_y0(t)) {
            let (i, j) = choose|i: int, j: int|
                covers_either(t, w, h, p, i, j) && before(i, j, bb_x0(t), bb_y0(t)) && zval(
                    t, i, j) > z0[p].raw;
            assert(false);
        }
    }
}

/// Away from the written pixel, extending the processed prefix by one scan
/// point landing elsewhere changes none of the prefix predicates.
proof fn lemma_tex_pix_shift(
    t: Triangle,
    tcs: [Point3D; 3],
    tex: Texture,
    iraw: int,
    w: int,
    h: int,
    p: int,
    b0p: RGBPixel,
    z0p: Fx,
    bp: RGBPixel,
    zp: Fx,
    ci: int,
    cj: int,
)
    requires
        tex_pix_inv(t, tcs, tex, iraw, w, h, p, b0p, z0p, bp, zp, ci, cj),
        idx_spec(w, h, ci * (SCALE as int), cj * (SCALE as int)) != p || !in_tri_either(
            t, ci * (SCALE as int), cj * (SCALE as int)),
    ensures
        tex_pix_inv(t, tcs, tex, iraw, w, h, p, b0p, z0p, bp, zp, ci, cj + 1),
{
    assert forall|i: int, j: int|
        covers_either(t, w, h, p, i, j) && before(i, j, ci, cj + 1) implies zval(t, i, j)
        <= zp.raw by {
        assert(before(i, j, ci, cj));
    }
    if zp != z0p {
        let (i, j) = choose|i: int, j: int|
            covers_either(t, w, h, p, i, j) && before(i, j, ci, cj) && zval(t, i, j)
                == zp.raw;
        assert(before(i, j, ci, cj + 1));
        assert(reaches_e_before(t, w, h, p, zp.raw as int, ci, cj + 1));
    }
    if wins_e_before(t, w, h, p, z0p.raw as int, ci, cj + 1) {
        let (i, j) = choose|i: int, j: int|
            covers_either(t, w, h, p, i, j) && before(i, j, ci, cj + 1) && zval(t, i, j)
                > z0p.raw;
        assert(before(i, j, ci, cj));
        assert(wins_e_before(t, w, h, p, z0p.raw as int, ci, cj));
        let (i2, j2) = choose|i2: int, j2: int|
            covers_either(t, w, h, p, i2, j2) && before(i2, j2, ci, cj) && zval(t, i2, j2)
                == zp.raw && tex_pix(tex, t, tcs, iraw, i2, j2) == bp;
        assert(before(i2, j2, ci, cj + 1));
        assert(best_pix_before(t, tcs, tex, iraw, w, h, p, zp.raw as int, bp, ci, cj + 1));
    } else {
        if wins_e_before(t, w, h, p, z0p.raw as int, ci, cj) {
            let (i, j) = choose|i: int, j: int|
                covers_either(t, w, h, p, i, j) && before(i, j, ci, cj) && zval(t, i, j)
                    > z0p.raw;
            assert(before(i, j, ci, cj + 1));
            assert(false);
        }
    }
}

/// An accepted scan point that passes the depth test writes its sampled
/// color and depth and keeps the invariant.
proof fn lemma_tex_step_write(
    t: Triangle,
    tcs: [Point3D; 3],
    tex: Texture,
    iraw: int,
    w: int,
    h: int,
    b0: Seq<RGBPixel>,
    z0: Seq<Fx>,
    b: Seq<RGBPixel>,
    z: Seq<Fx>,
    ci: int,
    cj: int,
    zv: Fx,
    pix: RGBPixel,
    bnew: Seq<RGBPixel>,
    znew: Seq<Fx>,
)
    requires
        tex_inv(t, tcs, tex, iraw, w, h, b0, z0, b, z, ci, cj),
        bb_x0(t) <= ci <= bb_x1(t),
        bb_y0(t) <= cj <= bb_y1(t),
        in_tri_either(t, ci * (SCALE as int), cj * (SCALE as int)),
        0 <= idx_spec(w, h, ci * (SCALE as int), cj * (SCALE as int)) < b0.len(),
        zv.raw == zval(t, ci, cj),
        pix == tex_pix(tex, t, tcs, iraw, ci, cj),
        z[idx_spec(w, h, ci * (SCALE as int), cj * (SCALE as int))].raw < zv.raw,
        bnew == b.update(idx_spec(w, h, ci * (SCALE as int), cj * (SCALE as int)), pix),
        znew == z.update(idx_spec(w, h, ci * (SCALE as int), cj * (SCALE as int)), zv),
    ensures
        tex_inv(t, tcs, tex, iraw, w, h, b0, z0, bnew, znew, ci, cj + 1),
{
    let pidx = idx_spec(w, h, ci * (SCALE as int), cj * (SCALE as int));
    assert(covers_either(t, w, h, pidx, ci, cj));
    assert(before(ci, cj, ci, cj + 1));
    assert forall|p: int|
        0 <= p < b0.len() implies #[trigger] tex_pix_inv(t, tcs, tex, iraw, w, h, p, b0[p],
        z0[p], bnew[p], znew[p], ci, cj + 1) by {
        assert(tex_pix_inv(t, tcs, tex, iraw, w, h, p, b0[p], z0[p], b[p], z[p], ci, cj));
        if p != pidx {
            lemma_tex_pix_shift(t, tcs, tex, iraw, w, h, p, b0[p], z0[p], b[p], z[p], ci, cj);
        } else {
            assert(z0[p].raw <= z[p].raw);
            assert forall|i: int, j: int|
                covers_either(t, w, h, p, i, j) && before(i, j, ci, cj + 1) implies zval(
                t, i, j) <= zv.raw by {
                if i == ci && j == cj {
                } else {
                    assert(before(i, j, ci, cj));
                    assert(zval(t, i, j) <= z[p].raw);
                }
            }
            assert(reaches_e_before(t, w, h, p, zv.raw as int, ci, cj + 1));
            assert(wins_e_before(t, w, h, p, z0[p].raw as int, ci, cj + 1));
            assert(best_pix_before(t, tcs, tex, iraw, w, h, p, zv.raw as int, pix, ci,
                cj + 1));
        }
    }
}

/// An accepted scan point that fails the depth test changes nothing and
/// keeps the invariant.
proof fn lemma_tex_step_skip(
    t: Triangle,
    tcs: [Point3D; 3],
    tex: Texture,
    iraw: int,
    w: int,
    h: int,
    b0: Seq<RGBPixel>,
    z0: Seq<Fx>,
    b: Seq<RGBPixel>,
    z: Seq<Fx>,
    ci: int,
    cj: int,
)
    requires
        tex_inv(t, tcs, tex, iraw, w, h, b0, z0, b, z, ci, cj),
        bb_x0(t) <= ci <= bb_x1(t),
        bb_y0(t) <= cj <= bb_y1(t),
        in_tri_either(t, ci * (SCALE as int), cj * (SCALE as int)),
        0 <= idx_spec(w, h, ci * (SCALE as int), cj * (SCALE as int)) < b0.len(),
        zval(t, ci, cj) <= z[idx_spec(w, h, ci * (SCALE as int), cj * (SCALE as int))].raw,
    ensures
        tex_inv(t, tcs, tex, iraw, w, h, b0, z0, b, z, ci, cj + 1),
{
    let pidx = idx_spec(w, h, ci * (SCALE as int), cj * (SCALE as int));
    assert(covers_either(t, w, h, pidx, ci, cj));
    assert forall|p: int|
        0 <= p < b0.len() implies #[trigger] tex_pix_inv(t, tcs, tex, iraw, w, h, p, b0[p],
        z0[p], b[p], z[p], ci, cj + 1) by {
        assert(tex_pix_inv(t, tcs, tex, iraw, w, h, p, b0[p], z0[p], b[p], z[p], ci, cj));
        if p != pidx {
            lemma_tex_pix_shift(t, tcs, tex, iraw, w, h, p, b0[p], z0[p], b[p], z[p], ci, cj);
        } else {
            assert forall|i: int, j: int|
                covers_either(t, w, h, p, i, j) && before(i, j, ci, cj + 1) implies zval(
                t, i, j) <= z[p].raw by {
                if !(i == ci && j == cj) {
                    assert(before(i, j, ci, cj));
                }
            }
            if z[p] != z0[p] {
                let (i, j) = choose|i: int, j: int|
                    covers_either(t, w, h, p, i, j) && before(i, j, ci, cj) && zval(t, i, j)
                        == z[p].raw;
                assert(before(i, j, ci, cj + 1));
                assert(reaches_e_before(t, w, h, p, z[p].raw as int, ci, cj + 1));
            }
            if wins_e_before(t, w, h, p, z0[p].raw as int, ci, cj + 1) {
                let (i, j) = choose|i: int, j: int|
                    covers_either(t, w, h, p, i, j) && before(i, j, ci, cj + 1) && zval(
                        t, i, j) > z0[p].raw;
                if i == ci && j == cj {
                    assert(z[p].raw > z0[p].raw);
                    assert(z[p] != z0[p]);
                    let (i2, j2) = choose|i2: int, j2: int|
                        covers_either(t, w, h, p, i2, j2) && before(i2, j2, ci, cj) && zval(
                            t, i2, j2) == z[p].raw;
                    assert(wins_e_before(t, w, h, p, z0[p].raw as int, ci, cj));
                } else {
                    assert(before(i, j, ci, cj));
                    assert(wins_e_before(t, w, h, p, z0[p].raw as int, ci, cj));
                }
                let (i3, j3) = choose|i3: int, j3: int|
                    covers_either(t, w, h, p, i3, j3) && before(i3, j3, ci, cj) && zval(
                        t, i3, j3) == z[p].raw && tex_pix(tex, t, tcs, iraw, i3, j3) == b[p];
                assert(before(i3, j3, ci, cj + 1));
                assert(best_pix_before(t, tcs, tex, iraw, w, h, p, z[p].raw as int, b[p], ci,
                    cj + 1));
            } else {
                if wins_e_before(t, w, h, p, z0[p].raw as int, ci, cj) {
                    let (i, j) = choose|i: int, j: int|
                        covers_either(t, w, h, p, i, j) && before(i, j, ci, cj) && zval(
                            t, i, j) > z0[p].raw;
                    assert(before(i, j, ci, cj + 1));
                    assert(false);
                }
            }
        }
    }
}

/// A scan point rejected by the symmetric test covers nothing and keeps the
/// invariant.
proof fn lemma_tex_step_miss(
    t: Triangle,
    tcs: [Point3D; 3],
    tex: Texture,
    iraw: int,
    w: int,
    h: int,
    b0: Seq<RGBPixel>,
    z0: Seq<Fx>,
    b: Seq<RGBPixel>,
    z: Seq<Fx>,
    ci: int,
    cj: int,
)
    requires
        tex_inv(t, tcs, tex, iraw, w, h, b0, z0, b, z, ci, cj),
        !in_tri_either(t, ci * (SCALE as int), cj * (SCALE as int)),
    ensures
        tex_inv(t, tcs, tex, iraw, w, h, b0, z0, b, z, ci, cj + 1),
{
    assert forall|p: int|
        0 <= p < b0.len() implies #[trigger] tex_pix_inv(t, tcs, tex, iraw, w, h, p, b0[p],
        z0[p], b[p], z[p], ci, cj + 1) by {
        assert(tex_pix_inv(t, tcs, tex, iraw, w, h, p, b0[p], z0[p], b[p], z[p], ci, cj));
        lemma_tex_pix_shift(t, tcs, tex, iraw, w, h, p, b0[p], z0[p], b[p], z[p], ci, cj);
    }
}

/// Finishing a column is the same as standing at the bottom of the next.
proof fn lemma_tex_col_wrap(
    t: Triangle,
    tcs: [Point3D; 3],
    tex: Texture,
    iraw: int,
    w: int,
    h: int,
    b0: Seq<RGBPixel>,
    z0: Seq<Fx>,
    b: Seq<RGBPixel>,
    z: Seq<Fx>,
    ci: int,
)
    requires
        tex_inv(t, tcs, tex, iraw, w, h, b0, z0, b, z, ci, bb_y1(t) + 1),
    ensures
        tex_inv(t, tcs, tex, iraw, w, h, b0, z0, b, z, ci + 1, bb_y0(t)),
{
    assert forall|p: int|
        0 <= p < b0.len() implies #[trigger] tex_pix_inv(t, tcs, tex, iraw, w, h, p, b0[p],
        z0[p], b[p], z[p], ci + 1, bb_y0(t)) by {
        assert(tex_pix_inv(t, tcs, tex, iraw, w, h, p, b0[p], z0[p], b[p], z[p], ci,
            bb_y1(t) + 1));
        assert forall|i: int, j: int|
            covers_either(t, w, h, p, i, j) && before(i, j, ci + 1, bb_y0(t)) implies zval(
            t, i, j) <= z[p].raw by {
            assert(before(i, j, ci, bb_y1(t) + 1));
        }
        if z[p] != z0[p] {
            let (i, j) = choose|i: int, j: int|
                covers_either(t, w, h, p, i, j) && before(i, j, ci, bb_y1(t) + 1) && zval(
                    t, i, j) == z[p].raw;
            assert(before(i, j, ci + 1, bb_y0(t)));
            assert(reaches_e_before(t, w, h, p, z[p].raw as int, ci + 1, bb_y0(t)));
        }
        if wins_e_before(t, w, h, p, z0[p].raw as int, ci + 1, bb_y0(t)) {
            let (i, j) = choose|i: int, j: int|
                covers_either(t, w, h, p, i, j) && before(i, j, ci + 1, bb_y0(t)) && zval(
                    t, i, j) > z0[p].raw;
            assert(before(i, j, ci, bb_y1(t) + 1));
            assert(wins_e_before(t, w, h, p, z0[p].raw as int, ci, bb_y1(t) + 1));
            let (i2, j2) = choose|i2: int, j2: int|
                covers_either(t, w, h, p, i2, j2) && before(i2, j2, ci, bb_y1(t) + 1) && zval(
                    t, i2, j2) == z[p].raw && tex_pix(tex, t, tcs, iraw, i2, j2) == b[p];
            assert(before(i2, j2, ci + 1, bb_y0(t)));
            assert(best_pix_before(t, tcs, tex, iraw, w, h, p, z[p].raw as int, b[p], ci + 1,
                bb_y0(t)));
        } else {
            if wins_e_before(t, w, h, p, z0[p].raw as int, ci, bb_y1(t) + 1) {
                let (i, j) = choose|i: int, j: int|
                    covers_either(t, w, h, p, i, j) && before(i, j, ci, bb_y1(t) + 1) && zval(
                        t, i, j) > z0[p].raw;
                assert(before(i, j, ci + 1, bb_y0(t)));
                assert(false);
            }
        }
    }
}

/// After the last column, the processed scan points are all of them.
proof fn lemma_tex_done(
    t: Triangle,
    tcs: [Point3D; 3],
    tex: Texture,
    iraw: int,
    w: int,
    h: int,
    b0: Seq<RGBPixel>,
    z0: Seq<Fx>,
    b: Seq<RGBPixel>,
    z: Seq<Fx>,
)
    requires
        tex_inv(t, tcs, tex, iraw, w, h, b0, z0, b, z, bb_x1(t) + 1, bb_y0(t)),
    ensures
        tex_post(t, tcs, tex, iraw, w, h, b0, z0, b, z),
{
    let cx = bb_x1(t) + 1;
    let cy = bb_y0(t);
    assert forall|p: int|
        0 <= p < b0.len() implies #[trigger] tex_post_pix(t, tcs, tex, iraw, w, h, p, b0[p],
        z0[p], b[p], z[p]) by {
        assert(tex_pix_inv(t, tcs, tex, iraw, w, h, p, b0[p], z0[p], b[p], z[p], cx, cy));
        assert forall|i: int, j: int| covers_either(t, w, h, p, i, j) implies zval(t, i, j)
            <= z[p].raw by {
            assert(before(i, j, cx, cy));
        }
        if z[p] != z0[p] {
            let (i, j) = choose|i: int, j: int|
                covers_either(t, w, h, p, i, j) && before(i, j, cx, cy) && zval(t, i, j)
                    == z[p].raw;
            assert(reaches_either(t, w, h, p, z[p].raw as int));
        }
        if wins_either(t, w, h, p, z0[p].raw as int) {
            let (i, j) = choose|i: int, j: int|
                covers_either(t, w, h, p, i, j) && zval(t, i, j) > z0[p].raw;
            assert(before(i, j, cx, cy));
            assert(wins_e_before(t, w, h, p, z0[p].raw as int, cx, cy));
            let (i2, j2) = choose|i2: int, j2: int|
                covers_either(t, w, h, p, i2, j2) && before(i2, j2, cx, cy) && zval(
                    t, i2, j2) == z[p].raw && tex_pix(tex, t, tcs, iraw, i2, j2) == b[p];
            assert(best_pix(t, tcs, tex, iraw, w, h, p, z[p].raw as int, b[p]));
        } else {
            if wins_e_before(t, w, h, p, z0[p].raw as int, cx, cy) {
                let (i, j) = choose|i: int, j: int|
                    covers_either(t, w, h, p, i, j) && before(i, j, cx, cy) && zval(t, i, j)
                        > z0[p].raw;
                assert(false);
            }
        }
    }
}

/// The interpolated depth is bounded by the largest vertex depth, and its
/// numerator fits the wide intermediate range.
proof fn lemma_interp_bound(n0: int, n1: int, n2: int, den: int, z0: int, z1: int, z2: int)
    requires
        den == abs_int(n0) + abs_int(n1) + abs_int(n2),
        den > 0,
        -(COORD_LIM as int) <= z0 <= COORD_LIM as int,
        -(COORD_LIM as int) <= z1 <= COORD_LIM as int,
        -(COORD_LIM as int) <= z2 <= COORD_LIM as int,
    ensures
        -(den * (COORD_LIM as int)) <= n0 * z0 + n1 * z1 + n2 * z2 <= den * (COORD_LIM as int),
        -(COORD_LIM as int) <= tdiv(n0 * z0 + n1 * z1 + n2 * z2, den) <= COORD_LIM as int,
{
    let lim = COORD_LIM as int;
    lemma_abs_mul_bound(n0, z0, abs_int(n0), lim);
    lemma_abs_mul_bound(n1, z1, abs_int(n1), lim);
    lemma_abs_mul_bound(n2, z2, abs_int(n2), lim);
    assert((abs_int(n0) + abs_int(n1) + abs_int(n2)) * lim == abs_int(n0) * lim + abs_int(n1)
        * lim + abs_int(n2) * lim) by (nonlinear_arith);
    assert(den * lim == lim * den) by (nonlinear_arith);
    lemma_tdiv_bound(n0 * z0 + n1 * z1 + n2 * z2, den, lim);
}

impl ImageMeta {
    /// Depth-tested fill: like [`ImageMeta::draw_triangle_old`], but each
    /// accepted scan point interpolates the vertex depths by its barycentric
    /// weights and writes pixel and depth only when strictly deeper than the
    /// depth stored for that pixel (larger stored value wins).
    pub fn draw_triangle(&mut self, triangle: Triangle, zbuffer: &mut Vec<Fx>, color: &RGBPixel)
        requires
            old(self).wf(),
            tri_ok(triangle),
            old(zbuffer)@.len() == old(self).buffer@.len(),
        ensures
            final(self).wf(),
            final(self).width == old(self).width,
            final(self).height == old(self).height,
            depth_post(triangle, *color, old(self).width as int, old(self).height as int,
                old(self).buffer@, old(zbuffer)@, final(self).buffer@, final(zbuffer)@),
    {
        let ghost w = self.width as int;
        let ghost h = self.height as int;
        let ghost b0 = self.buffer@;
        let ghost z0 = zbuffer@;
        let (sw, ne) = triangle.compute_bbox();
        let x0: i64 = floor_div_i64(sw.x.raw, SCALE);
        let x1: i64 = floor_div_i64(ne.x.raw, SCALE);
        let y0: i64 = floor_div_i64(sw.y.raw, SCALE);
        let y1: i64 = floor_div_i64(ne.y.raw, SCALE);
        proof {
            lemma_scan_bounds(triangle, sw, ne);
            lemma_depth_init(triangle, *color, w, h, b0, z0);
        }
        let mut xi: i64 = x0;
        while xi <= x1
            invariant
                self.wf(),
                self.width as int == w,
                self.height as int == h,
                tri_ok(triangle),
                x0 as int == bb_x0(triangle),
                x1 as int == bb_x1(triangle),
                y0 as int == bb_y0(triangle),
                y1 as int == bb_y1(triangle),
                -0x8001 <= x0 <= x1 <= 0x8001,
                -0x8001 <= y0 <= y1 <= 0x8001,
                x0 <= xi <= x1 + 1,
                b0.len() == w * h,
                zbuffer@.len() == z0.len(),
                depth_inv(triangle, *color, w, h, b0, z0, self.buffer@, zbuffer@, xi as int,
                    bb_y0(triangle)),
            decreases x1 + 1 - xi,
        {
            let mut yj: i64 = y0;
            while yj <= y1
                invariant
                    self.wf(),
                    self.width as int == w,
                    self.height as int == h,
                    tri_ok(triangle),
                    x0 as int == bb_x0(triangle),
                    x1 as int == bb_x1(triangle),
                    y0 as int == bb_y0(triangle),
                    y1 as int == bb_y1(triangle),
                    -0x8001 <= x0 <= x1 <= 0x8001,
                    -0x8001 <= y0 <= y1 <= 0x8001,
                    x0 <= xi <= x1,
                    y0 <= yj <= y1 + 1,
                    b0.len() == w * h,
                    zbuffer@.len() == z0.len(),
                    depth_inv(triangle, *color, w, h, b0, z0, self.buffer@, zbuffer@,
                        xi as int, yj as int),
                decreases y1 + 1 - yj,
            {
                let px = Fx { raw: xi * SCALE };
                let py = Fx { raw: yj * SCALE };
                let (n0, n1, n2, den) = triangle.bary_nums(px, py);
                if den > 0 && n0 >= 0 && n1 >= 0 && n2 >= 0 {
                    let vz0 = triangle.vertices[0].z.raw;
                    let vz1 = triangle.vertices[1].z.raw;
                    let vz2 = triangle.vertices[2].z.raw;
                    proof {
                        lemma_interp_bound(n0 as int, n1 as int, n2 as int, den as int,
                            vz0 as int, vz1 as int, vz2 as int);
                        lemma_abs_mul_bound(n0 as int, vz0 as int, 0x4_8000_0000_0000_0000,
                            COORD_LIM as int);
                        lemma_abs_mul_bound(n1 as int, vz1 as int, 0x4_8000_0000_0000_0000,
                            COORD_LIM as int);
                        lemma_abs_mul_bound(n2 as int, vz2 as int, 0x4_8000_0000_0000_0000,
                            COORD_LIM as int);
                    }
                    let znum: i128 = n0 * (vz0 as i128) + n1 * (vz1 as i128) + n2 * (
                    vz2 as i128);
                    let zv: i64 = tdiv_i128(znum, den) as i64;
                    let idx = self.image_to_vector_index(px, py);
                    if zbuffer[idx].raw < zv {
                        let ghost bpre = self.buffer@;
                        let ghost zpre = zbuffer@;
                        zbuffer[idx] = Fx { raw: zv };
                        self.set_pixel(px, py, color);
                        proof {
                            lemma_depth_step_write(triangle, *color, w, h, b0, z0, bpre, zpre,
                                xi as int, yj as int, Fx { raw: zv }, self.buffer@, zbuffer@);
                        }
                    } else {
                        proof {
                            lemma_depth_step_skip(triangle, *color, w, h, b0, z0,
                                self.buffer@, zbuffer@, xi as int, yj as int);
                        }
                    }
                } else {
                    proof {
                        lemma_depth_step_miss(triangle, *color, w, h, b0, z0, self.buffer@,
                            zbuffer@, xi as int, yj as int);
                    }
                }
                yj = yj + 1;
            }
            proof {
                lemma_depth_col_wrap(triangle, *color, w, h, b0, z0, self.buffer@, zbuffer@,
                    xi as int);
            }
            xi = xi + 1;
        }
        proof {
            lemma_depth_done(triangle, *color, w, h, b0, z0, self.buffer@, zbuffer@);
        }
    }
}

/// Texture-space clamp: saturate below zero, wrap by modulo above the
/// upper bound.
fn tex_clamp(raw: i64, dim: usize) -> (r: usize)
    requires
        0 < dim <= 0x8000,
    ensures
        r as int == tex_clamp_spec(raw as int, dim as int),
        r < dim,
{
    let f: i64 = floor_div_i64(raw, SCALE);
    if f >= dim as i64 {
        proof {
            lemma_mod_division_less_than_divisor(f as int, dim as int);
        }
        ((f as u64) % (dim as u64)) as usize
    } else if raw <= 0 {
        0
    } else {
        f as usize
    }
}

/// One 8-bit channel scaled by a lighting intensity in `[0, 1]`.
fn scale_channel_u8(ch: u8, intensity: Fx) -> (r: u8)
    requires
        0 <= intensity.raw <= SCALE,
    ensures
        r as int == scale_channel(ch, intensity.raw as int),
{
    proof {
        assert(0 <= (ch as int) * (intensity.raw as int) <= 255 * (SCALE as int))
            by (nonlinear_arith)
            requires
                0 <= ch as int <= 255,
                0 <= intensity.raw as int <= SCALE as int;
    }
    let p: u64 = (ch as u64) * (intensity.raw as u64);
    let q: u64 = p / (SCALE as u64);
    proof {
        lemma_div_is_ordered(p as int, 255 * (SCALE as int), SCALE as int);
        lemma_div_by_multiple(255, SCALE as int);
    }
    q as u8
}

/// Sample the texture at a texture-space point and light it: row and
/// column come from the flipped, clamp-or-wrap mapping, and each channel is
/// scaled by the intensity.
fn tex_sample(tex: &Texture, uraw: i64, vraw: i64, intensity: Fx) -> (r: RGBPixel)
    requires
        tex.wf(),
        -2 * (COORD_LIM as int) <= uraw <= 2 * (COORD_LIM as int),
        -2 * (COORD_LIM as int) <= vraw <= 2 * (COORD_LIM as int),
        0 <= intensity.raw <= SCALE,
    ensures
        r == tex_pix_at(*tex, uraw as int, vraw as int, intensity.raw as int),
{
    proof {
        assert(0 <= (tex.height as int) * (SCALE as int) <= 0x8000_0000) by (nonlinear_arith)
            requires
                0 < tex.height as int <= 0x8000,
                SCALE as int == 65536;
    }
    let flipped: i64 = (tex.height as i64) * (SCALE as i64) - vraw;
    let rowt: usize = tex_clamp(flipped, tex.height);
    let colt: usize = tex_clamp(uraw, tex.width);
    proof {
        assert((tex.width as int) * (rowt as int) + (colt as int) < (tex.width as int) * (
        tex.height as int) && (tex.width as int) * (rowt as int) + (colt as int)
            < 0x4000_0000) by (nonlinear_arith)
            requires
                (rowt as int) < tex.height as int,
                (colt as int) < tex.width as int,
                0 <= rowt as int,
                0 <= colt as int,
                0 < tex.width as int <= 0x8000,
                0 < tex.height as int <= 0x8000;
    }
    proof {
        assert(3 * ((tex.width as int) * (rowt as int) + (colt as int)) + 2 < 3 * ((
        tex.width as int) * (tex.height as int)) && 3 * ((tex.width as int) * (
        tex.height as int)) == 3 * (tex.width as int) * (tex.height as int))
            by (nonlinear_arith)
            requires
                (tex.width as int) * (rowt as int) + (colt as int) < (tex.width as int) * (
                tex.height as int);
    }
    let base: usize = 3 * (tex.width * rowt + colt);
    let red = scale_channel_u8(tex.bytes[base], intensity);
    let green = scale_channel_u8(tex.bytes[base + 1], intensity);
    let blue = scale_channel_u8(tex.bytes[base + 2], intensity);
    RGBPixel { red, green, blue }
}

impl ImageMeta {
    /// Textured, depth-tested fill: the classification accepts both winding
    /// orders (all barycentric numerators non-negative or all
    /// non-positive); on a depth win, the pixel color is sampled from the
    /// texture at the barycentric interpolation of the vertices' texture
    /// coordinates and scaled by the lighting intensity.
    pub fn draw_triangle_with_texture(
        &mut self,
        triangle: Triangle,
        texture_coords: [Point3D; 3],
        texture_img: &Texture,
        intensity: Fx,
        zbuffer: &mut Vec<Fx>,
    )
        requires
            old(self).wf(),
            tri_ok(triangle),
            pt_ok(texture_coords@[0]),
            pt_ok(texture_coords@[1]),
            pt_ok(texture_coords@[2]),
            texture_img.wf(),
            0 <= intensity.raw <= SCALE,
            old(zbuffer)@.len() == old(self).buffer@.len(),
        ensures
            final(self).wf(),
            final(self).width == old(self).width,
            final(self).height == old(self).height,
            tex_post(triangle, texture_coords, *texture_img, intensity.raw as int,
                old(self).width as int, old(self).height as int, old(self).buffer@,
                old(zbuffer)@, final(self).buffer@, final(zbuffer)@),
    {
        let ghost w = self.width as int;
        let ghost h = self.height as int;
        let ghost b0 = self.buffer@;
        let ghost z0 = zbuffer@;
        let (sw, ne) = triangle.compute_bbox();
        let x0: i64 = floor_div_i64(sw.x.raw, SCALE);
        let x1: i64 = floor_div_i64(ne.x.raw, SCALE);
        let y0: i64 = floor_div_i64(sw.y.raw, SCALE);
        let y1: i64 = floor_div_i64(ne.y.raw, SCALE);
        proof {
            lemma_scan_bounds(triangle, sw, ne);
            lemma_tex_init(triangle, texture_coords, *texture_img, intensity.raw as int, w, h,
                b0, z0);
        }
        let mut xi: i64 = x0;
        while xi <= x1
            invariant
                self.wf(),
                self.width as int == w,
                self.height as int == h,
                tri_ok(triangle),
                pt_ok(texture_coords@[0]),
                pt_ok(texture_coords@[1]),
                pt_ok(texture_coords@[2]),
                texture_img.wf(),
                0 <= intensity.raw <= SCALE,
                x0 as int == bb_x0(triangle),
                x1 as int == bb_x1(triangle),
                y0 as int == bb_y0(triangle),
                y1 as int == bb_y1(triangle),
                -0x8001 <= x0 <= x1 <= 0x8001,
                -0x8001 <= y0 <= y1 <= 0x8001,
                x0 <= xi <= x1 + 1,
                b0.len() == w * h,
                zbuffer@.len() == z0.len(),
                tex_inv(triangle, texture_coords, *texture_img, intensity.raw as int, w, h,
                    b0, z0, self.buffer@, zbuffer@, xi as int, bb_y0(triangle)),
            decreases x1 + 1 - xi,
        {
            let mut yj: i64 = y0;
            while yj <= y1
                invariant
                    self.wf(),
                    self.width as int == w,
                    self.height as int == h,
                    tri_ok(triangle),
                    pt_ok(texture_coords@[0]),
                    pt_ok(texture_coords@[1]),
                    pt_ok(texture_coords@[2]),
                    texture_img.wf(),
                    0 <= intensity.raw <= SCALE,
                    x0 as int == bb_x0(triangle),
                    x1 as int == bb_x1(triangle),
                    y0 as int == bb_y0(triangle),
                    y1 as int == bb_y1(triangle),
                    -0x8001 <= x0 <= x1 <= 0x8001,
                    -0x8001 <= y0 <= y1 <= 0x8001,
                    x0 <= xi <= x1,
                    y0 <= yj <= y1 + 1,
                    b0.len() == w * h,
                    zbuffer@.len() == z0.len(),
                    tex_inv(triangle, texture_coords, *texture_img, intensity.raw as int, w,
                        h, b0, z0, self.buffer@, zbuffer@, xi as int, yj as int),
                decreases y1 + 1 - yj,
            {
                let px = Fx { raw: xi * SCALE };
                let py = Fx { raw: yj * SCALE };
                let (n0, n1, n2, den) = triangle.bary_nums(px, py);
                let up = n0 >= 0 && n1 >= 0 && n2 >= 0;
                let dn = n0 <= 0 && n1 <= 0 && n2 <= 0;
                if den > 0 && (up || dn) {
                    let vz0 = triangle.vertices[0].z.raw;
                    let vz1 = triangle.vertices[1].z.raw;
                    let vz2 = triangle.vertices[2].z.raw;
                    let tc0 = texture_coords[0];
                    let tc1 = texture_coords[1];
                    let tc2 = texture_coords[2];
                    proof {
                        lemma_interp_bound(n0 as int, n1 as int, n2 as int, den as int,
                            vz0 as int, vz1 as int, vz2 as int);
                        lemma_interp_bound(n0 as int, n1 as int, n2 as int, den as int,
                            tc0.x.raw as int, tc1.x.raw as int, tc2.x.raw as int);
                        lemma_interp_bound(n0 as int, n1 as int, n2 as int, den as int,
                            tc0.y.raw as int, tc1.y.raw as int, tc2.y.raw as int);
                        lemma_num_products_fit(n0 as int, n1 as int, n2 as int, vz0 as int,
                            vz1 as int, vz2 as int);
                        lemma_num_products_fit(n0 as int, n1 as int, n2 as int,
                            tc0.x.raw as int, tc1.x.raw as int, tc2.x.raw as int);
                        lemma_num_products_fit(n0 as int, n1 as int, n2 as int,
                            tc0.y.raw as int, tc1.y.raw as int, tc2.y.raw as int);
                    }
                    let znum: i128 = n0 * (vz0 as i128) + n1 * (vz1 as i128) + n2 * (
                    vz2 as i128);
                    let zv: i64 = tdiv_i128(znum, den) as i64;
                    let unum: i128 = n0 * (tc0.x.raw as i128) + n1 * (tc1.x.raw as i128) + n2
                        * (tc2.x.raw as i128);
                    let uraw: i64 = tdiv_i128(unum, den) as i64;
                    let vnum: i128 = n0 * (tc0.y.raw as i128) + n1 * (tc1.y.raw as i128) + n2
                        * (tc2.y.raw as i128);
                    let vraw: i64 = tdiv_i128(vnum, den) as i64;
                    let idx = self.image_to_vector_index(px, py);
                    if zbuffer[idx].raw < zv {
                        let color = tex_sample(texture_img, uraw, vraw, intensity);
                        let ghost bpre = self.buffer@;
                        let ghost zpre = zbuffer@;
                        zbuffer[idx] = Fx { raw: zv };
                        self.set_pixel(px, py, &color);
                        proof {
                            assert(color == tex_pix(*texture_img, triangle, texture_coords,
                                intensity.raw as int, xi as int, yj as int));
                            lemma_tex_step_write(triangle, texture_coords, *texture_img,
                                intensity.raw as int, w, h, b0, z0, bpre, zpre, xi as int,
                                yj as int, Fx { raw: zv }, color, self.buffer@, zbuffer@);
                        }
                    } else {
                        proof {
                            lemma_tex_step_skip(triangle, texture_coords, *texture_img,
                                intensity.raw as int, w, h, b0, z0, self.buffer@, zbuffer@,
                                xi as int, yj as int);
                        }
                    }
                } else {
                    proof {
                        lemma_tex_step_miss(triangle, texture_coords, *texture_img,
                            intensity.raw as int, w, h, b0, z0, self.buffer@, zbuffer@,
                            xi as int, yj as int);
                    }
                }
                yj = yj + 1;
            }
            proof {
                lemma_tex_col_wrap(triangle, texture_coords, *texture_img,
                    intensity.raw as int, w, h, b0, z0, self.buffer@, zbuffer@, xi as int);
            }
            xi = xi + 1;
        }
        proof {
            lemma_tex_done(triangle, texture_coords, *texture_img, intensity.raw as int, w, h,
                b0, z0, self.buffer@, zbuffer@);
        }
    }
}

/// Each product of a barycentric numerator with a bounded coordinate fits
/// the wide intermediate range.
proof fn lemma_num_products_fit(n0: int, n1: int, n2: int, c0: int, c1: int, c2: int)
    requires
        abs_int(n0) <= 0x4_8000_0000_0000_0000,
        abs_int(n1) <= 0x4_8000_0000_0000_0000,
        abs_int(n2) <= 0x4_8000_0000_0000_0000,
        -(COORD_LIM as int) <= c0 <= COORD_LIM as int,
        -(COORD_LIM as int) <= c1 <= COORD_LIM as int,
        -(COORD_LIM as int) <= c2 <= COORD_LIM as int,
    ensures
        abs_int(n0 * c0) <= 0x2_4000_0000_0000_0000_0000_0000_0,
        abs_int(n1 * c1) <= 0x2_4000_0000_0000_0000_0000_0000_0,
        abs_int(n2 * c2) <= 0x2_4000_0000_0000_0000_0000_0000_0,
{
    lemma_abs_mul_bound(n0, c0, 0x4_8000_0000_0000_0000, COORD_LIM as int);
    lemma_abs_mul_bound(n1, c1, 0x4_8000_0000_0000_0000, COORD_LIM as int);
    lemma_abs_mul_bound(n2, c2, 0x4_8000_0000_0000_0000, COORD_LIM as int);
}

/// The bounding-box corners of a bounded triangle, divided back into whole
/// units, are the scan bounds, and they stay within a pixel of the
/// coordinate range.
proof fn lemma_scan_bounds(t: Triangle, sw: Point, ne: Point)
    requires
        tri_ok(t),
        sw.x.raw == floor_raw(min3(vx(t, 0), vx(t, 1), vx(t, 2))),
        sw.y.raw == floor_raw(min3(vy(t, 0), vy(t, 1), vy(t, 2))),
        ne.x.raw == ceil_raw(max3_zero(vx(t, 0), vx(t, 1), vx(t, 2))),
        ne.y.raw == ceil_raw(max3_zero(vy(t, 0), vy(t, 1), vy(t, 2))),
    ensures
        sw.x.raw as int / (SCALE as int) == bb_x0(t),
        sw.y.raw as int / (SCALE as int) == bb_y0(t),
        ne.x.raw as int / (SCALE as int) == bb_x1(t),
        ne.y.raw as int / (SCALE as int) == bb_y1(t),
        -0x8001 <= bb_x0(t) <= bb_x1(t) <= 0x8001,
        -0x8001 <= bb_y0(t) <= bb_y1(t) <= 0x8001,
{
    lemma_units_of_corner(min3(vx(t, 0), vx(t, 1), vx(t, 2)),
        max3_zero(vx(t, 0), vx(t, 1), vx(t, 2)));
    lemma_units_of_corner(min3(vy(t, 0), vy(t, 1), vy(t, 2)),
        max3_zero(vy(t, 0), vy(t, 1), vy(t, 2)));
}

/// Whole-unit scan bounds recovered from raw bounding-box corners, with
/// their ranges and order.
proof fn lemma_units_of_corner(mn: int, mx: int)
    requires
        -(COORD_LIM as int) <= mn,
        mn <= mx,
        0 <= mx <= COORD_LIM as int,
    ensures
        floor_raw(mn) / (SCALE as int) == mn / (SCALE as int),
        ceil_raw(mx) / (SCALE as int) == -((-mx) / (SCALE as int)),
        -0x8001 <= mn / (SCALE as int),
        -((-mx) / (SCALE as int)) <= 0x8001,
        mn / (SCALE as int) <= -((-mx) / (SCALE as int)),
{
    let s = SCALE as int;
    let q = mn / s;
    let qc = (-mx) / s;
    lemma_fundamental_div_mod(mn, s);
    lemma_mod_division_less_than_divisor(mn, s);
    lemma_fundamental_div_mod(-mx, s);
    lemma_mod_division_less_than_divisor(-mx, s);
    assert(q * s == s * q && (-qc) * s == s * (-qc) && -(qc * s) == (-qc) * s)
        by (nonlinear_arith);
    lemma_div_multiples_vanish(q, s);
    lemma_div_multiples_vanish(-qc, s);
    assert(s * q <= mn && mn < s * q + s);
    assert(s * qc <= -mx && -mx < s * qc + s);
    assert(q <= -qc) by (nonlinear_arith)
        requires
            s * q <= mn,
            s * qc <= -mx,
            mn <= mx,
            s > 0;
    assert(-0x8001 <= q) by (nonlinear_arith)
        requires
            mn < s * q + s,
            -0x8000_0000 <= mn,
            s == 0x1_0000;
    assert(-qc <= 0x8001) by (nonlinear_arith)
        requires
            -mx < s * qc + s,
            -0x8000_0000 <= -mx,
            s == 0x1_0000;
}

/// Number of points the line walker visits between `x0` and `x1`: one per
/// whole unit, none when the ends are reversed.
pub open spec fn line_steps(x0: int, x1: int) -> int {
    if x0 > x1 {
        0
    } else {
        (x1 - x0) / (SCALE as int) + 1
    }
}

/// Slope of the walked line, rounded toward zero; zero for a vertical
/// segment.
pub open spec fn slope_spec(x0: int, y0: int, x1: int, y1: int) -> int {
    if x1 == x0 {
        0
    } else {
        fx_div_spec(y1 - y0, x1 - x0)
    }
}

/// Independent coordinate of the `k`-th walked point.
pub open spec fn line_x(x0: int, k: int) -> int {
    x0 + k * (SCALE as int)
}

/// Dependent coordinate of the `k`-th walked point (one slope per unit
/// step, exactly).
pub open spec fn line_y(y0: int, slope: int, k: int) -> int {
    y0 + k * slope
}

/// Buffer index of the `k`-th walked point; a steep walk swaps the axes
/// back.
pub open spec fn line_idx(
    w: int,
    h: int,
    x0: int,
    y0: int,
    slope: int,
    steep: bool,
    k: int,
) -> int {
    if steep {
        idx_spec(w, h, line_y(y0, slope, k), line_x(x0, k))
    } else {
        idx_spec(w, h, line_x(x0, k), line_y(y0, slope, k))
    }
}

/// Some walked point among the first `n` lands on buffer index `p`.
pub open spec fn line_covers(
    w: int,
    h: int,
    x0: int,
    y0: int,
    slope: int,
    steep: bool,
    n: int,
    p: int,
) -> bool {
    exists|k: int| 0 <= k < n && line_idx(w, h, x0, y0, slope, steep, k) == p
}

/// What walking the first `n` line points does: every pixel some walked
/// point lands on holds the color, every other pixel is untouched.
pub open spec fn line_post(
    w: int,
    h: int,
    x0: int,
    y0: int,
    slope: int,
    steep: bool,
    c: RGBPixel,
    n: int,
    b0: Seq<RGBPixel>,
    b1: Seq<RGBPixel>,
) -> bool {
    &&& b1.len() == b0.len()
    &&& forall|p: int|
        0 <= p < b0.len() && line_covers(w, h, x0, y0, slope, steep, n, p) ==> b1[p] == c
    &&& forall|p: int|
        0 <= p < b0.len() && !line_covers(w, h, x0, y0, slope, steep, n, p) ==> b1[p] == b0[p]
}

/// Every walked dependent coordinate stays in the writable range; this is
/// the machine limit line callers must meet.
pub open spec fn line_y_ok(x0: int, y0: int, x1: int, y1: int) -> bool {
    forall|k: int|
        0 <= k < line_steps(x0, x1) ==> -2 * (COORD_LIM as int) <= #[trigger] line_y(y0,
            slope_spec(x0, y0, x1, y1), k) <= 2 * (COORD_LIM as int)
}

/// Walking zero points changes nothing.
proof fn lemma_line_init(
    w: int,
    h: int,
    x0: int,
    y0: int,
    slope: int,
    steep: bool,
    c: RGBPixel,
    b0: Seq<RGBPixel>,
)
    ensures
        line_post(w, h, x0, y0, slope, steep, c, 0, b0, b0),
{
    assert forall|p: int|
        0 <= p < b0.len() implies !line_covers(w, h, x0, y0, slope, steep, 0, p) by {
        if line_covers(w, h, x0, y0, slope, steep, 0, p) {
            let k = choose|k: int|
                0 <= k < 0 && line_idx(w, h, x0, y0, slope, steep, k) == p;
            assert(false);
        }
    }
}

/// Painting the `n`-th walked point extends the walk by one.
proof fn lemma_line_step(
    w: int,
    h: int,
    x0: int,
    y0: int,
    slope: int,
    steep: bool,
    c: RGBPixel,
    n: int,
    b0: Seq<RGBPixel>,
    b: Seq<RGBPixel>,
    bnew: Seq<RGBPixel>,
)
    requires
        line_post(w, h, x0, y0, slope, steep, c, n, b0, b),
        0 <= n,
        0 <= line_idx(w, h, x0, y0, slope, steep, n) < b0.len(),
        bnew == b.update(line_idx(w, h, x0, y0, slope, steep, n), c),
    ensures
        line_post(w, h, x0, y0, slope, steep, c, n + 1, b0, bnew),
{
    let pidx = line_idx(w, h, x0, y0, slope, steep, n);
    assert(line_covers(w, h, x0, y0, slope, steep, n + 1, pidx));
    assert forall|p: int|
        0 <= p < b0.len() && line_covers(w, h, x0, y0, slope, steep, n + 1, p) implies bnew[p]
        == c by {
        if p != pidx {
            let k = choose|k: int|
                0 <= k < n + 1 && line_idx(w, h, x0, y0, slope, steep, k) == p;
            assert(0 <= k < n);
            assert(line_covers(w, h, x0, y0, slope, steep, n, p));
        }
    }
    assert forall|p: int|
        0 <= p < b0.len() && !line_covers(w, h, x0, y0, slope, steep, n + 1, p) implies bnew[p]
        == b0[p] by {
        assert(p != pidx);
        if line_covers(w, h, x0, y0, slope, steep, n, p) {
            let k = choose|k: int|
                0 <= k < n && line_idx(w, h, x0, y0, slope, steep, k) == p;
            assert(0 <= k < n + 1);
        }
    }
}

impl ImageMeta {
    /// Whether a segment climbs faster than it runs.
    pub(crate) fn is_steep(&self, x0: Fx, y0: Fx, x1: Fx, y1: Fx) -> (r: bool)
        requires
            fx_scan_ok(x0),
            fx_scan_ok(y0),
            fx_scan_ok(x1),
            fx_scan_ok(y1),
        ensures
            r == (abs_int(y1.raw - y0.raw) > abs_int(x1.raw - x0.raw)),
    {
        let dy: i64 = y1.raw - y0.raw;
        let dx: i64 = x1.raw - x0.raw;
        let ady: i64 = if dy >= 0 {
            dy
        } else {
            -dy
        };
        let adx: i64 = if dx >= 0 {
            dx
        } else {
            -dx
        };
        ady > adx
    }

    /// The canonical line walker: step the independent axis one unit at a
    /// time from `x0` to `x1` and paint the point the slope dictates (axes
    /// swapped back when the walk is steep).
    pub(crate) fn draw_lines_segment_second(
        &mut self,
        x0: Fx,
        y0: Fx,
        x1: Fx,
        y1: Fx,
        steep: bool,
        color: &RGBPixel,
    )
        requires
            old(self).wf(),
            fx_scan_ok(x0),
            fx_scan_ok(y0),
            fx_scan_ok(x1),
            fx_scan_ok(y1),
            line_y_ok(x0.raw as int, y0.raw as int, x1.raw as int, y1.raw as int),
        ensures
            final(self).wf(),
            final(self).width == old(self).width,
            final(self).height == old(self).height,
            line_post(old(self).width as int, old(self).height as int, x0.raw as int,
                y0.raw as int, slope_spec(x0.raw as int, y0.raw as int, x1.raw as int,
                    y1.raw as int), steep, *color, line_steps(x0.raw as int, x1.raw as int),
                old(self).buffer@, final(self).buffer@),
    {
        let ghost w = self.width as int;
        let ghost h = self.height as int;
        let ghost b0 = self.buffer@;
        let slope: Fx = if x1.raw == x0.raw {
            Fx { raw: 0 }
        } else {
            proof {
                lemma_abs_mul_bound(y1.raw - y0.raw, SCALE as int, 4 * (COORD_LIM as int),
                    SCALE as int);
                lemma_tdiv_sign((y1.raw - y0.raw) * SCALE, abs_int(x1.raw - x0.raw));
            }
            y1.sub(y0).div(x1.sub(x0))
        };
        let ghost sl = slope_spec(x0.raw as int, y0.raw as int, x1.raw as int, y1.raw as int);
        let ghost n = line_steps(x0.raw as int, x1.raw as int);
        proof {
            assert(slope.raw == sl);
            lemma_line_init(w, h, x0.raw as int, y0.raw as int, sl, steep, *color, b0);
        }
        let mut x = x0;
        let ghost mut k: int = 0;
        while x.raw <= x1.raw
            invariant
                self.wf(),
                self.width as int == w,
                self.height as int == h,
                fx_scan_ok(x0),
                fx_scan_ok(y0),
                fx_scan_ok(x1),
                fx_scan_ok(y1),
                line_y_ok(x0.raw as int, y0.raw as int, x1.raw as int, y1.raw as int),
                slope.raw == sl,
                sl == slope_spec(x0.raw as int, y0.raw as int, x1.raw as int, y1.raw as int),
                n == line_steps(x0.raw as int, x1.raw as int),
                0 <= k <= n,
                x.raw == line_x(x0.raw as int, k),
                x.raw <= x1.raw ==> k < n,
                x1.raw < x.raw ==> k >= n,
                b0.len() == w * h,
                line_post(w, h, x0.raw as int, y0.raw as int, sl, steep, *color, k, b0,
                    self.buffer@),
            decreases x1.raw - x.raw + SCALE,
        {
            proof {
                lemma_walker_in_range(x0.raw as int, y0.raw as int, x1.raw as int,
                    y1.raw as int, k);
            }
            let off = x.sub(x0);
            proof {
                assert(off.raw == k * SCALE);
                assert(-2 * (COORD_LIM as int) <= line_y(y0.raw as int, sl, k) <= 2 * (
                COORD_LIM as int));
                assert(slope.raw * (k * SCALE) == (slope.raw * k) * SCALE)
                    by (nonlinear_arith);
                lemma_tdiv_exact(slope.raw * k, SCALE as int);
            }
            let rise = slope.mul(off);
            let y = rise.add(y0);
            proof {
                assert(y.raw == line_y(y0.raw as int, sl, k));
            }
            let ghost bpre = self.buffer@;
            if steep {
                self.set_pixel(y, x, color);
            } else {
                self.set_pixel(x, y, color);
            }
            proof {
                assert(idx_spec(w, h, x.raw as int, y.raw as int) == line_idx(w, h,
                    x0.raw as int, y0.raw as int, sl, false, k));
                assert(idx_spec(w, h, y.raw as int, x.raw as int) == line_idx(w, h,
                    x0.raw as int, y0.raw as int, sl, true, k));
                lemma_line_step(w, h, x0.raw as int, y0.raw as int, sl, steep, *color, k, b0,
                    bpre, self.buffer@);
                k = k + 1;
            }
            x = x.add(Fx { raw: SCALE });
        }
        proof {
            assert(k == n);
        }
    }

    /// Draw a line segment between two endpoints: the four orderings of
    /// steep or shallow and increasing or decreasing endpoints are
    /// normalized into one canonical walk.
    pub fn draw_lines_segment(&mut self, x0: Fx, y0: Fx, x1: Fx, y1: Fx, color: &RGBPixel)
        requires
            old(self).wf(),
            fx_scan_ok(x0),
            fx_scan_ok(y0),
            fx_scan_ok(x1),
            fx_scan_ok(y1),
            seg_norm_y_ok(x0, y0, x1, y1),
        ensures
            final(self).wf(),
            final(self).width == old(self).width,
            final(self).height == old(self).height,
            line_post(old(self).width as int, old(self).height as int,
                seg_norm(x0, y0, x1, y1).0, seg_norm(x0, y0, x1, y1).1,
                slope_spec(seg_norm(x0, y0, x1, y1).0, seg_norm(x0, y0, x1, y1).1,
                    seg_norm(x0, y0, x1, y1).2, seg_norm(x0, y0, x1, y1).3),
                seg_steep(x0, y0, x1, y1), *color,
                line_steps(seg_norm(x0, y0, x1, y1).0, seg_norm(x0, y0, x1, y1).2),
                old(self).buffer@, final(self).buffer@),
    {
        let steep = self.is_steep(x0, y0, x1, y1);
        if steep {
            if y0.raw > y1.raw {
                self.draw_lines_segment_second(y1, x1, y0, x0, true, color);
            } else {
                self.draw_lines_segment_second(y0, x0, y1, x1, true, color);
            }
        } else {
            if x0.raw > x1.raw {
                self.draw_lines_segment_second(x1, y1, x0, y0, false, color);
            } else {
                self.draw_lines_segment_second(x0, y0, x1, y1, false, color);
            }
        }
    }
}

/// The walked point count stays positive and each in-range step index keeps
/// the independent coordinate within a unit of the endpoints.
proof fn lemma_walker_in_range(x0: int, y0: int, x1: int, y1: int, k: int)
    requires
        0 <= k,
        line_x(x0, k) <= x1,
    ensures
        k < line_steps(x0, x1),
{
    lemma_div_is_ordered(k * SCALE, x1 - x0, SCALE as int);
    lemma_div_by_multiple(k, SCALE as int);
}

/// Whether the original segment is steep (normalization swaps the axes).
pub open spec fn seg_steep(x0: Fx, y0: Fx, x1: Fx, y1: Fx) -> bool {
    abs_int(y1.raw - y0.raw) > abs_int(x1.raw - x0.raw)
}

/// The endpoints handed to the canonical walker: axes swapped for a steep
/// segment, ordered by the independent coordinate.
pub open spec fn seg_norm(x0: Fx, y0: Fx, x1: Fx, y1: Fx) -> (int, int, int, int) {
    if seg_steep(x0, y0, x1, y1) {
        if y0.raw > y1.raw {
            (y1.raw as int, x1.raw as int, y0.raw as int, x0.raw as int)
        } else {
            (y0.raw as int, x0.raw as int, y1.raw as int, x1.raw as int)
        }
    } else {
        if x0.raw > x1.raw {
            (x1.raw as int, y1.raw as int, x0.raw as int, y0.raw as int)
        } else {
            (x0.raw as int, y0.raw as int, x1.raw as int, y1.raw as int)
        }
    }
}

/// The walker's machine limit, stated of the normalized endpoints.
pub open spec fn seg_norm_y_ok(x0: Fx, y0: Fx, x1: Fx, y1: Fx) -> bool {
    line_y_ok(seg_norm(x0, y0, x1, y1).0, seg_norm(x0, y0, x1, y1).1,
        seg_norm(x0, y0, x1, y1).2, seg_norm(x0, y0, x1, y1).3)
}

impl ImageMeta {
    /// Flatten the pixel buffer into the byte layout an image codec takes:
    /// three bytes per pixel, red then green then blue, in buffer order.
    /// Exporting to a file is the caller's business.
    pub fn to_rgb_bytes(&self) -> (r: Vec<u8>)
        requires
            self.wf(),
        ensures
            r@.len() == 3 * self.buffer@.len(),
            forall|p: int|
                0 <= p < self.buffer@.len() ==> r@[3 * p] == (#[trigger] self.buffer@[p]).red
                    && r@[3 * p + 1] == self.buffer@[p].green && r@[3 * p + 2]
                    == self.buffer@[p].blue,
    {
        proof {
            assert((self.width as int) * (self.height as int) <= 0x4000_0000)
                by (nonlinear_arith)
                requires
                    0 < self.width as int <= 0x8000,
                    0 < self.height as int <= 0x8000;
        }
        let n: usize = self.buffer.len();
        let mut bytes: Vec<u8> = Vec::new();
        let mut i: usize = 0;
        while i < n
            invariant
                n == self.buffer@.len(),
                i <= n,
                n <= 0x4000_0000,
                bytes@.len() == 3 * i,
                forall|p: int|
                    0 <= p < i as int ==> bytes@[3 * p] == (#[trigger] self.buffer@[p]).red
                        && bytes@[3 * p + 1] == self.buffer@[p].green && bytes@[3 * p + 2]
                        == self.buffer@[p].blue,
            decreases n - i,
        {
            let px = self.buffer[i];
            bytes.push(px.red);
            bytes.push(px.green);
            bytes.push(px.blue);
            i = i + 1;
        }
        bytes
    }

    /// Outline a triangle's bounding box: its four edges drawn as line
    /// segments, bottom, top, left, then right.
    pub fn draw_bbox(&mut self, triangle: Triangle, color: &RGBPixel)
        requires
            old(self).wf(),
            tri_ok(triangle),
        ensures
            final(self).wf(),
            final(self).width == old(self).width,
            final(self).height == old(self).height,
            exists|mids: Seq<Seq<RGBPixel>>|
                #[trigger] bbox_outline_chain(triangle, *color, old(self).width as int,
                    old(self).height as int, old(self).buffer@, final(self).buffer@, mids),
    {
        let (sw, ne) = triangle.compute_bbox();
        proof {
            lemma_axis_segment_ok(sw.x, sw.y, ne.x, sw.y);
            lemma_axis_segment_ok(sw.x, ne.y, ne.x, ne.y);
            lemma_axis_segment_ok(sw.x, sw.y, sw.x, ne.y);
            lemma_axis_segment_ok(ne.x, sw.y, ne.x, ne.y);
        }
        let ghost b0 = self.buffer@;
        self.draw_lines_segment(sw.x, sw.y, ne.x, sw.y, color);
        let ghost b1 = self.buffer@;
        self.draw_lines_segment(sw.x, ne.y, ne.x, ne.y, color);
        let ghost b2 = self.buffer@;
        self.draw_lines_segment(sw.x, sw.y, sw.x, ne.y, color);
        let ghost b3 = self.buffer@;
        self.draw_lines_segment(ne.x, sw.y, ne.x, ne.y, color);
        proof {
            assert(bbox_outline_chain(triangle, *color, self.width as int,
                self.height as int, b0, self.buffer@, seq![b1, b2, b3]));
        }
    }
}

/// One edge of the bounding-box outline, from `(ax, ay)` to `(bx, by)`: the
/// normalized walk painted the color between the two buffer snapshots.
pub open spec fn outline_edge(
    ax: Fx,
    ay: Fx,
    bx: Fx,
    by: Fx,
    c: RGBPixel,
    w: int,
    h: int,
    before_buf: Seq<RGBPixel>,
    after_buf: Seq<RGBPixel>,
) -> bool {
    line_post(w, h, seg_norm(ax, ay, bx, by).0, seg_norm(ax, ay, bx, by).1,
        slope_spec(seg_norm(ax, ay, bx, by).0, seg_norm(ax, ay, bx, by).1,
            seg_norm(ax, ay, bx, by).2, seg_norm(ax, ay, bx, by).3), seg_steep(ax, ay, bx, by),
        c, line_steps(seg_norm(ax, ay, bx, by).0, seg_norm(ax, ay, bx, by).2), before_buf,
        after_buf)
}

/// The four edges of a triangle's bounding-box outline, drawn in order
/// through the intermediate buffer snapshots `mids`.
pub open spec fn bbox_outline_chain(
    t: Triangle,
    c: RGBPixel,
    w: int,
    h: int,
    b0: Seq<RGBPixel>,
    b1: Seq<RGBPixel>,
    mids: Seq<Seq<RGBPixel>>,
) -> bool {
    let swx = Fx { raw: floor_raw(min3(vx(t, 0), vx(t, 1), vx(t, 2))) as i64 };
    let swy = Fx { raw: floor_raw(min3(vy(t, 0), vy(t, 1), vy(t, 2))) as i64 };
    let nex = Fx { raw: ceil_raw(max3_zero(vx(t, 0), vx(t, 1), vx(t, 2))) as i64 };
    let ney = Fx { raw: ceil_raw(max3_zero(vy(t, 0), vy(t, 1), vy(t, 2))) as i64 };
    &&& mids.len() == 3
    &&& outline_edge(swx, swy, nex, swy, c, w, h, b0, mids[0])
    &&& outline_edge(swx, ney, nex, ney, c, w, h, mids[0], mids[1])
    &&& outline_edge(swx, swy, swx, ney, c, w, h, mids[1], mids[2])
    &&& outline_edge(nex, swy, nex, ney, c, w, h, mids[2], b1)
}

/// An axis-aligned segment always meets the walker's machine limit: its
/// normalized slope is zero, so the dependent coordinate never moves.
proof fn lemma_axis_segment_ok(ax: Fx, ay: Fx, bx: Fx, by: Fx)
    requires
        fx_scan_ok(ax),
        fx_scan_ok(ay),
        fx_scan_ok(bx),
        fx_scan_ok(by),
        ax.raw == bx.raw || ay.raw == by.raw,
    ensures
        seg_norm_y_ok(ax, ay, bx, by),
    {
    let nm = seg_norm(ax, ay, bx, by);
    let sl = slope_spec(nm.0, nm.1, nm.2, nm.3);
    assert(sl == 0) by {
        if nm.2 != nm.0 {
            assert((nm.3 - nm.1) == 0);
            lemma_mul_zero_left(SCALE as int);
            lemma_div_of0(abs_int(nm.2 - nm.0));
        }
    }
    assert forall|k: int|
        0 <= k < line_steps(nm.0, nm.2) implies -2 * (COORD_LIM as int) <= #[trigger] line_y(
        nm.1, slope_spec(nm.0, nm.1, nm.2, nm.3), k) <= 2 * (COORD_LIM as int) by {
        lemma_mul_zero_right(k);
    }
}

/// Zero annihilates on the left of a product.
proof fn lemma_mul_zero_left(b: int)
    by (nonlinear_arith)
    ensures
        0 * b == 0,
{
}

/// Zero annihilates on the right of a product.
proof fn lemma_mul_zero_right(a: int)
    by (nonlinear_arith)
    ensures
        a * 0 == 0,
{
}

/// Independent start of the sweep walk over the left segment (the y axis
/// when the segment is steep).
pub open spec fn sweep_a0(x0: Fx, y0: Fx, x1: Fx, y1: Fx) -> int {
    if seg_steep(x0, y0, x1, y1) {
        y0.raw as int
    } else {
        x0.raw as int
    }
}

/// Independent end of the sweep walk.
pub open spec fn sweep_a1(x0: Fx, y0: Fx, x1: Fx, y1: Fx) -> int {
    if seg_steep(x0, y0, x1, y1) {
        y1.raw as int
    } else {
        x1.raw as int
    }
}

/// Dependent start of the sweep walk.
pub open spec fn sweep_d0(x0: Fx, y0: Fx, x1: Fx, y1: Fx) -> int {
    if seg_steep(x0, y0, x1, y1) {
        x0.raw as int
    } else {
        y0.raw as int
    }
}

/// Slope of the left segment along the sweep's independent axis.
pub open spec fn sweep_slope(x0: Fx, y0: Fx, x1: Fx, y1: Fx) -> int {
    if seg_steep(x0, y0, x1, y1) {
        fx_div_spec(x1.raw - x0.raw, y1.raw - y0.raw)
    } else {
        fx_div_spec(y1.raw - y0.raw, x1.raw - x0.raw)
    }
}

/// The left segment's coordinate at sweep step `k`.
pub open spec fn sweep_left(x0: Fx, y0: Fx, x1: Fx, y1: Fx, k: int) -> int {
    line_y(sweep_d0(x0, y0, x1, y1), sweep_slope(x0, y0, x1, y1), k)
}

/// The right segment's x coordinate at sweep step `k`: the inverse of the
/// right line through `(x2, y2)` and `(x3, y3)` at the step's y value.
pub open spec fn sweep_xt(
    x0: Fx,
    y0: Fx,
    x1: Fx,
    y1: Fx,
    x2: Fx,
    y2: Fx,
    x3: Fx,
    y3: Fx,
    k: int,
) -> int {
    let yv = if seg_steep(x0, y0, x1, y1) {
        line_x(sweep_a0(x0, y0, x1, y1), k)
    } else {
        sweep_left(x0, y0, x1, y1, k)
    };
    fx_div_spec(yv - y2.raw, fx_div_spec(y3.raw - y2.raw, x3.raw - x2.raw)) + x2.raw
}

/// The horizontal fill of sweep step `k` between two buffer snapshots: one
/// flat walk from the left segment to the right line.
pub open spec fn sweep_inner_post(
    x0: Fx,
    y0: Fx,
    x1: Fx,
    y1: Fx,
    x2: Fx,
    y2: Fx,
    x3: Fx,
    y3: Fx,
    c: RGBPixel,
    w: int,
    h: int,
    k: int,
    bb: Seq<RGBPixel>,
    ba: Seq<RGBPixel>,
) -> bool {
    let a = line_x(sweep_a0(x0, y0, x1, y1), k);
    let left = sweep_left(x0, y0, x1, y1, k);
    let xt = sweep_xt(x0, y0, x1, y1, x2, y2, x3, y3, k);
    if seg_steep(x0, y0, x1, y1) {
        line_post(w, h, left, a, 0, false, c, line_steps(left, xt), bb, ba)
    } else {
        line_post(w, h, a, left, 0, false, c, line_steps(a, xt), bb, ba)
    }
}

/// Machine limits of the sweep: the segments are non-degenerate, the right
/// line is neither vertical nor flat after rounding, and every stepped
/// coordinate stays in the writable range.
pub open spec fn sweep_ok(
    x0: Fx,
    y0: Fx,
    x1: Fx,
    y1: Fx,
    x2: Fx,
    y2: Fx,
    x3: Fx,
    y3: Fx,
) -> bool {
    &&& fx_ok(x0) && fx_ok(y0) && fx_ok(x1) && fx_ok(y1)
    &&& fx_ok(x2) && fx_ok(y2) && fx_ok(x3) && fx_ok(y3)
    &&& (x0.raw != x1.raw || y0.raw != y1.raw)
    &&& x3.raw != x2.raw
    &&& fx_div_spec(y3.raw - y2.raw, x3.raw - x2.raw) != 0
    &&& forall|k: int|
        0 <= k < line_steps(sweep_a0(x0, y0, x1, y1), sweep_a1(x0, y0, x1, y1)) ==> -2 * (
        COORD_LIM as int) <= #[trigger] sweep_left(x0, y0, x1, y1, k) <= 2 * (COORD_LIM as int)
            && -2 * (COORD_LIM as int) <= sweep_xt(x0, y0, x1, y1, x2, y2, x3, y3, k) <= 2 * (
        COORD_LIM as int)
}

/// The whole sweep: one horizontal fill per step, through the buffer
/// snapshots `states`.
pub open spec fn sweep_chain(
    x0: Fx,
    y0: Fx,
    x1: Fx,
    y1: Fx,
    x2: Fx,
    y2: Fx,
    x3: Fx,
    y3: Fx,
    c: RGBPixel,
    w: int,
    h: int,
    b0: Seq<RGBPixel>,
    b1: Seq<RGBPixel>,
    states: Seq<Seq<RGBPixel>>,
) -> bool {
    let n = line_steps(sweep_a0(x0, y0, x1, y1), sweep_a1(x0, y0, x1, y1));
    &&& states.len() == n + 1
    &&& states[0] == b0
    &&& states[n] == b1
    &&& forall|k: int|
        0 <= k < n ==> #[trigger] sweep_inner_post(x0, y0, x1, y1, x2, y2, x3, y3, c, w, h, k,
            states[k], states[k + 1])
}

/// What filling between two segments does: [`sweep_chain`] for some run of
/// buffer snapshots.
pub open spec fn sweep_post(
    x0: Fx,
    y0: Fx,
    x1: Fx,
    y1: Fx,
    x2: Fx,
    y2: Fx,
    x3: Fx,
    y3: Fx,
    c: RGBPixel,
    w: int,
    h: int,
    b0: Seq<RGBPixel>,
    b1: Seq<RGBPixel>,
) -> bool {
    exists|states: Seq<Seq<RGBPixel>>|
        #[trigger] sweep_chain(x0, y0, x1, y1, x2, y2, x3, y3, c, w, h, b0, b1, states)
}

/// A fixed-point division with a zero numerator is zero.
proof fn lemma_fx_div_zero(d: int)
    requires
        d != 0,
    ensures
        fx_div_spec(0, d) == 0,
{
    lemma_mul_zero_left(SCALE as int);
    lemma_div_of0(d);
    lemma_div_of0(-d);
}

impl ImageMeta {
    /// Fill between two segments that share one endpoint: walk the left
    /// segment one unit at a time along its independent axis, and at each
    /// step draw a flat run from it to the right line.
    pub(crate) fn draw_lines_between_segments(
        &mut self,
        x0: Fx,
        y0: Fx,
        x1: Fx,
        y1: Fx,
        x2: Fx,
        y2: Fx,
        x3: Fx,
        y3: Fx,
        color: &RGBPixel,
    )
        requires
            old(self).wf(),
            sweep_ok(x0, y0, x1, y1, x2, y2, x3, y3),
        ensures
            final(self).wf(),
            final(self).width == old(self).width,
            final(self).height == old(self).height,
            sweep_post(x0, y0, x1, y1, x2, y2, x3, y3, *color, old(self).width as int,
                old(self).height as int, old(self).buffer@, final(self).buffer@),
    {
        let ghost w = self.width as int;
        let ghost h = self.height as int;
        let ghost b0 = self.buffer@;
        let steep = self.is_steep(x0, y0, x1, y1);
        proof {
            lemma_abs_mul_bound(y3.raw - y2.raw, SCALE as int, 2 * (COORD_LIM as int),
                SCALE as int);
            lemma_tdiv_sign((y3.raw - y2.raw) * SCALE, abs_int(x3.raw - x2.raw));
        }
        let right_slope = y3.sub(y2).div(x3.sub(x2));
        let slope = if steep {
            proof {
                lemma_abs_mul_bound(x1.raw - x0.raw, SCALE as int, 2 * (COORD_LIM as int),
                    SCALE as int);
                lemma_tdiv_sign((x1.raw - x0.raw) * SCALE, abs_int(y1.raw - y0.raw));
            }
            x1.sub(x0).div(y1.sub(y0))
        } else {
            proof {
                lemma_abs_mul_bound(y1.raw - y0.raw, SCALE as int, 2 * (COORD_LIM as int),
                    SCALE as int);
                lemma_tdiv_sign((y1.raw - y0.raw) * SCALE, abs_int(x1.raw - x0.raw));
            }
            y1.sub(y0).div(x1.sub(x0))
        };
        let a0 = if steep {
            y0
        } else {
            x0
        };
        let a1 = if steep {
            y1
        } else {
            x1
        };
        let d0 = if steep {
            x0
        } else {
            y0
        };
        let ghost n = line_steps(sweep_a0(x0, y0, x1, y1), sweep_a1(x0, y0, x1, y1));
        let ghost mut states: Seq<Seq<RGBPixel>> = seq![b0];
        let mut av = a0;
        let ghost mut k: int = 0;
        proof {
            assert(slope.raw == sweep_slope(x0, y0, x1, y1));
        }
        while av.raw <= a1.raw
            invariant
                self.wf(),
                self.width as int == w,
                self.height as int == h,
                sweep_ok(x0, y0, x1, y1, x2, y2, x3, y3),
                steep == seg_steep(x0, y0, x1, y1),
                a0.raw as int == sweep_a0(x0, y0, x1, y1),
                a1.raw as int == sweep_a1(x0, y0, x1, y1),
                d0.raw as int == sweep_d0(x0, y0, x1, y1),
                slope.raw == sweep_slope(x0, y0, x1, y1),
                right_slope.raw == fx_div_spec(y3.raw - y2.raw, x3.raw - x2.raw),
                n == line_steps(a0.raw as int, a1.raw as int),
                0 <= k <= n,
                av.raw == line_x(a0.raw as int, k),
                av.raw <= a1.raw ==> k < n,
                a1.raw < av.raw ==> k >= n,
                b0.len() == w * h,
                self.buffer@.len() == b0.len(),
                states.len() == k + 1,
                states[0] == b0,
                states[k] == self.buffer@,
                forall|q: int|
                    0 <= q < k ==> #[trigger] sweep_inner_post(x0, y0, x1, y1, x2, y2, x3, y3,
                        *color, w, h, q, states[q], states[q + 1]),
            decreases a1.raw - av.raw + SCALE,
        {
            proof {
                lemma_walker_in_range(a0.raw as int, d0.raw as int, a1.raw as int, 0, k);
            }
            let off = av.sub(a0);
            proof {
                assert(off.raw == k * SCALE);
                assert(-2 * (COORD_LIM as int) <= sweep_left(x0, y0, x1, y1, k) <= 2 * (
                COORD_LIM as int));
                assert(slope.raw * (k * SCALE) == (slope.raw * k) * SCALE)
                    by (nonlinear_arith);
                lemma_tdiv_exact(slope.raw * k, SCALE as int);
            }
            let rise = slope.mul(off);
            let left = rise.add(d0);
            proof {
                assert(left.raw == sweep_left(x0, y0, x1, y1, k));
            }
            let yv = if steep {
                av
            } else {
                left
            };
            proof {
                lemma_abs_mul_bound(yv.raw - y2.raw, SCALE as int, 3 * (COORD_LIM as int),
                    SCALE as int);
                lemma_tdiv_sign((yv.raw - y2.raw) * SCALE, abs_int(right_slope.raw as int));
            }
            let xt = yv.sub(y2).div(right_slope).add(x2);
            proof {
                assert(xt.raw == sweep_xt(x0, y0, x1, y1, x2, y2, x3, y3, k));
                assert(-2 * (COORD_LIM as int) <= xt.raw <= 2 * (COORD_LIM as int));
                lemma_flat_run_ok(left, av, xt);
            }
            let ghost bpre = self.buffer@;
            if steep {
                self.draw_lines_segment_second(left, av, xt, av, false, color);
            } else {
                self.draw_lines_segment_second(av, left, xt, left, false, color);
            }
            proof {
                if steep {
                    assert(slope_spec(left.raw as int, av.raw as int, xt.raw as int,
                        av.raw as int) == 0) by {
                        if xt.raw != left.raw {
                            lemma_fx_div_zero(xt.raw - left.raw);
                        }
                    }
                } else {
                    assert(slope_spec(av.raw as int, left.raw as int, xt.raw as int,
                        left.raw as int) == 0) by {
                        if xt.raw != av.raw {
                            lemma_fx_div_zero(xt.raw - av.raw);
                        }
                    }
                }
                assert(sweep_inner_post(x0, y0, x1, y1, x2, y2, x3, y3, *color, w, h, k, bpre,
                    self.buffer@));
                states = states.push(self.buffer@);
                k = k + 1;
            }
            av = av.add(Fx { raw: SCALE });
        }
        proof {
            assert(k == n);
            assert(sweep_chain(x0, y0, x1, y1, x2, y2, x3, y3, *color, w, h, b0,
                self.buffer@, states));
        }
    }

    /// Fill a triangle by line sweep: sort the vertices by y, then fill
    /// between the lower-left edge and the long edge, and between the
    /// upper-left edge and the long edge.
    pub fn draw_triangles_line_sweep(&mut self, triangle: Triangle, color: &RGBPixel)
        requires
            old(self).wf(),
            sweep_ok(sort3_by_y(triangle.vertices@)[0].x, sort3_by_y(triangle.vertices@)[0].y,
                sort3_by_y(triangle.vertices@)[1].x, sort3_by_y(triangle.vertices@)[1].y,
                sort3_by_y(triangle.vertices@)[0].x, sort3_by_y(triangle.vertices@)[0].y,
                sort3_by_y(triangle.vertices@)[2].x, sort3_by_y(triangle.vertices@)[2].y),
            sweep_ok(sort3_by_y(triangle.vertices@)[1].x, sort3_by_y(triangle.vertices@)[1].y,
                sort3_by_y(triangle.vertices@)[2].x, sort3_by_y(triangle.vertices@)[2].y,
                sort3_by_y(triangle.vertices@)[0].x, sort3_by_y(triangle.vertices@)[0].y,
                sort3_by_y(triangle.vertices@)[2].x, sort3_by_y(triangle.vertices@)[2].y),
        ensures
            final(self).wf(),
            final(self).width == old(self).width,
            final(self).height == old(self).height,
            exists|bm: Seq<RGBPixel>|
                #[trigger] sweep_post(sort3_by_y(triangle.vertices@)[0].x,
                    sort3_by_y(triangle.vertices@)[0].y, sort3_by_y(triangle.vertices@)[1].x,
                    sort3_by_y(triangle.vertices@)[1].y, sort3_by_y(triangle.vertices@)[0].x,
                    sort3_by_y(triangle.vertices@)[0].y, sort3_by_y(triangle.vertices@)[2].x,
                    sort3_by_y(triangle.vertices@)[2].y, *color, old(self).width as int,
                    old(self).height as int, old(self).buffer@, bm) && sweep_post(
                    sort3_by_y(triangle.vertices@)[1].x, sort3_by_y(triangle.vertices@)[1].y,
                    sort3_by_y(triangle.vertices@)[2].x, sort3_by_y(triangle.vertices@)[2].y,
                    sort3_by_y(triangle.vertices@)[0].x, sort3_by_y(triangle.vertices@)[0].y,
                    sort3_by_y(triangle.vertices@)[2].x, sort3_by_y(triangle.vertices@)[2].y,
                    *color, old(self).width as int, old(self).height as int, bm,
                    final(self).buffer@),
    {
        let mut sorted = triangle;
        sorted.sort();
        let p0 = sorted.vertices[0];
        let p1 = sorted.vertices[1];
        let p2 = sorted.vertices[2];
        let ghost bm0 = self.buffer@;
        self.draw_lines_between_segments(p0.x, p0.y, p1.x, p1.y, p0.x, p0.y, p2.x, p2.y,
            color);
        let ghost bm = self.buffer@;
        self.draw_lines_between_segments(p1.x, p1.y, p2.x, p2.y, p0.x, p0.y, p2.x, p2.y,
            color);
    }
}

/// A flat run keeps its dependent coordinate, so the walker's machine limit
/// holds of it.
proof fn lemma_flat_run_ok(left: Fx, av: Fx, xt: Fx)
    requires
        -2 * (COORD_LIM as int) <= left.raw <= 2 * (COORD_LIM as int),
        -2 * (COORD_LIM as int) <= av.raw <= 2 * (COORD_LIM as int),
        -2 * (COORD_LIM as int) <= xt.raw <= 2 * (COORD_LIM as int),
    ensures
        line_y_ok(left.raw as int, av.raw as int, xt.raw as int, av.raw as int),
        line_y_ok(av.raw as int, left.raw as int, xt.raw as int, left.raw as int),
{
    assert(slope_spec(left.raw as int, av.raw as int, xt.raw as int, av.raw as int) == 0) by {
        if xt.raw != left.raw {
            lemma_fx_div_zero(xt.raw - left.raw);
        }
    }
    assert(slope_spec(av.raw as int, left.raw as int, xt.raw as int, left.raw as int)
        == 0) by {
        if xt.raw != av.raw {
            lemma_fx_div_zero(xt.raw - av.raw);
        }
    }
    assert forall|k: int|
        0 <= k < line_steps(left.raw as int, xt.raw as int) implies -2 * (COORD_LIM as int)
        <= #[trigger] line_y(av.raw as int,
        slope_spec(left.raw as int, av.raw as int, xt.raw as int, av.raw as int), k) <= 2 * (
    COORD_LIM as int) by {
        lemma_mul_zero_right(k);
    }
    assert forall|k: int|
        0 <= k < line_steps(av.raw as int, xt.raw as int) implies -2 * (COORD_LIM as int)
        <= #[trigger] line_y(left.raw as int,
        slope_spec(av.raw as int, left.raw as int, xt.raw as int, left.raw as int), k) <= 2 * (
    COORD_LIM as int) by {
        lemma_mul_zero_right(k);
    }
}

/// Independent coordinate of the `k`-th point of the parametric walk: the
/// start plus the span scaled by `k` small parameter steps.
pub open spec fn naive_pt(c0: int, c1: int, k: int) -> int {
    c0 + tdiv((c1 - c0) * (65 * k), SCALE as int)
}

/// Some parametric point lands on buffer index `p` (the parameter runs from
/// zero to one in steps of `65/SCALE`, the nearest fixed-point neighbor of
/// one thousandth).
pub open spec fn naive_covers(
    w: int,
    h: int,
    x0: int,
    y0: int,
    x1: int,
    y1: int,
    n: int,
    p: int,
) -> bool {
    exists|k: int|
        0 <= k < n && idx_spec(w, h, naive_pt(x0, x1, k), naive_pt(y0, y1, k)) == p
}

/// What the parametric walk does: every pixel some parametric point lands
/// on holds the color, every other pixel is untouched.
pub open spec fn naive_post(
    w: int,
    h: int,
    x0: int,
    y0: int,
    x1: int,
    y1: int,
    c: RGBPixel,
    n: int,
    b0: Seq<RGBPixel>,
    b1: Seq<RGBPixel>,
) -> bool {
    &&& b1.len() == b0.len()
    &&& forall|p: int|
        0 <= p < b0.len() && naive_covers(w, h, x0, y0, x1, y1, n, p) ==> b1[p] == c
    &&& forall|p: int|
        0 <= p < b0.len() && !naive_covers(w, h, x0, y0, x1, y1, n, p) ==> b1[p] == b0[p]
}

/// Painting the `n`-th parametric point extends the walk by one.
proof fn lemma_naive_step(
    w: int,
    h: int,
    x0: int,
    y0: int,
    x1: int,
    y1: int,
    c: RGBPixel,
    n: int,
    b0: Seq<RGBPixel>,
    b: Seq<RGBPixel>,
    bnew: Seq<RGBPixel>,
)
    requires
        naive_post(w, h, x0, y0, x1, y1, c, n, b0, b),
        0 <= n,
        0 <= idx_spec(w, h, naive_pt(x0, x1, n), naive_pt(y0, y1, n)) < b0.len(),
        bnew == b.update(idx_spec(w, h, naive_pt(x0, x1, n), naive_pt(y0, y1, n)), c),
    ensures
        naive_post(w, h, x0, y0, x1, y1, c, n + 1, b0, bnew),
{
    let pidx = idx_spec(w, h, naive_pt(x0, x1, n), naive_pt(y0, y1, n));
    assert(naive_covers(w, h, x0, y0, x1, y1, n + 1, pidx));
    assert forall|p: int|
        0 <= p < b0.len() && naive_covers(w, h, x0, y0, x1, y1, n + 1, p) implies bnew[p]
        == c by {
        if p != pidx {
            let k = choose|k: int|
                0 <= k < n + 1 && idx_spec(w, h, naive_pt(x0, x1, k), naive_pt(y0, y1, k))
                    == p;
            assert(0 <= k < n);
            assert(naive_covers(w, h, x0, y0, x1, y1, n, p));
        }
    }
    assert forall|p: int|
        0 <= p < b0.len() && !naive_covers(w, h, x0, y0, x1, y1, n + 1, p) implies bnew[p]
        == b0[p] by {
        assert(p != pidx);
        if naive_covers(w, h, x0, y0, x1, y1, n, p) {
            let k = choose|k: int|
                0 <= k < n && idx_spec(w, h, naive_pt(x0, x1, k), naive_pt(y0, y1, k)) == p;
            assert(0 <= k < n + 1);
        }
    }
}

impl ImageMeta {
    /// Parametric line walk: step a parameter from zero toward one in small
    /// fixed increments and paint the interpolated point red at each step.
    pub(crate) fn draw_lines_segment_naive(&mut self, x0: Fx, y0: Fx, x1: Fx, y1: Fx)
        requires
            old(self).wf(),
            fx_ok(x0),
            fx_ok(y0),
            fx_ok(x1),
            fx_ok(y1),
        ensures
            final(self).wf(),
            final(self).width == old(self).width,
            final(self).height == old(self).height,
            naive_post(old(self).width as int, old(self).height as int, x0.raw as int,
                y0.raw as int, x1.raw as int, y1.raw as int,
                RGBPixel { red: 255, green: 0, blue: 0 }, 1009, old(self).buffer@,
                final(self).buffer@),
    {
        let ghost w = self.width as int;
        let ghost h = self.height as int;
        let ghost b0 = self.buffer@;
        let pixel = RGBPixel { red: 255, green: 0, blue: 0 };
        let dx = x1.sub(x0);
        let dy = y1.sub(y0);
        let mut t = Fx { raw: 0 };
        let ghost mut k: int = 0;
        proof {
            assert forall|p: int|
                0 <= p < b0.len() implies !naive_covers(w, h, x0.raw as int, y0.raw as int,
                x1.raw as int, y1.raw as int, 0, p) by {
                if naive_covers(w, h, x0.raw as int, y0.raw as int, x1.raw as int,
                    y1.raw as int, 0, p) {
                    let q = choose|q: int|
                        0 <= q < 0 && idx_spec(w, h, naive_pt(x0.raw as int, x1.raw as int, q),
                            naive_pt(y0.raw as int, y1.raw as int, q)) == p;
                    assert(false);
                }
            }
        }
        while t.raw < SCALE
            invariant
                self.wf(),
                self.width as int == w,
                self.height as int == h,
                fx_ok(x0),
                fx_ok(y0),
                fx_ok(x1),
                fx_ok(y1),
                dx.raw == x1.raw - x0.raw,
                dy.raw == y1.raw - y0.raw,
                pixel == (RGBPixel { red: 255, green: 0, blue: 0 }),
                0 <= k <= 1009,
                t.raw == 65 * k,
                t.raw < SCALE ==> k < 1009,
                SCALE <= t.raw ==> k >= 1009,
                b0.len() == w * h,
                naive_post(w, h, x0.raw as int, y0.raw as int, x1.raw as int, y1.raw as int,
                    RGBPixel { red: 255, green: 0, blue: 0 }, k, b0, self.buffer@),
            decreases SCALE + 65 - t.raw,
        {
            proof {
                lemma_naive_interp(dx.raw as int, t.raw as int);
                lemma_naive_interp(dy.raw as int, t.raw as int);
            }
            let xs = dx.mul(t);
            let ys = dy.mul(t);
            let xt = x0.add(xs);
            let yt = y0.add(ys);
            proof {
                assert(xt.raw == naive_pt(x0.raw as int, x1.raw as int, k));
                assert(yt.raw == naive_pt(y0.raw as int, y1.raw as int, k));
            }
            let ghost bpre = self.buffer@;
            self.set_pixel(xt, yt, &pixel);
            proof {
                assert(pixel == RGBPixel { red: 255, green: 0, blue: 0 });
                assert(self.buffer@ == bpre.update(
                    idx_spec(w, h, xt.raw as int, yt.raw as int), pixel));
                assert(idx_spec(w, h, xt.raw as int, yt.raw as int) == idx_spec(w, h,
                    naive_pt(x0.raw as int, x1.raw as int, k),
                    naive_pt(y0.raw as int, y1.raw as int, k)));
                lemma_naive_step(w, h, x0.raw as int, y0.raw as int, x1.raw as int,
                    y1.raw as int, RGBPixel { red: 255, green: 0, blue: 0 }, k, b0, bpre,
                    self.buffer@);
                k = k + 1;
            }
            t = t.add(Fx { raw: 65 });
        }
        proof {
            assert(k == 1009);
        }
    }
}

/// The scaled span of a partial parameter stays within the span itself, so
/// interpolated points stay between the endpoints.
proof fn lemma_naive_interp(d: int, traw: int)
    requires
        -2 * (COORD_LIM as int) <= d <= 2 * (COORD_LIM as int),
        0 <= traw < SCALE as int,
    ensures
        d >= 0 ==> 0 <= tdiv(d * traw, SCALE as int) <= d,
        d < 0 ==> d <= tdiv(d * traw, SCALE as int) <= 0,
{
    if d >= 0 {
        assert(0 <= d * traw <= d * SCALE) by (nonlinear_arith)
            requires
                0 <= traw < SCALE as int,
                d >= 0;
        lemma_tdiv_bound(d * traw, SCALE as int, d);
        lemma_tdiv_sign(d * traw, SCALE as int);
        assert(d * traw >= 0) by (nonlinear_arith)
            requires
                d >= 0,
                traw >= 0;
    } else {
        assert(d * SCALE <= d * traw <= 0 && (-d) * (SCALE as int) == -(d * SCALE))
            by (nonlinear_arith)
            requires
                0 <= traw < SCALE as int,
                d < 0;
        lemma_tdiv_bound(d * traw, SCALE as int, -d);
        lemma_tdiv_sign(d * traw, SCALE as int);
    }
}

/// Row round trip: a pixel row inside the image, flipped to a logical y
/// coordinate and mapped back through the saturating flip, is recovered
/// exactly; and a whole-unit y strictly inside the image maps to the row
/// whose inverse flip is y again.
pub proof fn lemma_row_roundtrip(h: int, row: int, y: int)
    requires
        0 < h,
        0 <= row < h,
        0 < y < h,
    ensures
        clamp_spec(h * SCALE - (h - row) * SCALE, h) == row,
        h - clamp_spec(h * SCALE - y * SCALE, h) == y,
{
    lemma_units_clamp(h, row);
    lemma_units_clamp(h, h - y);
}

/// A whole-unit coordinate inside `[0, dim)` clamps to itself.
proof fn lemma_units_clamp(h: int, u: int)
    requires
        0 <= u < h,
    ensures
        clamp_spec(h * SCALE - (h - u) * SCALE, h) == u,
{
    assert(h * SCALE - (h - u) * SCALE == u * SCALE) by (nonlinear_arith);
    lemma_div_by_multiple(u, SCALE as int);
}

} // verus!
