//! The transform pipeline and the per-mesh render loops.
//!
//! A mesh arrives as flat arrays: vertex positions (three scalars each,
//! normalized device coordinates in `[-1, 1]`), optional texture
//! coordinates (two scalars each, in `[0, 1]`), and per-face vertex
//! indices. Each render entry point walks the faces, builds a screen-space
//! triangle, and hands it to the frame buffer's rasterizers; its contract
//! exhibits the chain of per-face rasterization steps.

use vstd::prelude::*;

verus! {

use crate::fixed::{Fx, SCALE, tdiv, abs_int, tdiv_i128, fx_div_spec, sqrt_floor};
use crate::geometry::{
    Point3D, Triangle, pt_ok, pt_wide_ok, fx_ok, tri_ok, COORD_LIM, sumsq, vx, vy, vz,
    lemma_abs_mul_bound,
};
use crate::image::{ImageMeta, RGBPixel, Texture, depth_post, tex_post, flat_post,
    bbox_outline_chain};
use crate::fixed::{lemma_tdiv_bound, lemma_tdiv_sign, lemma_tdiv_exact};
use crate::matrix::{Matrix4x4, m4_at, m4_ok};
use vstd::arithmetic::div_mod::{lemma_div_is_ordered, lemma_div_by_multiple,
    lemma_div_pos_is_pos};

/// The viewport formula: a normalized device coordinate `pos` in `[-1, 1]`
/// maps to `dim * (pos + 1) / 2`, rounded toward zero.
pub open spec fn image_position_spec(pos: int, dim: int) -> int {
    tdiv(dim * (pos + SCALE), 2)
}

/// Map one normalized device coordinate into a viewport of extent `dim`.
pub fn image_position(pos: Fx, dim: i64) -> (r: Fx)
    requires
        0 < dim <= 0x8000,
        fx_ok(pos),
    ensures
        r.raw == image_position_spec(pos.raw as int, dim as int),
{
    proof {
        lemma_abs_mul_bound(dim as int, pos.raw + SCALE, 0x8000,
            COORD_LIM as int + SCALE as int);
        lemma_tdiv_sign((dim as int) * (pos.raw + SCALE), 2);
    }
    let n: i128 = (dim as i128) * ((pos.raw as i128) + (SCALE as i128));
    Fx { raw: tdiv_i128(n, 2) as i64 }
}

/// Coordinates already in `[-1, 1]` land in `[0, dim]` exactly, under the
/// viewport formula.
pub proof fn lemma_image_position_range(pos: int, dim: int)
    requires
        -(SCALE as int) <= pos <= SCALE as int,
        0 < dim,
    ensures
        0 <= image_position_spec(pos, dim) <= dim * (SCALE as int),
{
    let n = dim * (pos + SCALE);
    assert(0 <= n <= dim * (2 * SCALE) && dim * (2 * SCALE) == (dim * (SCALE as int)) * 2)
        by (nonlinear_arith)
        requires
            n == dim * (pos + SCALE),
            -(SCALE as int) <= pos <= SCALE as int,
            0 < dim;
    lemma_div_pos_is_pos(n, 2);
    lemma_div_is_ordered(n, (dim * (SCALE as int)) * 2, 2);
    lemma_div_by_multiple(dim * (SCALE as int), 2);
}

/// Map all three coordinates of a point into the viewport.
pub fn point3d_image_position(p: Point3D, dim: i64) -> (r: Point3D)
    requires
        0 < dim <= 0x8000,
        pt_ok(p),
    ensures
        r.x.raw == image_position_spec(p.x.raw as int, dim as int),
        r.y.raw == image_position_spec(p.y.raw as int, dim as int),
        r.z.raw == image_position_spec(p.z.raw as int, dim as int),
{
    Point3D {
        x: image_position(p.x, dim),
        y: image_position(p.y, dim),
        z: image_position(p.z, dim),
    }
}

/// The central projection toward a camera on the z axis: the identity with
/// `-1/camera.z` in the last row's third column.
pub fn make_projection_matrix(camera: Point3D) -> (r: Matrix4x4)
    requires
        camera.z.raw != 0,
        fx_ok(camera.z),
    ensures
        forall|i: int, j: int|
            0 <= i < 4 && 0 <= j < 4 && !(i == 3 && j == 2) ==> #[trigger] m4_at(r, i, j)
                == if i == j {
                SCALE as int
            } else {
                0
            },
        m4_at(r, 3, 2) == -fx_div_spec(SCALE as int, camera.z.raw as int),
{
    proof {
        lemma_abs_mul_bound(SCALE as int, SCALE as int, SCALE as int, SCALE as int);
        lemma_tdiv_sign((SCALE as int) * (SCALE as int), abs_int(camera.z.raw as int));
    }
    let inv: Fx = Fx { raw: SCALE }.div(camera.z);
    let o = Fx { raw: SCALE };
    let z = Fx { raw: 0 };
    let m = Fx { raw: -inv.raw };
    Matrix4x4 { buffer: [o, z, z, z, z, o, z, z, z, z, o, z, z, z, m, o] }
}

/// The viewport transform from the cube `[-1, 1]^3` to
/// `[0, w] x [0, h] x [0, d]`: halves of the extents on the diagonal and in
/// the last column.
pub fn make_viewport_matrix(w: Fx, h: Fx, d: Fx) -> (r: Matrix4x4)
    requires
        fx_ok(w),
        fx_ok(h),
        fx_ok(d),
    ensures
        m4_at(r, 0, 0) == tdiv(w.raw as int, 2) && m4_at(r, 0, 3) == tdiv(w.raw as int, 2),
        m4_at(r, 1, 1) == tdiv(h.raw as int, 2) && m4_at(r, 1, 3) == tdiv(h.raw as int, 2),
        m4_at(r, 2, 2) == tdiv(d.raw as int, 2) && m4_at(r, 2, 3) == tdiv(d.raw as int, 2),
        m4_at(r, 3, 3) == SCALE as int,
        m4_at(r, 0, 1) == 0 && m4_at(r, 0, 2) == 0 && m4_at(r, 1, 0) == 0 && m4_at(r, 1, 2)
            == 0 && m4_at(r, 2, 0) == 0 && m4_at(r, 2, 1) == 0 && m4_at(r, 3, 0) == 0 && m4_at(
            r, 3, 1) == 0 && m4_at(r, 3, 2) == 0,
    {
    let wh = half(w);
    let hh = half(h);
    let dh = half(d);
    let o = Fx { raw: SCALE };
    let z = Fx { raw: 0 };
    Matrix4x4 { buffer: [wh, z, z, wh, z, hh, z, hh, z, z, dh, dh, z, z, z, o] }
}

/// Half of a scalar, rounded toward zero.
fn half(v: Fx) -> (r: Fx)
    requires
        fx_ok(v),
    ensures
        r.raw == tdiv(v.raw as int, 2),
{
    proof {
        lemma_tdiv_sign(v.raw as int, 2);
    }
    Fx { raw: tdiv_i128(v.raw as i128, 2) as i64 }
}

/// Componentwise difference, as a value.
pub open spec fn sub_pt(a: Point3D, b: Point3D) -> Point3D {
    Point3D {
        x: Fx { raw: (a.x.raw - b.x.raw) as i64 },
        y: Fx { raw: (a.y.raw - b.y.raw) as i64 },
        z: Fx { raw: (a.z.raw - b.z.raw) as i64 },
    }
}

/// Cross product with the renderer's sign convention, as a value.
pub open spec fn cross_pt(a: Point3D, b: Point3D) -> Point3D {
    Point3D {
        x: Fx {
            raw: (tdiv(a.y.raw * b.z.raw, SCALE as int) - tdiv(b.y.raw * a.z.raw,
                SCALE as int)) as i64,
        },
        y: Fx {
            raw: (-(tdiv(a.x.raw * b.z.raw, SCALE as int) - tdiv(b.x.raw * a.z.raw,
                SCALE as int))) as i64,
        },
        z: Fx {
            raw: (tdiv(a.x.raw * b.y.raw, SCALE as int) - tdiv(b.x.raw * a.y.raw,
                SCALE as int)) as i64,
        },
    }
}

/// The vector scaled to unit length, as a value.
pub open spec fn unit_of(p: Point3D) -> Point3D {
    Point3D {
        x: Fx { raw: tdiv(p.x.raw * SCALE, sqrt_floor(sumsq(p))) as i64 },
        y: Fx { raw: tdiv(p.y.raw * SCALE, sqrt_floor(sumsq(p))) as i64 },
        z: Fx { raw: tdiv(p.z.raw * SCALE, sqrt_floor(sumsq(p))) as i64 },
    }
}

/// Dot product, as a value.
pub open spec fn dot_spec(a: Point3D, b: Point3D) -> int {
    tdiv(a.x.raw * b.x.raw, SCALE as int) + tdiv(a.y.raw * b.y.raw, SCALE as int) + tdiv(
        a.z.raw * b.z.raw, SCALE as int)
}

/// Camera and up vectors stay within a modest range (128 units), so the
/// basis construction cannot overflow.
pub open spec fn pt_cam_ok(p: Point3D) -> bool {
    &&& -0x80_0000 <= p.x.raw <= 0x80_0000
    &&& -0x80_0000 <= p.y.raw <= 0x80_0000
    &&& -0x80_0000 <= p.z.raw <= 0x80_0000
}

/// The rows of the model-view matrix: the normalized right, up and viewing
/// basis vectors derived from the camera position and the up hint.
pub open spec fn model_view_spec(up: Point3D, cam: Point3D) -> Seq<Fx> {
    let v = unit_of(cross_pt(up, cam));
    let w = unit_of(cross_pt(cam, cross_pt(up, cam)));
    let c = unit_of(cam);
    seq![
        v.x, v.y, v.z, Fx { raw: 0 },
        w.x, w.y, w.z, Fx { raw: 0 },
        c.x, c.y, c.z, Fx { raw: 0 },
        Fx { raw: 0 }, Fx { raw: 0 }, Fx { raw: 0 }, Fx { raw: SCALE },
    ]
}

/// Build the model-view matrix: an orthogonal-ish basis from the camera
/// direction and an up hint, each row normalized; the camera vector itself
/// is normalized in place. Degenerate inputs (a zero camera, or an up hint
/// parallel to it) are ruled out.
pub fn make_model_view(up: Point3D, camera: &mut Point3D) -> (r: Matrix4x4)
    requires
        pt_cam_ok(up),
        pt_cam_ok(*old(camera)),
        sumsq(cross_pt(up, *old(camera))) > 0,
        sumsq(cross_pt(*old(camera), cross_pt(up, *old(camera)))) > 0,
        sumsq(*old(camera)) > 0,
    ensures
        *final(camera) == unit_of(*old(camera)),
        r.buffer@ == model_view_spec(up, *old(camera)),
{
    proof {
        lemma_cam_cross_bounds(up, *old(camera));
    }
    let mut v = up.cross(*camera);
    let mut w = camera.cross(v);
    proof {
        assert(v == cross_pt(up, *old(camera)));
        assert(w == cross_pt(*old(camera), cross_pt(up, *old(camera))));
    }
    v.normalize();
    w.normalize();
    camera.normalize();
    let z = Fx { raw: 0 };
    let o = Fx { raw: SCALE };
    let r = Matrix4x4 {
        buffer: [v.x, v.y, v.z, z, w.x, w.y, w.z, z, camera.x, camera.y, camera.z, z, z, z, z,
            o],
    };
    proof {
        assert(*camera == unit_of(*old(camera)));
        assert(r.buffer@ =~= model_view_spec(up, *old(camera)));
    }
    r
}

/// Cross products of camera-range vectors stay within the coordinate range,
/// and their own cross products within the loose range.
proof fn lemma_cam_cross_bounds(up: Point3D, cam: Point3D)
    requires
        pt_cam_ok(up),
        pt_cam_ok(cam),
    ensures
        pt_ok(up),
        pt_ok(cam),
        pt_ok(cross_pt(up, cam)),
        pt_wide_ok(cross_pt(cam, cross_pt(up, cam))),
        forall|a: int, b: int|
            -0x80_0000 <= a <= 0x80_0000 && -0x80_0000 <= b <= 0x80_0000 ==> -0x4000_0000
                <= tdiv(#[trigger] (a * b), SCALE as int) <= 0x4000_0000,
        forall|a: int, b: int|
            -0x80_0000 <= a <= 0x80_0000 && -(COORD_LIM as int) <= b <= COORD_LIM as int
                ==> -0x4000_0000_0000 <= tdiv(#[trigger] (a * b), SCALE as int)
                <= 0x4000_0000_0000,
{
    assert forall|a: int, b: int|
        -0x80_0000 <= a <= 0x80_0000 && -0x80_0000 <= b <= 0x80_0000 implies -0x4000_0000
        <= tdiv(#[trigger] (a * b), SCALE as int) <= 0x4000_0000 by {
        lemma_abs_mul_bound(a, b, 0x80_0000, 0x80_0000);
        lemma_tdiv_bound(a * b, SCALE as int, 0x4000_0000);
    }
    assert forall|a: int, b: int|
        -0x80_0000 <= a <= 0x80_0000 && -(COORD_LIM as int) <= b <= COORD_LIM as int
        implies -0x4000_0000_0000 <= tdiv(#[trigger] (a * b), SCALE as int)
        <= 0x4000_0000_0000 by {
        lemma_abs_mul_bound(a, b, 0x80_0000, COORD_LIM as int);
        lemma_tdiv_bound(a * b, SCALE as int, 0x4000_0000_0000);
    }
    assert forall|a: int, b: int|
        -(COORD_LIM as int) <= a <= COORD_LIM as int && -0x80_0000 <= b <= 0x80_0000
        implies -0x4000_0000_0000 <= tdiv(#[trigger] (a * b), SCALE as int)
        <= 0x4000_0000_0000 by {
        lemma_abs_mul_bound(a, b, COORD_LIM as int, 0x80_0000);
        lemma_tdiv_bound(a * b, SCALE as int, 0x4000_0000_0000);
    }
    let inner = cross_pt(up, cam);
    assert(-(COORD_LIM as int) <= inner.x.raw <= COORD_LIM as int);
    assert(-(COORD_LIM as int) <= inner.y.raw <= COORD_LIM as int);
    assert(-(COORD_LIM as int) <= inner.z.raw <= COORD_LIM as int);
    let outer = cross_pt(cam, inner);
    assert(-0x8000_0000_0000 <= outer.x.raw <= 0x8000_0000_0000);
    assert(-0x8000_0000_0000 <= outer.y.raw <= 0x8000_0000_0000);
    assert(-0x8000_0000_0000 <= outer.z.raw <= 0x8000_0000_0000);
}

/// The screen triangle of face `f` under the plain viewport mapping: x and
/// y are the viewport images of the vertex coordinates, the depth is left
/// at zero.
pub open spec fn is_flat_face_tri(
    t: Triangle,
    pos: Seq<Fx>,
    idx: Seq<usize>,
    dim: int,
    f: int,
) -> bool {
    &&& vx(t, 0) == image_position_spec(pos[3 * (idx[3 * f] as int)].raw as int, dim)
    &&& vy(t, 0) == image_position_spec(pos[3 * (idx[3 * f] as int) + 1].raw as int, dim)
    &&& vz(t, 0) == 0
    &&& vx(t, 1) == image_position_spec(pos[3 * (idx[3 * f + 1] as int)].raw as int, dim)
    &&& vy(t, 1) == image_position_spec(pos[3 * (idx[3 * f + 1] as int) + 1].raw as int, dim)
    &&& vz(t, 1) == 0
    &&& vx(t, 2) == image_position_spec(pos[3 * (idx[3 * f + 2] as int)].raw as int, dim)
    &&& vy(t, 2) == image_position_spec(pos[3 * (idx[3 * f + 2] as int) + 1].raw as int, dim)
    &&& vz(t, 2) == 0
}

/// The mesh arrays are consistent: every index points at a full vertex
/// triple and every coordinate is a normalized device coordinate.
pub open spec fn mesh_ok(pos: Seq<Fx>, idx: Seq<usize>) -> bool {
    &&& forall|k: int| 0 <= k < idx.len() ==> 3 * ((#[trigger] idx[k]) as int) + 2 < pos.len()
    &&& forall|k: int| 0 <= k < pos.len() ==> -(SCALE as int) <= (#[trigger] pos[k]).raw
        <= SCALE as int
    &&& idx.len() <= 0x1000_0000
}

/// The chain of per-face flat-shading steps: `tris` are the screen
/// triangles of the faces in order, and each consecutive pair of states is
/// related by one depth-tested fill with that face's color.
pub open spec fn flat_chain(
    pos: Seq<Fx>,
    idx: Seq<usize>,
    colors: Seq<RGBPixel>,
    dim: int,
    w: int,
    h: int,
    tris: Seq<Triangle>,
    states: Seq<(Seq<RGBPixel>, Seq<Fx>)>,
) -> bool {
    &&& tris.len() == idx.len() / 3
    &&& states.len() == tris.len() + 1
    &&& forall|f: int|
        0 <= f < tris.len() ==> #[trigger] is_flat_face_tri(tris[f], pos, idx, dim, f)
    &&& forall|f: int|
        0 <= f < tris.len() ==> #[trigger] depth_post(tris[f], colors[f], w, h, states[f].0,
            states[f].1, states[f + 1].0, states[f + 1].1)
}

/// Render a mesh with one flat color per face: each face's vertices are
/// mapped by the viewport formula (depth left at zero) and the triangle is
/// depth-test filled with the face's color, in face order.
pub fn flat_shading_render(
    image: &mut ImageMeta,
    zbuffer: &mut Vec<Fx>,
    positions: &Vec<Fx>,
    indices: &Vec<usize>,
    colors: &Vec<RGBPixel>,
)
    requires
        old(image).wf(),
        old(zbuffer)@.len() == old(image).buffer@.len(),
        mesh_ok(positions@, indices@),
        colors@.len() >= indices@.len() / 3,
    ensures
        final(image).wf(),
        final(image).width == old(image).width,
        final(image).height == old(image).height,
        final(zbuffer)@.len() == old(zbuffer)@.len(),
        exists|tris: Seq<Triangle>, states: Seq<(Seq<RGBPixel>, Seq<Fx>)>|
            #[trigger] flat_chain(positions@, indices@, colors@, old(image).width as int,
                old(image).width as int, old(image).height as int, tris, states)
                && states[0] == (old(image).buffer@, old(zbuffer)@) && states[
                states.len() - 1] == (final(image).buffer@, final(zbuffer)@),
{
    let ghost w = image.width as int;
    let ghost h = image.height as int;
    let ghost tris0: Seq<Triangle> = Seq::empty();
    let ghost states0: Seq<(Seq<RGBPixel>, Seq<Fx>)> = seq![(image.buffer@, zbuffer@)];
    let ghost mut tris = tris0;
    let ghost mut states = states0;
    let wdim: i64 = image.width as i64;
    let plen: usize = positions.len();
    let faces: usize = indices.len() / 3;
    let mut f: usize = 0;
    while f < faces
        invariant
            positions@.len() == plen as int,
            image.wf(),
            image.width as int == w,
            image.height as int == h,
            wdim as int == w,
            zbuffer@.len() == old(zbuffer)@.len(),
            zbuffer@.len() == image.buffer@.len(),
            mesh_ok(positions@, indices@),
            colors@.len() >= indices@.len() / 3,
            faces as int == indices@.len() / 3,
            f <= faces,
            tris.len() == f as int,
            states.len() == f as int + 1,
            states[0] == (old(image).buffer@, old(zbuffer)@),
            states[f as int] == (image.buffer@, zbuffer@),
            forall|k: int|
                0 <= k < f as int ==> #[trigger] is_flat_face_tri(tris[k], positions@,
                    indices@, w, k),
            forall|k: int|
                0 <= k < f as int ==> #[trigger] depth_post(tris[k], colors@[k], w, h,
                    states[k].0, states[k].1, states[k + 1].0, states[k + 1].1),
        decreases faces - f,
    {
        proof {
            assert(3 * (faces as int) <= indices@.len());
        }
        let v0 = indices[3 * f];
        let v1 = indices[3 * f + 1];
        let v2 = indices[3 * f + 2];
        proof {
            assert(3 * (v0 as int) + 2 < positions@.len());
            assert(3 * (v1 as int) + 2 < positions@.len());
            assert(3 * (v2 as int) + 2 < positions@.len());
        }
        let a = Point3D {
            x: image_position(positions[3 * v0], wdim),
            y: image_position(positions[3 * v0 + 1], wdim),
            z: Fx { raw: 0 },
        };
        let b = Point3D {
            x: image_position(positions[3 * v1], wdim),
            y: image_position(positions[3 * v1 + 1], wdim),
            z: Fx { raw: 0 },
        };
        let c = Point3D {
            x: image_position(positions[3 * v2], wdim),
            y: image_position(positions[3 * v2 + 1], wdim),
            z: Fx { raw: 0 },
        };
        let triangle = Triangle { vertices: [a, b, c] };
        proof {
            lemma_viewport_tri_ok(triangle, positions@, indices@, w, f as int);
        }
        let col = colors[f];
        let ghost bpre = image.buffer@;
        let ghost zpre = zbuffer@;
        image.draw_triangle(triangle, zbuffer, &col);
        proof {
            tris = tris.push(triangle);
            states = states.push((image.buffer@, zbuffer@));
            assert(states[f as int] == (bpre, zpre));
            assert(is_flat_face_tri(triangle, positions@, indices@, w, f as int));
        }
        f = f + 1;
    }
    proof {
        assert(flat_chain(positions@, indices@, colors@, w, w, h, tris, states));
        assert(states[states.len() - 1] == (image.buffer@, zbuffer@));
    }
}

/// A triangle whose x and y coordinates come from the viewport formula on
/// device coordinates, with zero depth, is within the coordinate range.
proof fn lemma_viewport_tri_ok(t: Triangle, pos: Seq<Fx>, idx: Seq<usize>, dim: int, f: int)
    requires
        mesh_ok(pos, idx),
        0 <= 3 * f + 2 < idx.len(),
        0 < dim <= 0x8000,
        is_flat_face_tri(t, pos, idx, dim, f),
    ensures
        tri_ok(t),
{
    assert(dim * (SCALE as int) <= COORD_LIM as int) by (nonlinear_arith)
        requires
            0 < dim <= 0x8000,
            SCALE as int == 65536,
            COORD_LIM as int == 0x8000_0000;
    lemma_image_position_range(pos[3 * (idx[3 * f] as int)].raw as int, dim);
    lemma_image_position_range(pos[3 * (idx[3 * f] as int) + 1].raw as int, dim);
    lemma_image_position_range(pos[3 * (idx[3 * f + 1] as int)].raw as int, dim);
    lemma_image_position_range(pos[3 * (idx[3 * f + 1] as int) + 1].raw as int, dim);
    lemma_image_position_range(pos[3 * (idx[3 * f + 2] as int)].raw as int, dim);
    lemma_image_position_range(pos[3 * (idx[3 * f + 2] as int) + 1].raw as int, dim);
}

/// World-space vertex `j` of face `f`, read straight from the flat arrays.
pub open spec fn world_pt(pos: Seq<Fx>, idx: Seq<usize>, f: int, j: int) -> Point3D {
    Point3D {
        x: pos[3 * (idx[3 * f + j] as int)],
        y: pos[3 * (idx[3 * f + j] as int) + 1],
        z: pos[3 * (idx[3 * f + j] as int) + 2],
    }
}

/// Face normal before normalization: the cross product of the edges from
/// vertex 0 to vertices 2 and 1 (in that order, matching the renderer).
pub open spec fn face_xprod(pos: Seq<Fx>, idx: Seq<usize>, f: int) -> Point3D {
    cross_pt(
        sub_pt(world_pt(pos, idx, f, 2), world_pt(pos, idx, f, 0)),
        sub_pt(world_pt(pos, idx, f, 1), world_pt(pos, idx, f, 0)),
    )
}

/// The light direction: straight down the negative z axis.
pub open spec fn light_pt() -> Point3D {
    Point3D { x: Fx { raw: 0 }, y: Fx { raw: 0 }, z: Fx { raw: (-(SCALE as int)) as i64 } }
}

/// Lambertian intensity of a face: the normalized face normal dotted with
/// the light direction.
pub open spec fn illum_dot(pos: Seq<Fx>, idx: Seq<usize>, f: int) -> int {
    dot_spec(unit_of(face_xprod(pos, idx, f)), light_pt())
}

/// The 8-bit lighting level: the intensity scaled to `[0, 255]`, rounded
/// toward zero.
pub open spec fn illum_level(pos: Seq<Fx>, idx: Seq<usize>, f: int) -> int {
    tdiv(illum_dot(pos, idx, f) * 255, SCALE as int)
}

/// A face is lit when its normal is usable (the cross product is nonzero,
/// so normalizing is defined) and the light level is positive.
pub open spec fn face_lit(pos: Seq<Fx>, idx: Seq<usize>, f: int) -> bool {
    sumsq(face_xprod(pos, idx, f)) > 0 && illum_level(pos, idx, f) > 0
}

/// The gray fill color of a lit face.
pub open spec fn gray_of(level: int) -> RGBPixel {
    RGBPixel { red: level as u8, green: level as u8, blue: level as u8 }
}

/// The screen triangle of face `f` under the plain viewport mapping with
/// the depth mapped as well.
pub open spec fn is_illum_face_tri(
    t: Triangle,
    pos: Seq<Fx>,
    idx: Seq<usize>,
    dim: int,
    f: int,
) -> bool {
    &&& vx(t, 0) == image_position_spec(world_pt(pos, idx, f, 0).x.raw as int, dim)
    &&& vy(t, 0) == image_position_spec(world_pt(pos, idx, f, 0).y.raw as int, dim)
    &&& vz(t, 0) == image_position_spec(world_pt(pos, idx, f, 0).z.raw as int, dim)
    &&& vx(t, 1) == image_position_spec(world_pt(pos, idx, f, 1).x.raw as int, dim)
    &&& vy(t, 1) == image_position_spec(world_pt(pos, idx, f, 1).y.raw as int, dim)
    &&& vz(t, 1) == image_position_spec(world_pt(pos, idx, f, 1).z.raw as int, dim)
    &&& vx(t, 2) == image_position_spec(world_pt(pos, idx, f, 2).x.raw as int, dim)
    &&& vy(t, 2) == image_position_spec(world_pt(pos, idx, f, 2).y.raw as int, dim)
    &&& vz(t, 2) == image_position_spec(world_pt(pos, idx, f, 2).z.raw as int, dim)
}

/// The chain of per-face illuminated-shading steps: lit faces are
/// depth-test filled with their gray level, unlit or degenerate faces leave
/// the buffers untouched.
pub open spec fn illum_chain(
    pos: Seq<Fx>,
    idx: Seq<usize>,
    dim: int,
    w: int,
    h: int,
    tris: Seq<Triangle>,
    states: Seq<(Seq<RGBPixel>, Seq<Fx>)>,
) -> bool {
    &&& tris.len() == idx.len() / 3
    &&& states.len() == tris.len() + 1
    &&& forall|f: int|
        0 <= f < tris.len() && face_lit(pos, idx, f) ==> #[trigger] is_illum_face_tri(
            tris[f], pos, idx, dim, f)
    &&& forall|f: int|
        0 <= f < tris.len() && face_lit(pos, idx, f) ==> #[trigger] depth_post(tris[f],
            gray_of(illum_level(pos, idx, f)), w, h, states[f].0, states[f].1,
            states[f + 1].0, states[f + 1].1)
    &&& forall|f: int|
        0 <= f < tris.len() && !face_lit(pos, idx, f) ==> states[f + 1] == #[trigger] states[f]
}

/// A vector is the zero vector exactly when its squared length is zero.
proof fn lemma_sumsq_zero(p: Point3D)
    by (nonlinear_arith)
    ensures
        (sumsq(p) == 0) <==> (p.x.raw == 0 && p.y.raw == 0 && p.z.raw == 0),
        sumsq(p) >= 0,
{
}

/// The cross product of two short vectors is within the loose range.
proof fn lemma_cross_small(a: Point3D, b: Point3D)
    requires
        -0x2_0000 <= a.x.raw <= 0x2_0000,
        -0x2_0000 <= a.y.raw <= 0x2_0000,
        -0x2_0000 <= a.z.raw <= 0x2_0000,
        -0x2_0000 <= b.x.raw <= 0x2_0000,
        -0x2_0000 <= b.y.raw <= 0x2_0000,
        -0x2_0000 <= b.z.raw <= 0x2_0000,
    ensures
        pt_wide_ok(cross_pt(a, b)),
        forall|x: int, y: int|
            -0x2_0000 <= x <= 0x2_0000 && -0x2_0000 <= y <= 0x2_0000 ==> -0x4_0000 <= tdiv(
                #[trigger] (x * y), SCALE as int) <= 0x4_0000,
{
    assert forall|x: int, y: int|
        -0x2_0000 <= x <= 0x2_0000 && -0x2_0000 <= y <= 0x2_0000 implies -0x4_0000 <= tdiv(
        #[trigger] (x * y), SCALE as int) <= 0x4_0000 by {
        lemma_abs_mul_bound(x, y, 0x2_0000, 0x2_0000);
        lemma_tdiv_bound(x * y, SCALE as int, 0x4_0000);
    }
}

/// Compute the lighting of a face from its unnormalized normal: normalize
/// it and dot it with the light direction.
fn light_face(xprod: &mut Point3D) -> (r: Fx)
    requires
        pt_wide_ok(*old(xprod)),
        sumsq(*old(xprod)) > 0,
    ensures
        *final(xprod) == unit_of(*old(xprod)),
        r.raw == dot_spec(unit_of(*old(xprod)), light_pt()),
        -(SCALE as int) <= r.raw <= SCALE as int,
{
    xprod.normalize();
    proof {
        assert(*xprod == unit_of(*old(xprod)));
        lemma_abs_mul_bound(xprod.x.raw as int, 0, SCALE as int, SCALE as int);
        lemma_abs_mul_bound(xprod.y.raw as int, 0, SCALE as int, SCALE as int);
        lemma_abs_mul_bound(xprod.z.raw as int, -(SCALE as int), SCALE as int, SCALE as int);
        lemma_tdiv_bound(xprod.x.raw as int * 0, SCALE as int, SCALE as int);
        lemma_tdiv_bound(xprod.y.raw as int * 0, SCALE as int, SCALE as int);
        lemma_tdiv_bound(xprod.z.raw as int * (-(SCALE as int)), SCALE as int, SCALE as int);
    }
    let light = Point3D { x: Fx { raw: 0 }, y: Fx { raw: 0 }, z: Fx { raw: -SCALE } };
    let d = xprod.dot(light);
    proof {
        assert(light == light_pt());
        lemma_tdiv_bound(xprod.x.raw as int * 0, SCALE as int, 0);
        lemma_tdiv_bound(xprod.y.raw as int * 0, SCALE as int, 0);
    }
    d
}

/// Render a mesh with flat Lambertian lighting: each face's vertices are
/// mapped by the viewport formula (depth included), the lighting level
/// comes from the face normal, and lit faces are depth-test filled with
/// that gray. Degenerate faces, whose normal cannot be normalized, are
/// skipped rather than letting the division misbehave.
pub fn flat_shading_illumination(
    image: &mut ImageMeta,
    zbuffer: &mut Vec<Fx>,
    positions: &Vec<Fx>,
    indices: &Vec<usize>,
)
    requires
        old(image).wf(),
        old(zbuffer)@.len() == old(image).buffer@.len(),
        mesh_ok(positions@, indices@),
    ensures
        final(image).wf(),
        final(image).width == old(image).width,
        final(image).height == old(image).height,
        final(zbuffer)@.len() == old(zbuffer)@.len(),
        exists|tris: Seq<Triangle>, states: Seq<(Seq<RGBPixel>, Seq<Fx>)>|
            #[trigger] illum_chain(positions@, indices@, old(image).width as int,
                old(image).width as int, old(image).height as int, tris, states) && states[0]
                == (old(image).buffer@, old(zbuffer)@) && states[states.len() - 1] == (
            final(image).buffer@, final(zbuffer)@),
{
    let ghost w = image.width as int;
    let ghost h = image.height as int;
    let ghost mut tris: Seq<Triangle> = Seq::empty();
    let ghost mut states: Seq<(Seq<RGBPixel>, Seq<Fx>)> = seq![(image.buffer@, zbuffer@)];
    let wdim: i64 = image.width as i64;
    let plen: usize = positions.len();
    let faces: usize = indices.len() / 3;
    let mut f: usize = 0;
    while f < faces
        invariant
            positions@.len() == plen as int,
            image.wf(),
            image.width as int == w,
            image.height as int == h,
            wdim as int == w,
            zbuffer@.len() == old(zbuffer)@.len(),
            zbuffer@.len() == image.buffer@.len(),
            mesh_ok(positions@, indices@),
            faces as int == indices@.len() / 3,
            f <= faces,
            tris.len() == f as int,
            states.len() == f as int + 1,
            states[0] == (old(image).buffer@, old(zbuffer)@),
            states[f as int] == (image.buffer@, zbuffer@),
            forall|k: int|
                0 <= k < f as int && face_lit(positions@, indices@, k)
                    ==> #[trigger] is_illum_face_tri(tris[k], positions@, indices@, w, k),
            forall|k: int|
                0 <= k < f as int && face_lit(positions@, indices@, k)
                    ==> #[trigger] depth_post(tris[k],
                    gray_of(illum_level(positions@, indices@, k)), w, h, states[k].0,
                    states[k].1, states[k + 1].0, states[k + 1].1),
            forall|k: int|
                0 <= k < f as int && !face_lit(positions@, indices@, k) ==> states[k + 1]
                    == #[trigger] states[k],
        decreases faces - f,
    {
        proof {
            assert(3 * (faces as int) <= indices@.len());
        }
        let v0 = indices[3 * f];
        let v1 = indices[3 * f + 1];
        let v2 = indices[3 * f + 2];
        proof {
            assert(3 * (v0 as int) + 2 < positions@.len());
            assert(3 * (v1 as int) + 2 < positions@.len());
            assert(3 * (v2 as int) + 2 < positions@.len());
        }
        let a = Point3D {
            x: image_position(positions[3 * v0], wdim),
            y: image_position(positions[3 * v0 + 1], wdim),
            z: image_position(positions[3 * v0 + 2], wdim),
        };
        let b = Point3D {
            x: image_position(positions[3 * v1], wdim),
            y: image_position(positions[3 * v1 + 1], wdim),
            z: image_position(positions[3 * v1 + 2], wdim),
        };
        let c = Point3D {
            x: image_position(positions[3 * v2], wdim),
            y: image_position(positions[3 * v2 + 1], wdim),
            z: image_position(positions[3 * v2 + 2], wdim),
        };
        let triangle = Triangle { vertices: [a, b, c] };
        let w0 = Point3D {
            x: positions[3 * v0],
            y: positions[3 * v0 + 1],
            z: positions[3 * v0 + 2],
        };
        let w1 = Point3D {
            x: positions[3 * v1],
            y: positions[3 * v1 + 1],
            z: positions[3 * v1 + 2],
        };
        let w2 = Point3D {
            x: positions[3 * v2],
            y: positions[3 * v2 + 1],
            z: positions[3 * v2 + 2],
        };
        proof {
            lemma_illum_tri_ok(triangle, positions@, indices@, w, f as int);
            assert(w0 == world_pt(positions@, indices@, f as int, 0));
            assert(w1 == world_pt(positions@, indices@, f as int, 1));
            assert(w2 == world_pt(positions@, indices@, f as int, 2));
        }
        let e2 = w2.sub(w0);
        let e1 = w1.sub(w0);
        proof {
            lemma_cross_small(e2, e1);
            assert(e2 == sub_pt(world_pt(positions@, indices@, f as int, 2),
                world_pt(positions@, indices@, f as int, 0)));
            assert(e1 == sub_pt(world_pt(positions@, indices@, f as int, 1),
                world_pt(positions@, indices@, f as int, 0)));
        }
        let mut xprod = e2.cross(e1);
        proof {
            assert(xprod == face_xprod(positions@, indices@, f as int));
            lemma_sumsq_zero(xprod);
        }
        let ghost bpre = image.buffer@;
        let ghost zpre = zbuffer@;
        let degenerate = xprod.x.raw == 0 && xprod.y.raw == 0 && xprod.z.raw == 0;
        if !degenerate {
            let d = light_face(&mut xprod);
            proof {
                assert(d.raw == illum_dot(positions@, indices@, f as int));
                lemma_abs_mul_bound(d.raw as int, 255, SCALE as int, 255);
                lemma_tdiv_bound(d.raw * 255, SCALE as int, 255);
            }
            let lvl: i64 = tdiv_i128((d.raw as i128) * 255, SCALE as i128) as i64;
            if lvl > 0 {
                let color = RGBPixel { red: lvl as u8, green: lvl as u8, blue: lvl as u8 };
                image.draw_triangle(triangle, zbuffer, &color);
                proof {
                    assert(face_lit(positions@, indices@, f as int));
                    assert(color == gray_of(illum_level(positions@, indices@, f as int)));
                }
            } else {
                proof {
                    assert(!face_lit(positions@, indices@, f as int));
                }
            }
        } else {
            proof {
                assert(!face_lit(positions@, indices@, f as int));
            }
        }
        proof {
            tris = tris.push(triangle);
            states = states.push((image.buffer@, zbuffer@));
            assert(states[f as int] == (bpre, zpre));
        }
        f = f + 1;
    }
    proof {
        assert(illum_chain(positions@, indices@, w, w, h, tris, states));
        assert(states[states.len() - 1] == (image.buffer@, zbuffer@));
    }
}

/// A triangle whose coordinates all come from the viewport formula on
/// device coordinates is within the coordinate range.
proof fn lemma_illum_tri_ok(t: Triangle, pos: Seq<Fx>, idx: Seq<usize>, dim: int, f: int)
    requires
        mesh_ok(pos, idx),
        0 <= 3 * f + 2 < idx.len(),
        0 < dim <= 0x8000,
        is_illum_face_tri(t, pos, idx, dim, f),
    ensures
        tri_ok(t),
{
    assert(dim * (SCALE as int) <= COORD_LIM as int) by (nonlinear_arith)
        requires
            0 < dim <= 0x8000,
            SCALE as int == 65536,
            COORD_LIM as int == 0x8000_0000;
    lemma_image_position_range(world_pt(pos, idx, f, 0).x.raw as int, dim);
    lemma_image_position_range(world_pt(pos, idx, f, 0).y.raw as int, dim);
    lemma_image_position_range(world_pt(pos, idx, f, 0).z.raw as int, dim);
    lemma_image_position_range(world_pt(pos, idx, f, 1).x.raw as int, dim);
    lemma_image_position_range(world_pt(pos, idx, f, 1).y.raw as int, dim);
    lemma_image_position_range(world_pt(pos, idx, f, 1).z.raw as int, dim);
    lemma_image_position_range(world_pt(pos, idx, f, 2).x.raw as int, dim);
    lemma_image_position_range(world_pt(pos, idx, f, 2).y.raw as int, dim);
    lemma_image_position_range(world_pt(pos, idx, f, 2).z.raw as int, dim);
}

/// One component of the pipeline matrix applied to a world point in
/// homogeneous coordinates (the fourth input component is one).
pub open spec fn pipe_comp(m: Matrix4x4, p: Point3D, i: int) -> int {
    tdiv(m4_at(m, i, 0) * p.x.raw, SCALE as int) + tdiv(m4_at(m, i, 1) * p.y.raw,
        SCALE as int) + tdiv(m4_at(m, i, 2) * p.z.raw, SCALE as int) + tdiv(
        m4_at(m, i, 3) * (SCALE as int), SCALE as int)
}

/// One screen coordinate of a world point: the pipeline output divided by
/// its homogeneous component.
pub open spec fn screen_comp(m: Matrix4x4, p: Point3D, i: int) -> int {
    fx_div_spec(pipe_comp(m, p, i), pipe_comp(m, p, 3))
}

/// The screen triangle of face `f` under the full pipeline.
pub open spec fn is_pipe_face_tri(
    t: Triangle,
    m: Matrix4x4,
    pos: Seq<Fx>,
    idx: Seq<usize>,
    f: int,
) -> bool {
    forall|j: int|
        0 <= j < 3 ==> {
            &&& #[trigger] vx(t, j) == screen_comp(m, world_pt(pos, idx, f, j), 0)
            &&& vy(t, j) == screen_comp(m, world_pt(pos, idx, f, j), 1)
            &&& vz(t, j) == screen_comp(m, world_pt(pos, idx, f, j), 2)
        }
}

/// The texture-coordinate triple of face `f`, scaled into texture pixel
/// space.
pub open spec fn is_face_tcs(
    tcs: [Point3D; 3],
    tc: Seq<Fx>,
    idx: Seq<usize>,
    texw: int,
    texh: int,
    f: int,
) -> bool {
    forall|j: int|
        0 <= j < 3 ==> {
            &&& (#[trigger] tcs@[j]).x.raw == tc[2 * (idx[3 * f + j] as int)].raw * texw
            &&& tcs@[j].y.raw == tc[2 * (idx[3 * f + j] as int) + 1].raw * texh
            &&& tcs@[j].z.raw == 0
        }
}

/// A face survives the homogeneous divide: no vertex has a zero fourth
/// component, and every screen coordinate stays within the coordinate
/// range.
pub open spec fn face_visible(m: Matrix4x4, pos: Seq<Fx>, idx: Seq<usize>, f: int) -> bool {
    forall|j: int|
        0 <= j < 3 ==> {
            &&& #[trigger] pipe_comp(m, world_pt(pos, idx, f, j), 3) != 0
            &&& -(COORD_LIM as int) <= screen_comp(m, world_pt(pos, idx, f, j), 0)
                <= COORD_LIM as int
            &&& -(COORD_LIM as int) <= screen_comp(m, world_pt(pos, idx, f, j), 1)
                <= COORD_LIM as int
            &&& -(COORD_LIM as int) <= screen_comp(m, world_pt(pos, idx, f, j), 2)
                <= COORD_LIM as int
        }
}

/// A face of the textured path is rendered when it survives the
/// homogeneous divide, its normal is usable, and it faces the light.
pub open spec fn face_tex_drawn(m: Matrix4x4, pos: Seq<Fx>, idx: Seq<usize>, f: int) -> bool {
    &&& face_visible(m, pos, idx, f)
    &&& sumsq(face_xprod(pos, idx, f)) > 0
    &&& illum_dot(pos, idx, f) > 0
}

/// The chain of per-face textured-rendering steps: rendered faces are
/// textured depth-test fills with the face's interpolated texture
/// coordinates and lighting intensity; other faces leave the buffers
/// untouched.
pub open spec fn tex_chain(
    m: Matrix4x4,
    pos: Seq<Fx>,
    idx: Seq<usize>,
    tc: Seq<Fx>,
    tex: Texture,
    w: int,
    h: int,
    tris: Seq<Triangle>,
    tcss: Seq<[Point3D; 3]>,
    states: Seq<(Seq<RGBPixel>, Seq<Fx>)>,
) -> bool {
    &&& tris.len() == idx.len() / 3
    &&& tcss.len() == tris.len()
    &&& states.len() == tris.len() + 1
    &&& forall|f: int|
        0 <= f < tris.len() && face_tex_drawn(m, pos, idx, f) ==> #[trigger] is_pipe_face_tri(
            tris[f], m, pos, idx, f)
    &&& forall|f: int|
        0 <= f < tris.len() && face_tex_drawn(m, pos, idx, f) ==> #[trigger] is_face_tcs(
            tcss[f], tc, idx, tex.width as int, tex.height as int, f)
    &&& forall|f: int|
        0 <= f < tris.len() && face_tex_drawn(m, pos, idx, f) ==> #[trigger] tex_post(tris[f],
            tcss[f], tex, illum_dot(pos, idx, f), w, h, states[f].0, states[f].1,
            states[f + 1].0, states[f + 1].1)
    &&& forall|f: int|
        0 <= f < tris.len() && !face_tex_drawn(m, pos, idx, f) ==> states[f + 1]
            == #[trigger] states[f]
}

/// The texture-coordinate array is consistent with the mesh: every index
/// points at a full coordinate pair and every coordinate lies in `[0, 1]`.
pub open spec fn texcoords_ok(tc: Seq<Fx>, idx: Seq<usize>) -> bool {
    &&& forall|k: int| 0 <= k < idx.len() ==> 2 * ((#[trigger] idx[k]) as int) + 1 < tc.len()
    &&& forall|k: int| 0 <= k < tc.len() ==> 0 <= (#[trigger] tc[k]).raw <= SCALE as int
}

/// Apply the pipeline to a world point and divide through, testing the
/// guards: the result is the screen point unless the homogeneous component
/// vanishes or a coordinate leaves the range.
fn project_vertex(m: &Matrix4x4, p: Point3D, scr: &mut Point3D) -> (ok: bool)
    requires
        m4_ok(*m),
        -(SCALE as int) <= p.x.raw <= SCALE as int,
        -(SCALE as int) <= p.y.raw <= SCALE as int,
        -(SCALE as int) <= p.z.raw <= SCALE as int,
    ensures
        ok == (pipe_comp(*m, p, 3) != 0 && (forall|i: int|
            0 <= i < 3 ==> -(COORD_LIM as int) <= #[trigger] screen_comp(*m, p, i)
                <= COORD_LIM as int)),
        ok ==> final(scr).x.raw == screen_comp(*m, p, 0) && final(scr).y.raw == screen_comp(
            *m, p, 1) && final(scr).z.raw == screen_comp(*m, p, 2),
        !ok ==> *final(scr) == *old(scr),
{
    let vec = [p.x, p.y, p.z, Fx { raw: SCALE }];
    let out = m.mul_vec4(vec);
    proof {
        assert(vec@[0] == p.x);
        assert(vec@[1] == p.y);
        assert(vec@[2] == p.z);
        assert(vec@[3] == Fx { raw: SCALE });
        lemma_pipe_comp_bound(*m, p);
        assert(out@[0].raw == pipe_comp(*m, p, 0));
        assert(out@[1].raw == pipe_comp(*m, p, 1));
        assert(out@[2].raw == pipe_comp(*m, p, 2));
        assert(out@[3].raw == pipe_comp(*m, p, 3));
        assert(-0x4_0000_0000 <= out@[0].raw <= 0x4_0000_0000);
        assert(-0x4_0000_0000 <= out@[1].raw <= 0x4_0000_0000);
        assert(-0x4_0000_0000 <= out@[2].raw <= 0x4_0000_0000);
        assert(-0x4_0000_0000 <= out@[3].raw <= 0x4_0000_0000);
    }
    if out[3].raw == 0 {
        return false;
    }
    proof {
        let d = abs_int(out@[3].raw as int);
        lemma_abs_mul_bound(out@[0].raw as int, SCALE as int, 0x4_0000_0000, SCALE as int);
        lemma_tdiv_sign(out@[0].raw * SCALE, d);
        lemma_abs_mul_bound(out@[1].raw as int, SCALE as int, 0x4_0000_0000, SCALE as int);
        lemma_tdiv_sign(out@[1].raw * SCALE, d);
        lemma_abs_mul_bound(out@[2].raw as int, SCALE as int, 0x4_0000_0000, SCALE as int);
        lemma_tdiv_sign(out@[2].raw * SCALE, d);
    }
    let sx = out[0].div(out[3]);
    let sy = out[1].div(out[3]);
    let sz = out[2].div(out[3]);
    proof {
        assert(sx.raw == screen_comp(*m, p, 0));
        assert(sy.raw == screen_comp(*m, p, 1));
        assert(sz.raw == screen_comp(*m, p, 2));
    }
    let lim: i64 = COORD_LIM;
    if sx.raw < -lim || sx.raw > lim || sy.raw < -lim || sy.raw > lim || sz.raw < -lim
        || sz.raw > lim {
        return false;
    }
    *scr = Point3D { x: sx, y: sy, z: sz };
    true
}

/// The pipeline output of a device-range point is bounded far within the
/// machine range.
proof fn lemma_pipe_comp_bound(m: Matrix4x4, p: Point3D)
    requires
        m4_ok(m),
        -(SCALE as int) <= p.x.raw <= SCALE as int,
        -(SCALE as int) <= p.y.raw <= SCALE as int,
        -(SCALE as int) <= p.z.raw <= SCALE as int,
    ensures
        forall|i: int|
            0 <= i < 4 ==> -0x4_0000_0000 <= #[trigger] pipe_comp(m, p, i) <= 0x4_0000_0000,
{
    assert forall|i: int|
        0 <= i < 4 implies -0x4_0000_0000 <= #[trigger] pipe_comp(m, p, i)
        <= 0x4_0000_0000 by {
        lemma_abs_mul_bound(m4_at(m, i, 0), p.x.raw as int, COORD_LIM as int, SCALE as int);
        lemma_tdiv_bound(m4_at(m, i, 0) * p.x.raw, SCALE as int, 0x1_0000_0000);
        lemma_abs_mul_bound(m4_at(m, i, 1), p.y.raw as int, COORD_LIM as int, SCALE as int);
        lemma_tdiv_bound(m4_at(m, i, 1) * p.y.raw, SCALE as int, 0x1_0000_0000);
        lemma_abs_mul_bound(m4_at(m, i, 2), p.z.raw as int, COORD_LIM as int, SCALE as int);
        lemma_tdiv_bound(m4_at(m, i, 2) * p.z.raw, SCALE as int, 0x1_0000_0000);
        lemma_abs_mul_bound(m4_at(m, i, 3), SCALE as int, COORD_LIM as int, SCALE as int);
        lemma_tdiv_bound(m4_at(m, i, 3) * SCALE, SCALE as int, 0x1_0000_0000);
    }
}

/// Render a textured mesh through a full transform pipeline: each face's
/// vertices run through the pipeline and the homogeneous divide, the face's
/// lighting comes from its world-space normal, and lit faces are filled by
/// the textured depth-tested rasterizer. Faces the divide rejects (a zero
/// homogeneous component, or a screen coordinate outside the coordinate
/// range) and degenerate faces are skipped.
#[verifier::rlimit(60)]
pub fn render_with_texture_projection(
    image: &mut ImageMeta,
    zbuffer: &mut Vec<Fx>,
    positions: &Vec<Fx>,
    indices: &Vec<usize>,
    texcoords: &Vec<Fx>,
    texture_img: &Texture,
    pipeline: &Matrix4x4,
)
    requires
        old(image).wf(),
        old(zbuffer)@.len() == old(image).buffer@.len(),
        mesh_ok(positions@, indices@),
        texcoords_ok(texcoords@, indices@),
        texture_img.wf(),
        m4_ok(*pipeline),
    ensures
        final(image).wf(),
        final(image).width == old(image).width,
        final(image).height == old(image).height,
        final(zbuffer)@.len() == old(zbuffer)@.len(),
        exists|tris: Seq<Triangle>, tcss: Seq<[Point3D; 3]>, states: Seq<(Seq<RGBPixel>, Seq<Fx>)>|
            #[trigger] tex_chain(*pipeline, positions@, indices@, texcoords@, *texture_img,
                old(image).width as int, old(image).height as int, tris, tcss, states)
                && states[0] == (old(image).buffer@, old(zbuffer)@) && states[
            states.len() - 1] == (final(image).buffer@, final(zbuffer)@),
{
    let ghost w = image.width as int;
    let ghost h = image.height as int;
    let ghost mut tris: Seq<Triangle> = Seq::empty();
    let ghost mut tcss: Seq<[Point3D; 3]> = Seq::empty();
    let ghost mut states: Seq<(Seq<RGBPixel>, Seq<Fx>)> = seq![(image.buffer@, zbuffer@)];
    let plen: usize = positions.len();
    let tclen: usize = texcoords.len();
    let faces: usize = indices.len() / 3;
    let texw: i64 = texture_img.width as i64;
    let texh: i64 = texture_img.height as i64;
    let mut f: usize = 0;
    while f < faces
        invariant
            positions@.len() == plen as int,
            texcoords@.len() == tclen as int,
            image.wf(),
            image.width as int == w,
            image.height as int == h,
            zbuffer@.len() == old(zbuffer)@.len(),
            zbuffer@.len() == image.buffer@.len(),
            mesh_ok(positions@, indices@),
            texcoords_ok(texcoords@, indices@),
            texture_img.wf(),
            m4_ok(*pipeline),
            texw as int == texture_img.width as int,
            texh as int == texture_img.height as int,
            faces as int == indices@.len() / 3,
            f <= faces,
            tris.len() == f as int,
            tcss.len() == f as int,
            states.len() == f as int + 1,
            states[0] == (old(image).buffer@, old(zbuffer)@),
            states[f as int] == (image.buffer@, zbuffer@),
            forall|k: int|
                0 <= k < f as int && face_tex_drawn(*pipeline, positions@, indices@, k)
                    ==> #[trigger] is_pipe_face_tri(tris[k], *pipeline, positions@, indices@,
                    k),
            forall|k: int|
                0 <= k < f as int && face_tex_drawn(*pipeline, positions@, indices@, k)
                    ==> #[trigger] is_face_tcs(tcss[k], texcoords@, indices@,
                    texture_img.width as int, texture_img.height as int, k),
            forall|k: int|
                0 <= k < f as int && face_tex_drawn(*pipeline, positions@, indices@, k)
                    ==> #[trigger] tex_post(tris[k], tcss[k], *texture_img,
                    illum_dot(positions@, indices@, k), w, h, states[k].0, states[k].1,
                    states[k + 1].0, states[k + 1].1),
            forall|k: int|
                0 <= k < f as int && !face_tex_drawn(*pipeline, positions@, indices@, k)
                    ==> states[k + 1] == #[trigger] states[k],
        decreases faces - f,
    {
        proof {
            assert(3 * (faces as int) <= indices@.len());
        }
        let v0 = indices[3 * f];
        let v1 = indices[3 * f + 1];
        let v2 = indices[3 * f + 2];
        proof {
            assert(3 * (v0 as int) + 2 < positions@.len());
            assert(3 * (v1 as int) + 2 < positions@.len());
            assert(3 * (v2 as int) + 2 < positions@.len());
            assert(2 * (v0 as int) + 1 < texcoords@.len());
            assert(2 * (v1 as int) + 1 < texcoords@.len());
            assert(2 * (v2 as int) + 1 < texcoords@.len());
        }
        let w0 = Point3D {
            x: positions[3 * v0],
            y: positions[3 * v0 + 1],
            z: positions[3 * v0 + 2],
        };
        let w1 = Point3D {
            x: positions[3 * v1],
            y: positions[3 * v1 + 1],
            z: positions[3 * v1 + 2],
        };
        let w2 = Point3D {
            x: positions[3 * v2],
            y: positions[3 * v2 + 1],
            z: positions[3 * v2 + 2],
        };
        proof {
            assert(w0 == world_pt(positions@, indices@, f as int, 0));
            assert(w1 == world_pt(positions@, indices@, f as int, 1));
            assert(w2 == world_pt(positions@, indices@, f as int, 2));
        }
        let tc0 = scaled_texcoord(texcoords, v0, texw, texh);
        let tc1 = scaled_texcoord(texcoords, v1, texw, texh);
        let tc2 = scaled_texcoord(texcoords, v2, texw, texh);
        let tcs = [tc0, tc1, tc2];
        let mut s0 = Point3D::zero();
        let mut s1 = Point3D::zero();
        let mut s2 = Point3D::zero();
        let ok0 = project_vertex(pipeline, w0, &mut s0);
        let ok1 = project_vertex(pipeline, w1, &mut s1);
        let ok2 = project_vertex(pipeline, w2, &mut s2);
        let triangle = Triangle { vertices: [s0, s1, s2] };
        let e2 = w2.sub(w0);
        let e1 = w1.sub(w0);
        proof {
            lemma_cross_small(e2, e1);
            assert(e2 == sub_pt(world_pt(positions@, indices@, f as int, 2),
                world_pt(positions@, indices@, f as int, 0)));
            assert(e1 == sub_pt(world_pt(positions@, indices@, f as int, 1),
                world_pt(positions@, indices@, f as int, 0)));
        }
        let mut xprod = e2.cross(e1);
        proof {
            assert(xprod == face_xprod(positions@, indices@, f as int));
            lemma_sumsq_zero(xprod);
        }
        let ghost bpre = image.buffer@;
        let ghost zpre = zbuffer@;
        let degenerate = xprod.x.raw == 0 && xprod.y.raw == 0 && xprod.z.raw == 0;
        if ok0 && ok1 && ok2 && !degenerate {
            let d = light_face(&mut xprod);
            proof {
                assert(d.raw == illum_dot(positions@, indices@, f as int));
            }
            if d.raw > 0 {
                image.draw_triangle_with_texture(triangle, tcs, texture_img, d, zbuffer);
                proof {
                    assert(face_tex_drawn(*pipeline, positions@, indices@, f as int));
                    assert(is_pipe_face_tri(triangle, *pipeline, positions@, indices@,
                        f as int));
                    assert(is_face_tcs(tcs, texcoords@, indices@, texture_img.width as int,
                        texture_img.height as int, f as int));
                }
            } else {
                proof {
                    assert(!face_tex_drawn(*pipeline, positions@, indices@, f as int));
                }
            }
        } else {
            proof {
                assert(!face_tex_drawn(*pipeline, positions@, indices@, f as int));
            }
        }
        proof {
            tris = tris.push(triangle);
            tcss = tcss.push(tcs);
            states = states.push((image.buffer@, zbuffer@));
            assert(states[f as int] == (bpre, zpre));
        }
        f = f + 1;
    }
    proof {
        assert(tex_chain(*pipeline, positions@, indices@, texcoords@, *texture_img, w, h,
            tris, tcss, states));
        assert(states[states.len() - 1] == (image.buffer@, zbuffer@));
    }
}

/// One vertex's texture coordinates scaled into texture pixel space (the
/// scaling by a whole pixel count is exact).
fn scaled_texcoord(texcoords: &Vec<Fx>, v: usize, texw: i64, texh: i64) -> (r: Point3D)
    requires
        2 * (v as int) + 1 < texcoords@.len(),
        texcoords@.len() <= usize::MAX as int,
        forall|k: int|
            0 <= k < texcoords@.len() ==> 0 <= (#[trigger] texcoords@[k]).raw <= SCALE as int,
        0 < texw <= 0x8000,
        0 < texh <= 0x8000,
    ensures
        r.x.raw == texcoords@[2 * (v as int)].raw * texw,
        r.y.raw == texcoords@[2 * (v as int) + 1].raw * texh,
        r.z.raw == 0,
        pt_ok(r),
{
    let u = texcoords[2 * v];
    let vv = texcoords[2 * v + 1];
    proof {
        lemma_abs_mul_bound(u.raw as int, texw as int, SCALE as int, 0x8000);
        lemma_abs_mul_bound(vv.raw as int, texh as int, SCALE as int, 0x8000);
        assert(u.raw * (texw * SCALE) == (u.raw * texw) * SCALE) by (nonlinear_arith);
        assert(vv.raw * (texh * SCALE) == (vv.raw * texh) * SCALE) by (nonlinear_arith);
        lemma_tdiv_exact(u.raw * texw, SCALE as int);
        lemma_tdiv_exact(vv.raw * texh, SCALE as int);
    }
    let su = u.mul(Fx { raw: texw * SCALE });
    let sv = vv.mul(Fx { raw: texh * SCALE });
    Point3D { x: su, y: sv, z: Fx { raw: 0 } }
}

/// The demonstration triangle: (420, 280), (120, 200), (20, 20), flat.
pub open spec fn is_scene_triangle(t: Triangle) -> bool {
    &&& vx(t, 0) == 420 * (SCALE as int) && vy(t, 0) == 280 * (SCALE as int) && vz(t, 0) == 0
    &&& vx(t, 1) == 120 * (SCALE as int) && vy(t, 1) == 200 * (SCALE as int) && vz(t, 1) == 0
    &&& vx(t, 2) == 20 * (SCALE as int) && vy(t, 2) == 20 * (SCALE as int) && vz(t, 2) == 0
}

/// Render the demonstration scene: a black frame buffer with one fixed
/// triangle flat-filled blue and its bounding box outlined yellow.
pub fn draw_triangle_scene(width: i32, height: i32) -> (r: ImageMeta)
    requires
        0 < width <= 0x8000,
        0 < height <= 0x8000,
    ensures
        r.wf(),
        r.width == width,
        r.height == height,
        exists|t: Triangle, binit: Seq<RGBPixel>, bmid: Seq<RGBPixel>, mids: Seq<Seq<RGBPixel>>|
            {
                &&& #[trigger] is_scene_triangle(t)
                &&& #[trigger] flat_post(t, RGBPixel { red: 0, green: 0, blue: 255 },
                    width as int, height as int, binit, bmid)
                &&& binit.len() == width * height
                &&& forall|p: int|
                    0 <= p < binit.len() ==> binit[p] == (RGBPixel {
                        red: 0,
                        green: 0,
                        blue: 0,
                    })
                &&& #[trigger] bbox_outline_chain(t, RGBPixel { red: 255, green: 255, blue: 0 },
                    width as int, height as int, bmid, r.buffer@, mids)
            },
{
    proof {
        assert((width as int) * (height as int) <= 0x4000_0000) by (nonlinear_arith)
            requires
                0 < width as int <= 0x8000,
                0 < height as int <= 0x8000;
    }
    let n: usize = (width as usize) * (height as usize);
    let buffer: Vec<RGBPixel> = vec![RGBPixel { red: 0, green: 0, blue: 0 }; n];
    let blue = RGBPixel { red: 0, green: 0, blue: 255 };
    let yellow = RGBPixel { red: 255, green: 255, blue: 0 };
    let mut black = ImageMeta { buffer, width, height };
    let triangle = Triangle {
        vertices: [
            Point3D { x: Fx { raw: 420 * SCALE }, y: Fx { raw: 280 * SCALE }, z: Fx { raw: 0 } },
            Point3D { x: Fx { raw: 120 * SCALE }, y: Fx { raw: 200 * SCALE }, z: Fx { raw: 0 } },
            Point3D { x: Fx { raw: 20 * SCALE }, y: Fx { raw: 20 * SCALE }, z: Fx { raw: 0 } },
        ],
    };
    let ghost binit = black.buffer@;
    black.draw_triangle_old(triangle, &blue);
    let ghost bmid = black.buffer@;
    black.draw_bbox(triangle, &yellow);
    proof {
        assert(is_scene_triangle(triangle));
        let mids = choose|mids: Seq<Seq<RGBPixel>>|
            bbox_outline_chain(triangle, yellow, width as int, height as int, bmid,
                black.buffer@, mids);
        assert(bbox_outline_chain(triangle, RGBPixel { red: 255, green: 255, blue: 0 },
            width as int, height as int, bmid, black.buffer@, mids));
        assert(flat_post(triangle, RGBPixel { red: 0, green: 0, blue: 255 }, width as int,
            height as int, binit, bmid));
    }
    black
}

/// Divide a homogeneous 4-vector by its last component.
pub fn project_to_point_3d(v: [Fx; 4]) -> (r: Point3D)
    requires
        v@[3].raw != 0,
        forall|k: int| 0 <= k < 4 ==> -0x4000_0000_0000 <= #[trigger] v@[k].raw <= 0x4000_0000_0000,
    ensures
        r.x.raw == fx_div_spec(v@[0].raw as int, v@[3].raw as int),
        r.y.raw == fx_div_spec(v@[1].raw as int, v@[3].raw as int),
        r.z.raw == fx_div_spec(v@[2].raw as int, v@[3].raw as int),
{
    proof {
        let d = abs_int(v@[3].raw as int);
        assert forall|k: int| 0 <= k < 4 implies -(i64::MAX as int) <= tdiv(
            #[trigger] v@[k].raw * SCALE, d) <= i64::MAX as int by {
            lemma_abs_mul_bound(v@[k].raw as int, SCALE as int, 0x4000_0000_0000, SCALE as int);
            lemma_tdiv_sign(v@[k].raw * SCALE, d);
        }
    }
    Point3D { x: v[0].div(v[3]), y: v[1].div(v[3]), z: v[2].div(v[3]) }
}

} // verus!
