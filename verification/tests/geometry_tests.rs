use tiny_renderer::{Fx, Point3D, Triangle, SCALE};

fn whole(u: i64) -> Fx {
    Fx { raw: u * SCALE }
}

fn pt(x: i64, y: i64, z: i64) -> Point3D {
    Point3D { x: whole(x), y: whole(y), z: whole(z) }
}

fn tri(a: (i64, i64), b: (i64, i64), c: (i64, i64)) -> Triangle {
    Triangle { vertices: [pt(a.0, a.1, 0), pt(b.0, b.1, 0), pt(c.0, c.1, 0)] }
}

#[test]
fn barycentric_at_vertices_is_unit() {
    // a positively oriented triangle: at each vertex the coordinates are
    // exactly one at that vertex and zero elsewhere
    let t = tri((0, 0), (4, 0), (0, 4));
    let bc0 = t.barycentric_coords_xy(whole(0), whole(0));
    assert_eq!((bc0.x.raw, bc0.y.raw, bc0.z.raw), (SCALE, 0, 0));
    let bc1 = t.barycentric_coords_xy(whole(4), whole(0));
    assert_eq!((bc1.x.raw, bc1.y.raw, bc1.z.raw), (0, SCALE, 0));
    let bc2 = t.barycentric_coords_xy(whole(0), whole(4));
    assert_eq!((bc2.x.raw, bc2.y.raw, bc2.z.raw), (0, 0, SCALE));
}

#[test]
fn barycentric_coords_sum_inside() {
    // at the centroid-ish point the three coordinates are non-negative and
    // nearly partition one unit (rounding loses at most two units in total)
    let t = tri((0, 0), (6, 0), (0, 6));
    let bc = t.barycentric_coords_xy(whole(2), whole(2));
    assert!(bc.x.raw >= 0 && bc.y.raw >= 0 && bc.z.raw >= 0);
    let sum = bc.x.raw + bc.y.raw + bc.z.raw;
    assert!(SCALE - 2 <= sum && sum <= SCALE);
}

#[test]
fn point_in_triangle_matches_halfplane_test() {
    // independent half-plane classification over a grid of points
    let verts = [(1i64, 1i64), (9, 2), (4, 8)];
    let t = tri(verts[0], verts[1], verts[2]);
    let side = |a: (i64, i64), b: (i64, i64), p: (i64, i64)| -> i64 {
        (b.0 - a.0) * (p.1 - a.1) - (b.1 - a.1) * (p.0 - a.0)
    };
    for x in -2..12 {
        for y in -2..12 {
            let p = (x, y);
            let expected = side(verts[0], verts[1], p) >= 0
                && side(verts[1], verts[2], p) >= 0
                && side(verts[2], verts[0], p) >= 0;
            assert_eq!(t.point_in_triangle(whole(x), whole(y)), expected, "at {:?}", p);
        }
    }
}

#[test]
fn point_in_triangle_rejects_clockwise_and_degenerate() {
    // the fill predicate accepts only positively oriented interiors
    let cw = tri((0, 0), (0, 4), (4, 0));
    assert!(!cw.point_in_triangle(whole(1), whole(1)));
    // a collinear triangle accepts nothing, not even points on its line
    let degen = tri((0, 0), (2, 2), (4, 4));
    assert!(!degen.point_in_triangle(whole(1), whole(1)));
    assert!(!degen.point_in_triangle(whole(3), whole(3)));
}

#[test]
fn compute_bbox_contains_vertices() {
    // fractional vertices: floor of the minima, ceiling of the maxima
    let t = Triangle {
        vertices: [
            Point3D { x: Fx { raw: 3 * SCALE / 2 }, y: Fx { raw: 9 * SCALE / 4 }, z: whole(0) },
            Point3D { x: Fx { raw: 5 * SCALE }, y: Fx { raw: SCALE / 3 }, z: whole(0) },
            Point3D { x: Fx { raw: 7 * SCALE / 2 }, y: Fx { raw: 6 * SCALE }, z: whole(0) },
        ],
    };
    let (sw, ne) = t.compute_bbox();
    assert_eq!(sw.x.raw, SCALE);
    assert_eq!(sw.y.raw, 0);
    assert_eq!(ne.x.raw, 5 * SCALE);
    assert_eq!(ne.y.raw, 6 * SCALE);
    for v in t.vertices.iter() {
        assert!(sw.x.raw <= v.x.raw && v.x.raw <= ne.x.raw);
        assert!(sw.y.raw <= v.y.raw && v.y.raw <= ne.y.raw);
    }
}

#[test]
fn compute_bbox_maximum_is_seeded_with_zero() {
    // all-negative coordinates: the maxima fold starts at zero
    let t = tri((-5, -7), (-2, -3), (-4, -1));
    let (sw, ne) = t.compute_bbox();
    assert_eq!(sw.x.raw, -5 * SCALE);
    assert_eq!(sw.y.raw, -7 * SCALE);
    assert_eq!(ne.x.raw, 0);
    assert_eq!(ne.y.raw, 0);
}

#[test]
fn sort_orders_vertices_by_y_stably() {
    let mut t = Triangle {
        vertices: [pt(1, 5, 0), pt(2, 1, 0), pt(3, 5, 0)],
    };
    t.sort();
    assert_eq!(t.vertices[0], pt(2, 1, 0));
    // the two y-ties keep their original order
    assert_eq!(t.vertices[1], pt(1, 5, 0));
    assert_eq!(t.vertices[2], pt(3, 5, 0));
}

#[test]
fn length_and_normalize_are_exact_on_pythagorean_triples() {
    let v = pt(3, 4, 0);
    assert_eq!(v.length().raw, 5 * SCALE);
    let mut n = v;
    n.normalize();
    // 0.6 and 0.8 round down on the fixed-point grid
    assert_eq!(n.x.raw, 3 * SCALE * SCALE / (5 * SCALE));
    assert_eq!(n.y.raw, 4 * SCALE * SCALE / (5 * SCALE));
    assert_eq!(n.z.raw, 0);
}

#[test]
fn dot_and_cross_products() {
    let a = pt(1, 2, 3);
    let b = pt(4, 5, 6);
    assert_eq!(a.dot(b).raw, (4 + 10 + 18) * SCALE);
    let c = a.cross(b);
    // (2*6-5*3, -(1*6-4*3), 1*5-4*2)
    assert_eq!(c.x.raw, -3 * SCALE);
    assert_eq!(c.y.raw, 6 * SCALE);
    assert_eq!(c.z.raw, -3 * SCALE);
}

#[test]
fn scalar_arithmetic_rounds_toward_zero() {
    let a = Fx { raw: 3 * SCALE / 2 };
    assert_eq!(a.floor().raw, SCALE);
    assert_eq!(a.ceil().raw, 2 * SCALE);
    let b = Fx { raw: -3 * SCALE / 2 };
    assert_eq!(b.floor().raw, -2 * SCALE);
    assert_eq!(b.ceil().raw, -SCALE);
    // 1.5 * 1.5 == 2.25; -7 / 2 truncates toward zero
    assert_eq!(a.mul(a).raw, 9 * SCALE / 4);
    assert_eq!(whole(-7).div(whole(2)).raw, -7 * SCALE / 2);
    assert_eq!(whole(7).div(whole(-2)).raw, -7 * SCALE / 2);
}

#[test]
fn point_addition_and_subtraction() {
    let a = pt(1, 2, 3);
    let b = pt(4, 6, 8);
    let s = a.add(b);
    assert_eq!(s, pt(5, 8, 11));
    let d = b.sub(a);
    assert_eq!(d, pt(3, 4, 5));
    let scaled = a.scale(whole(2));
    assert_eq!(scaled, pt(2, 4, 6));
    let halved = b.div_by(whole(2));
    assert_eq!(halved, pt(2, 3, 4));
    assert_eq!(a.to_array(), [whole(1), whole(2), whole(3)]);
    let z = Point3D::zero();
    assert_eq!(z, pt(0, 0, 0));
}

#[test]
fn planar_point_arithmetic() {
    let a = tiny_renderer::Point { x: whole(3), y: whole(7) };
    let b = tiny_renderer::Point { x: whole(1), y: whole(2) };
    let s = a.add(b);
    assert_eq!((s.x.raw, s.y.raw), (4 * SCALE, 9 * SCALE));
    let d = a.sub(b);
    assert_eq!((d.x.raw, d.y.raw), (2 * SCALE, 5 * SCALE));
}
