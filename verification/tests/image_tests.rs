use tiny_renderer::{Fx, ImageMeta, Point3D, RGBPixel, Texture, Triangle, SCALE};

fn whole(u: i64) -> Fx {
    Fx { raw: u * SCALE }
}

fn pt(x: i64, y: i64, z: i64) -> Point3D {
    Point3D { x: whole(x), y: whole(y), z: whole(z) }
}

fn black_image(w: i32, h: i32) -> ImageMeta {
    ImageMeta {
        buffer: vec![RGBPixel { red: 0, green: 0, blue: 0 }; (w * h) as usize],
        width: w,
        height: h,
    }
}

fn zbuffer_min(n: usize) -> Vec<Fx> {
    vec![Fx { raw: i64::MIN }; n]
}

/// Buffer index of a whole-unit logical point strictly inside the image.
fn idx_of(w: i64, h: i64, x: i64, y: i64) -> usize {
    ((w * (h - y) + x)) as usize
}

const RED: RGBPixel = RGBPixel { red: 255, green: 0, blue: 0 };
const GREEN: RGBPixel = RGBPixel { red: 0, green: 255, blue: 0 };
const BLACK: RGBPixel = RGBPixel { red: 0, green: 0, blue: 0 };

#[test]
fn flat_fill_paints_exactly_the_barycentric_interior() {
    // rasterizing into a 64x64 black buffer paints red exactly those
    // integer points whose barycentric coordinates are all non-negative
    let t = Triangle { vertices: [pt(10, 10, 0), pt(50, 10, 0), pt(30, 40, 0)] };
    let mut img = black_image(64, 64);
    img.draw_triangle_old(t, &RED);
    let mut painted = 0usize;
    for x in 10..=50i64 {
        for y in 10..=40i64 {
            let inside = t.point_in_triangle(whole(x), whole(y));
            let got = img.buffer[idx_of(64, 64, x, y)];
            assert_eq!(got == RED, inside, "at ({}, {})", x, y);
            if inside {
                painted += 1;
            }
        }
    }
    let reds = img.buffer.iter().filter(|p| **p == RED).count();
    assert_eq!(reds, painted);
}

#[test]
fn depth_test_keeps_the_larger_depth_in_either_order() {
    // two triangles covering the same pixels at depths 1 and 5: whichever
    // order they are drawn, the deeper (larger) one keeps the pixel
    let near = Triangle { vertices: [pt(0, 0, 5), pt(10, 0, 5), pt(0, 10, 5)] };
    let far = Triangle { vertices: [pt(0, 0, 1), pt(10, 0, 1), pt(0, 10, 1)] };
    let probe = idx_of(16, 16, 2, 2);

    let mut img1 = black_image(16, 16);
    let mut z1 = zbuffer_min(16 * 16);
    img1.draw_triangle(far, &mut z1, &GREEN);
    img1.draw_triangle(near, &mut z1, &RED);
    assert_eq!(img1.buffer[probe], RED);
    assert_eq!(z1[probe].raw, 5 * SCALE);

    let mut img2 = black_image(16, 16);
    let mut z2 = zbuffer_min(16 * 16);
    img2.draw_triangle(near, &mut z2, &RED);
    img2.draw_triangle(far, &mut z2, &GREEN);
    assert_eq!(img2.buffer[probe], RED);
    assert_eq!(z2[probe].raw, 5 * SCALE);
}

#[test]
fn depth_fill_interpolates_vertex_depths() {
    // at a vertex the interpolated depth is that vertex's z exactly
    let t = Triangle { vertices: [pt(2, 2, 7), pt(10, 2, 3), pt(2, 10, 3)] };
    let mut img = black_image(16, 16);
    let mut z = zbuffer_min(16 * 16);
    img.draw_triangle(t, &mut z, &GREEN);
    assert_eq!(z[idx_of(16, 16, 2, 2)].raw, 7 * SCALE);
    assert_eq!(z[idx_of(16, 16, 10, 2)].raw, 3 * SCALE);
}

#[test]
fn textured_fill_samples_and_scales_the_texture() {
    // a 2x2 texture; full intensity keeps the sampled bytes
    let tex = Texture {
        width: 2,
        height: 2,
        bytes: vec![
            10, 20, 30, 40, 50, 60, // top row
            70, 80, 90, 100, 110, 120, // bottom row
        ],
    };
    let t = Triangle { vertices: [pt(1, 1, 0), pt(9, 1, 0), pt(1, 9, 0)] };
    // all three vertices use the texel at (0, 0), the bottom-left
    let tcs = [pt(0, 0, 0), pt(0, 0, 0), pt(0, 0, 0)];
    let mut img = black_image(16, 16);
    let mut z = zbuffer_min(16 * 16);
    img.draw_triangle_with_texture(t, tcs, &tex, Fx { raw: SCALE }, &mut z);
    // texture coordinate (0, 0): the flipped row 2 wraps to row 0, column 0,
    // so the sample is the first byte triple
    let got = img.buffer[idx_of(16, 16, 2, 2)];
    assert_eq!(got, RGBPixel { red: 10, green: 20, blue: 30 });

    // half intensity truncates each channel
    let mut img2 = black_image(16, 16);
    let mut z2 = zbuffer_min(16 * 16);
    img2.draw_triangle_with_texture(t, tcs, &tex, Fx { raw: SCALE / 2 }, &mut z2);
    let got2 = img2.buffer[idx_of(16, 16, 2, 2)];
    assert_eq!(got2, RGBPixel { red: 5, green: 10, blue: 15 });
}

#[test]
fn textured_fill_accepts_both_winding_orders() {
    let tex = Texture { width: 1, height: 1, bytes: vec![200, 100, 50] };
    let tcs = [pt(0, 0, 0), pt(0, 0, 0), pt(0, 0, 0)];
    // clockwise triangle: the flat fill rejects it, the textured fill paints
    let cw = Triangle { vertices: [pt(1, 1, 0), pt(1, 9, 0), pt(9, 1, 0)] };
    assert!(!cw.point_in_triangle(whole(2), whole(2)));
    let mut img = black_image(16, 16);
    let mut z = zbuffer_min(16 * 16);
    img.draw_triangle_with_texture(cw, tcs, &tex, Fx { raw: SCALE }, &mut z);
    assert_eq!(img.buffer[idx_of(16, 16, 2, 2)], RGBPixel { red: 200, green: 100, blue: 50 });
}

#[test]
fn line_segment_paints_a_horizontal_run() {
    let mut img = black_image(16, 16);
    img.draw_lines_segment(whole(2), whole(5), whole(6), whole(5), &GREEN);
    for x in 2..=6i64 {
        assert_eq!(img.buffer[idx_of(16, 16, x, 5)], GREEN);
    }
    assert_eq!(img.buffer[idx_of(16, 16, 1, 5)], BLACK);
    assert_eq!(img.buffer[idx_of(16, 16, 7, 5)], BLACK);
    let greens = img.buffer.iter().filter(|p| **p == GREEN).count();
    assert_eq!(greens, 5);
}

#[test]
fn line_segment_normalizes_endpoint_order_and_steepness() {
    // a steep segment drawn from its far end: one pixel per row
    let mut img = black_image(16, 16);
    img.draw_lines_segment(whole(4), whole(9), whole(4), whole(3), &RED);
    for y in 3..=9i64 {
        assert_eq!(img.buffer[idx_of(16, 16, 4, y)], RED);
    }
    let reds = img.buffer.iter().filter(|p| **p == RED).count();
    assert_eq!(reds, 7);
}

#[test]
fn single_point_line_maps_through_the_flipped_row() {
    // maps (x, y) to row height - y, column x: the round trip of the
    // vertical flip recovers the pixel
    let mut img = black_image(8, 8);
    img.draw_lines_segment(whole(3), whole(2), whole(3), whole(2), &RED);
    assert_eq!(img.buffer[(8 * (8 - 2) + 3) as usize], RED);
    let reds = img.buffer.iter().filter(|p| **p == RED).count();
    assert_eq!(reds, 1);
}

#[test]
fn bbox_outline_draws_the_four_edges() {
    let t = Triangle { vertices: [pt(2, 2, 0), pt(6, 2, 0), pt(4, 5, 0)] };
    let mut img = black_image(16, 16);
    img.draw_bbox(t, &GREEN);
    // corners and edge midpoints of the box [2,6]x[2,5]
    for &(x, y) in [(2i64, 2i64), (6, 2), (2, 5), (6, 5), (4, 2), (4, 5), (2, 3), (6, 3)]
        .iter() {
        assert_eq!(img.buffer[idx_of(16, 16, x, y)], GREEN, "at ({}, {})", x, y);
    }
    assert_eq!(img.buffer[idx_of(16, 16, 4, 3)], BLACK);
}

#[test]
fn line_sweep_fills_a_triangle() {
    // lowest vertex first after sorting; the long edge lies to the right,
    // so each sweep step fills rightward from the short edges to it
    let t = Triangle { vertices: [pt(2, 1, 0), pt(4, 6, 0), pt(9, 8, 0)] };
    let mut img = black_image(16, 16);
    img.draw_triangles_line_sweep(t, &RED);
    assert_eq!(img.buffer[idx_of(16, 16, 3, 3)], RED);
    assert_eq!(img.buffer[idx_of(16, 16, 4, 6)], RED);
    assert_eq!(img.buffer[idx_of(16, 16, 5, 6)], RED);
    // far away stays black
    assert_eq!(img.buffer[idx_of(16, 16, 12, 12)], BLACK);
}

#[test]
fn rgb_bytes_flatten_the_buffer_in_order() {
    let img = ImageMeta {
        buffer: vec![
            RGBPixel { red: 1, green: 2, blue: 3 },
            RGBPixel { red: 4, green: 5, blue: 6 },
        ],
        width: 2,
        height: 1,
    };
    let bytes = img.to_rgb_bytes();
    assert_eq!(bytes, vec![1, 2, 3, 4, 5, 6]);
}
