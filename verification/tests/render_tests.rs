use tiny_renderer::render::{
    draw_triangle_scene, flat_shading_illumination, flat_shading_render, image_position,
    make_model_view, make_projection_matrix, make_viewport_matrix, point3d_image_position,
    project_to_point_3d, render_with_texture_projection,
};
use tiny_renderer::{Fx, ImageMeta, Matrix4x4, Point3D, RGBPixel, Texture, SCALE};

fn whole(u: i64) -> Fx {
    Fx { raw: u * SCALE }
}

fn pt(x: i64, y: i64, z: i64) -> Point3D {
    Point3D { x: whole(x), y: whole(y), z: whole(z) }
}

fn black_image(w: i32, h: i32) -> ImageMeta {
    ImageMeta {
        buffer: vec![RGBPixel { red: 0, green: 0, blue: 0 }; (w * h) as usize],
        width: w,
        height: h,
    }
}

fn zbuffer_min(n: usize) -> Vec<Fx> {
    vec![Fx { raw: i64::MIN }; n]
}

fn idx_of(w: i64, h: i64, x: i64, y: i64) -> usize {
    (w * (h - y) + x) as usize
}

#[test]
fn viewport_formula_maps_device_range_into_pixels() {
    // width * (pos + 1) / 2, exactly
    assert_eq!(image_position(Fx { raw: -SCALE }, 64).raw, 0);
    assert_eq!(image_position(Fx { raw: SCALE }, 64).raw, 64 * SCALE);
    assert_eq!(image_position(Fx { raw: 0 }, 64).raw, 32 * SCALE);
    assert_eq!(image_position(Fx { raw: SCALE / 2 }, 64).raw, 48 * SCALE);
    let p = point3d_image_position(
        Point3D { x: Fx { raw: -SCALE }, y: Fx { raw: 0 }, z: Fx { raw: SCALE } },
        100,
    );
    assert_eq!(p.x.raw, 0);
    assert_eq!(p.y.raw, 50 * SCALE);
    assert_eq!(p.z.raw, 100 * SCALE);
}

#[test]
fn projection_matrix_holds_the_inverse_camera_depth() {
    let m = make_projection_matrix(pt(0, 0, 3));
    for i in 0..4 {
        for j in 0..4 {
            if i == 3 && j == 2 {
                // -1/3 rounded toward zero on the fixed-point grid
                assert_eq!(m.get(i, j).raw, -(SCALE * SCALE / (3 * SCALE)));
            } else if i == j {
                assert_eq!(m.get(i, j).raw, SCALE);
            } else {
                assert_eq!(m.get(i, j).raw, 0);
            }
        }
    }
}

#[test]
fn viewport_matrix_holds_the_half_extents() {
    let m = make_viewport_matrix(whole(800), whole(600), whole(255));
    assert_eq!(m.get(0, 0).raw, 400 * SCALE);
    assert_eq!(m.get(0, 3).raw, 400 * SCALE);
    assert_eq!(m.get(1, 1).raw, 300 * SCALE);
    assert_eq!(m.get(1, 3).raw, 300 * SCALE);
    assert_eq!(m.get(2, 2).raw, 255 * SCALE / 2);
    assert_eq!(m.get(2, 3).raw, 255 * SCALE / 2);
    assert_eq!(m.get(3, 3).raw, SCALE);
    assert_eq!(m.get(3, 2).raw, 0);
}

#[test]
fn model_view_of_the_canonical_frame_is_the_identity() {
    // up along y, camera straight down the z axis: the derived basis is the
    // standard one and the camera normalizes to a unit vector
    let up = pt(0, 1, 0);
    let mut camera = pt(0, 0, 3);
    let m = make_model_view(up, &mut camera);
    let id = Matrix4x4::identity();
    for i in 0..4 {
        for j in 0..4 {
            assert_eq!(m.get(i, j).raw, id.get(i, j).raw, "at ({}, {})", i, j);
        }
    }
    assert_eq!(camera, pt(0, 0, 1));
}

#[test]
fn homogeneous_divide_normalizes_the_vector() {
    let p = project_to_point_3d([whole(2), whole(4), whole(6), whole(2)]);
    assert_eq!(p, pt(1, 2, 3));
}

#[test]
fn flat_shading_colors_a_mesh_face() {
    // one device-space triangle mapped by the viewport formula into an
    // 8x8 buffer
    let positions = vec![
        Fx { raw: -SCALE },
        Fx { raw: -SCALE },
        Fx { raw: 0 }, // (-1, -1, 0)
        Fx { raw: SCALE },
        Fx { raw: -SCALE },
        Fx { raw: 0 }, // (1, -1, 0)
        Fx { raw: 0 },
        Fx { raw: SCALE },
        Fx { raw: 0 }, // (0, 1, 0)
    ];
    let indices: Vec<usize> = vec![0, 1, 2];
    let red = RGBPixel { red: 255, green: 0, blue: 0 };
    let mut img = black_image(8, 8);
    let mut z = zbuffer_min(64);
    flat_shading_render(&mut img, &mut z, &positions, &indices, &vec![red]);
    // the screen triangle is (0,0) (8,0) (4,8); its center is filled
    assert_eq!(img.buffer[idx_of(8, 8, 4, 4)], red);
    // outside the triangle stays black
    assert_eq!(img.buffer[idx_of(8, 8, 7, 7)], RGBPixel { red: 0, green: 0, blue: 0 });
}

#[test]
fn illuminated_shading_grays_by_the_face_normal() {
    // a face whose normal points at the light is painted at full level
    let positions = vec![
        Fx { raw: -SCALE },
        Fx { raw: -SCALE },
        Fx { raw: 0 },
        Fx { raw: SCALE },
        Fx { raw: -SCALE },
        Fx { raw: 0 },
        Fx { raw: 0 },
        Fx { raw: SCALE },
        Fx { raw: 0 },
    ];
    let indices: Vec<usize> = vec![0, 1, 2];
    let mut img = black_image(8, 8);
    let mut z = zbuffer_min(64);
    flat_shading_illumination(&mut img, &mut z, &positions, &indices);
    assert_eq!(
        img.buffer[idx_of(8, 8, 4, 4)],
        RGBPixel { red: 255, green: 255, blue: 255 }
    );
}

#[test]
fn identity_pipeline_keeps_device_coordinates() {
    // with the identity as the whole pipeline, screen coordinates are the
    // world coordinates; the unit triangle at the origin covers the origin
    // pixel, whose buffer cell is the clamped bottom-left
    let positions = vec![
        Fx { raw: 0 },
        Fx { raw: 0 },
        Fx { raw: 0 },
        Fx { raw: SCALE },
        Fx { raw: 0 },
        Fx { raw: 0 },
        Fx { raw: 0 },
        Fx { raw: SCALE },
        Fx { raw: 0 },
    ];
    let indices: Vec<usize> = vec![0, 1, 2];
    let texcoords = vec![Fx { raw: 0 }; 6];
    let tex = Texture { width: 1, height: 1, bytes: vec![5, 6, 7] };
    let pipeline = Matrix4x4::identity();
    let mut img = black_image(8, 8);
    let mut z = zbuffer_min(64);
    render_with_texture_projection(
        &mut img,
        &mut z,
        &positions,
        &indices,
        &texcoords,
        &tex,
        &pipeline,
    );
    // logical (0, 0) lands on row 7 (8 - 0 clamps down), column 0
    assert_eq!(img.buffer[7 * 8], RGBPixel { red: 5, green: 6, blue: 7 });
}

#[test]
fn scene_paints_the_fixed_triangle_and_its_outline() {
    let img = draw_triangle_scene(500, 500);
    assert_eq!(img.width, 500);
    assert_eq!(img.height, 500);
    let blue = RGBPixel { red: 0, green: 0, blue: 255 };
    let yellow = RGBPixel { red: 255, green: 255, blue: 0 };
    // a point well inside the triangle (the centroid area)
    assert_eq!(img.buffer[idx_of(500, 500, 180, 170)], blue);
    // the bounding-box corner lies on the yellow outline
    assert_eq!(img.buffer[idx_of(500, 500, 20, 20)], yellow);
    // far corner of the buffer stays black
    assert_eq!(img.buffer[idx_of(500, 500, 490, 490)], RGBPixel { red: 0, green: 0, blue: 0 });
}
