use tiny_renderer::{Fx, Matrix3x3, Point3D, SCALE};

#[test]
fn matrix_creation() {
    let zero_mat = Matrix3x3::new();
    let identity = Matrix3x3::identity();

    for idx in 0..3 {
        for idy in 0..3 {
            assert_eq!(zero_mat.get(idx, idy).raw, 0);

            if idx == idy {
                assert_eq!(identity.get(idx, idy).raw, SCALE);
            } else {
                assert_eq!(identity.get(idx, idy).raw, 0);
            }
        }
    }
}

#[test]
fn right_point3d_multiply() {
    // [ 0 -1 0   ]   [3]   [-5]
    // [ 1  1 0   ] * [5] = [8]
    // [ 0  0 0.5 ]   [2]   [1]
    let mat = Matrix3x3 {
        buffer: [
            Fx { raw: 0 },
            Fx { raw: SCALE },
            Fx { raw: 0 },
            Fx { raw: -SCALE },
            Fx { raw: SCALE },
            Fx { raw: 0 },
            Fx { raw: 0 },
            Fx { raw: 0 },
            Fx { raw: SCALE / 2 },
        ],
    };

    let point = Point3D::new([Fx { raw: 3 * SCALE }, Fx { raw: 5 * SCALE }, Fx { raw: 2 * SCALE }]);

    let result = mat.mul_point(point);
    let expected = Point3D::new([
        Fx { raw: -5 * SCALE },
        Fx { raw: 8 * SCALE },
        Fx { raw: SCALE },
    ]);

    assert_eq!(result, expected);
}

#[test]
fn matrix4x4_identity_and_zero() {
    let z = tiny_renderer::Matrix4x4::zero();
    let id = tiny_renderer::Matrix4x4::identity();
    for i in 0..4 {
        for j in 0..4 {
            assert_eq!(z.get(i, j).raw, 0);
            assert_eq!(id.get(i, j).raw, if i == j { SCALE } else { 0 });
        }
    }
}

#[test]
fn matrix4x4_multiply_identity() {
    let id = tiny_renderer::Matrix4x4::identity();
    let mut m = tiny_renderer::Matrix4x4::zero();
    let mut v: i64 = 1;
    for i in 0..4 {
        for j in 0..4 {
            m.set(i, j, Fx { raw: v * SCALE });
            v += 1;
        }
    }
    let lhs = id.matmul(m);
    let rhs = m.matmul(id);
    for i in 0..4 {
        for j in 0..4 {
            assert_eq!(lhs.get(i, j).raw, m.get(i, j).raw);
            assert_eq!(rhs.get(i, j).raw, m.get(i, j).raw);
        }
    }
}

#[test]
fn matrix4x4_vector_multiply() {
    // doubling matrix applied to a homogeneous vector
    let mut m = tiny_renderer::Matrix4x4::zero();
    for i in 0..4 {
        m.set(i, i, Fx { raw: 2 * SCALE });
    }
    let out = m.mul_vec4([
        Fx { raw: 3 * SCALE },
        Fx { raw: -4 * SCALE },
        Fx { raw: 5 * SCALE },
        Fx { raw: SCALE },
    ]);
    assert_eq!(out[0].raw, 6 * SCALE);
    assert_eq!(out[1].raw, -8 * SCALE);
    assert_eq!(out[2].raw, 10 * SCALE);
    assert_eq!(out[3].raw, 2 * SCALE);
}
