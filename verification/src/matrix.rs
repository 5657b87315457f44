//! Fixed-size 3x3 and 4x4 transform matrices.
//!
//! A 3x3 matrix is indexed column-major (`get(i, j)` reads `buffer[i + 3*j]`),
//! a 4x4 matrix row-major (`buffer[j + 4*i]`), preserving the renderer's two
//! historical conventions. Multiplication is the naive triple loop; each
//! scalar product rounds toward zero as [`crate::fixed::tdiv`] describes.

use vstd::prelude::*;

verus! {

use crate::fixed::{Fx, SCALE, tdiv};
use crate::geometry::{Point3D, pt_ok, COORD_LIM, lemma_abs_mul_bound};
use crate::fixed::lemma_tdiv_bound;

/// A 3x3 matrix, column-major.
#[derive(Clone, Copy, PartialEq, Eq, Debug)]
pub struct Matrix3x3 {
    pub buffer: [Fx; 9],
}

/// A 4x4 matrix, row-major.
#[derive(Clone, Copy, PartialEq, Eq, Debug)]
pub struct Matrix4x4 {
    pub buffer: [Fx; 16],
}

/// Raw entry of a 3x3 matrix at row `i`, column `j`.
pub open spec fn m3_at(m: Matrix3x3, i: int, j: int) -> int {
    m.buffer@[i + 3 * j].raw as int
}

/// Raw entry of a 4x4 matrix at row `i`, column `j`.
pub open spec fn m4_at(m: Matrix4x4, i: int, j: int) -> int {
    m.buffer@[j + 4 * i].raw as int
}

/// All entries of a 3x3 matrix are within the overflow-safe range.
pub open spec fn m3_ok(m: Matrix3x3) -> bool {
    forall|k: int| 0 <= k < 9 ==> -(COORD_LIM as int) <= #[trigger] m.buffer@[k].raw <= COORD_LIM as int
}

/// All entries of a 4x4 matrix are within the overflow-safe range.
pub open spec fn m4_ok(m: Matrix4x4) -> bool {
    forall|k: int| 0 <= k < 16 ==> -(COORD_LIM as int) <= #[trigger] m.buffer@[k].raw <= COORD_LIM as int
}

/// One row-by-column product of 4x4 matrices: the sum of the four
/// truncated scalar products.
pub open spec fn dot4(a: Matrix4x4, b: Matrix4x4, i: int, j: int) -> int {
    tdiv(m4_at(a, i, 0) * m4_at(b, 0, j), SCALE as int) + tdiv(
        m4_at(a, i, 1) * m4_at(b, 1, j), SCALE as int) + tdiv(
        m4_at(a, i, 2) * m4_at(b, 2, j), SCALE as int) + tdiv(
        m4_at(a, i, 3) * m4_at(b, 3, j), SCALE as int)
}

/// Prefix of [`dot4`]: the sum of the first `c` truncated products.
pub open spec fn dot4_prefix(a: Matrix4x4, b: Matrix4x4, i: int, j: int, c: int) -> int
    decreases c,
{
    if c <= 0 {
        0
    } else {
        dot4_prefix(a, b, i, j, c - 1) + tdiv(m4_at(a, i, c - 1) * m4_at(b, c - 1, j),
            SCALE as int)
    }
}

/// The truncated product of two bounded fixed-point scalars stays far
/// within the machine range.
pub proof fn lemma_mul_fits(x: int, y: int)
    requires
        -(COORD_LIM as int) <= x <= COORD_LIM as int,
        -(COORD_LIM as int) <= y <= COORD_LIM as int,
    ensures
        -0x4000_0000_0000 <= tdiv(x * y, SCALE as int) <= 0x4000_0000_0000,
{
    lemma_abs_mul_bound(x, y, COORD_LIM as int, COORD_LIM as int);
    lemma_tdiv_bound(x * y, SCALE as int, 0x4000_0000_0000);
}

impl Matrix3x3 {
    /// The zero matrix.
    pub fn new() -> (r: Matrix3x3)
        ensures
            forall|k: int| 0 <= k < 9 ==> #[trigger] r.buffer@[k].raw == 0,
    {
        let z = Fx { raw: 0 };
        Matrix3x3 { buffer: [z, z, z, z, z, z, z, z, z] }
    }

    /// The identity matrix.
    pub fn identity() -> (r: Matrix3x3)
        ensures
            forall|i: int, j: int|
                0 <= i < 3 && 0 <= j < 3 ==> #[trigger] m3_at(r, i, j) == if i == j {
                    SCALE as int
                } else {
                    0
                },
    {
        let o = Fx { raw: SCALE };
        let z = Fx { raw: 0 };
        Matrix3x3 { buffer: [o, z, z, z, o, z, z, z, o] }
    }

    /// Entry at row `i`, column `j` (column-major indexing).
    pub fn get(&self, i: usize, j: usize) -> (r: Fx)
        requires
            i < 3,
            j < 3,
        ensures
            r.raw == m3_at(*self, i as int, j as int),
    {
        self.buffer[i + 3 * j]
    }

    /// Overwrite the entry at row `i`, column `j` (column-major indexing).
    pub fn set(&mut self, i: usize, j: usize, val: Fx)
        requires
            i < 3,
            j < 3,
        ensures
            final(self).buffer@ == old(self).buffer@.update(i + 3 * j, val),
    {
        self.buffer[i + 3 * j] = val;
    }

    /// Matrix-vector product; each scalar product rounds toward zero.
    pub fn mul_point(self, other: Point3D) -> (r: Point3D)
        requires
            m3_ok(self),
            pt_ok(other),
        ensures
            r.x.raw == tdiv(m3_at(self, 0, 0) * other.x.raw, SCALE as int) + tdiv(
                m3_at(self, 0, 1) * other.y.raw, SCALE as int) + tdiv(
                m3_at(self, 0, 2) * other.z.raw, SCALE as int),
            r.y.raw == tdiv(m3_at(self, 1, 0) * other.x.raw, SCALE as int) + tdiv(
                m3_at(self, 1, 1) * other.y.raw, SCALE as int) + tdiv(
                m3_at(self, 1, 2) * other.z.raw, SCALE as int),
            r.z.raw == tdiv(m3_at(self, 2, 0) * other.x.raw, SCALE as int) + tdiv(
                m3_at(self, 2, 1) * other.y.raw, SCALE as int) + tdiv(
                m3_at(self, 2, 2) * other.z.raw, SCALE as int),
    {
        proof {
            lemma_m3_row_fits(self, other);
        }
        let x: i64 = self.get(0, 0).mul(other.x).raw + self.get(0, 1).mul(other.y).raw
            + self.get(0, 2).mul(other.z).raw;
        let y: i64 = self.get(1, 0).mul(other.x).raw + self.get(1, 1).mul(other.y).raw
            + self.get(1, 2).mul(other.z).raw;
        let z: i64 = self.get(2, 0).mul(other.x).raw + self.get(2, 1).mul(other.y).raw
            + self.get(2, 2).mul(other.z).raw;
        Point3D { x: Fx { raw: x }, y: Fx { raw: y }, z: Fx { raw: z } }
    }
}

/// Every truncated product of a bounded 3x3 entry with a bounded point
/// coordinate stays far within the machine range.
proof fn lemma_m3_row_fits(m: Matrix3x3, p: Point3D)
    requires
        m3_ok(m),
        pt_ok(p),
    ensures
        forall|i: int, j: int|
            0 <= i < 3 && 0 <= j < 3 ==> -0x4000_0000_0000 <= tdiv(
                #[trigger] (m3_at(m, i, j) * p.x.raw), SCALE as int) <= 0x4000_0000_0000,
        forall|i: int, j: int|
            0 <= i < 3 && 0 <= j < 3 ==> -0x4000_0000_0000 <= tdiv(
                #[trigger] (m3_at(m, i, j) * p.y.raw), SCALE as int) <= 0x4000_0000_0000,
        forall|i: int, j: int|
            0 <= i < 3 && 0 <= j < 3 ==> -0x4000_0000_0000 <= tdiv(
                #[trigger] (m3_at(m, i, j) * p.z.raw), SCALE as int) <= 0x4000_0000_0000,
{
    assert forall|i: int, j: int| 0 <= i < 3 && 0 <= j < 3 implies -0x4000_0000_0000 <= tdiv(
        #[trigger] (m3_at(m, i, j) * p.x.raw), SCALE as int) <= 0x4000_0000_0000 by {
        lemma_mul_fits(m3_at(m, i, j), p.x.raw as int);
    }
    assert forall|i: int, j: int| 0 <= i < 3 && 0 <= j < 3 implies -0x4000_0000_0000 <= tdiv(
        #[trigger] (m3_at(m, i, j) * p.y.raw), SCALE as int) <= 0x4000_0000_0000 by {
        lemma_mul_fits(m3_at(m, i, j), p.y.raw as int);
    }
    assert forall|i: int, j: int| 0 <= i < 3 && 0 <= j < 3 implies -0x4000_0000_0000 <= tdiv(
        #[trigger] (m3_at(m, i, j) * p.z.raw), SCALE as int) <= 0x4000_0000_0000 by {
        lemma_mul_fits(m3_at(m, i, j), p.z.raw as int);
    }
}

impl Matrix4x4 {
    /// The zero matrix.
    pub fn zero() -> (r: Matrix4x4)
        ensures
            forall|k: int| 0 <= k < 16 ==> #[trigger] r.buffer@[k].raw == 0,
    {
        let z = Fx { raw: 0 };
        Matrix4x4 { buffer: [z, z, z, z, z, z, z, z, z, z, z, z, z, z, z, z] }
    }

    /// The identity matrix.
    pub fn identity() -> (r: Matrix4x4)
        ensures
            forall|i: int, j: int|
                0 <= i < 4 && 0 <= j < 4 ==> #[trigger] m4_at(r, i, j) == if i == j {
                    SCALE as int
                } else {
                    0
                },
    {
        let o = Fx { raw: SCALE };
        let z = Fx { raw: 0 };
        Matrix4x4 { buffer: [o, z, z, z, z, o, z, z, z, z, o, z, z, z, z, o] }
    }

    /// Entry at row `i`, column `j` (row-major indexing).
    pub fn get(&self, i: usize, j: usize) -> (r: Fx)
        requires
            i < 4,
            j < 4,
        ensures
            r.raw == m4_at(*self, i as int, j as int),
    {
        self.buffer[j + 4 * i]
    }

    /// Overwrite the entry at row `i`, column `j` (row-major indexing).
    pub fn set(&mut self, i: usize, j: usize, val: Fx)
        requires
            i < 4,
            j < 4,
        ensures
            final(self).buffer@ == old(self).buffer@.update(j + 4 * i, val),
    {
        self.buffer[j + 4 * i] = val;
    }

    /// Matrix product by the naive triple loop; entry `(i, j)` of the result
    /// is the sum of the four truncated scalar products of row `i` with
    /// column `j`.
    pub fn matmul(self, other: Matrix4x4) -> (r: Matrix4x4)
        requires
            m4_ok(self),
            m4_ok(other),
        ensures
            forall|i: int, j: int|
                0 <= i < 4 && 0 <= j < 4 ==> #[trigger] m4_at(r, i, j) == dot4(
                    self, other, i, j),
    {
        let mut mat = Matrix4x4::zero();
        let mut i: usize = 0;
        while i < 4
            invariant
                i <= 4,
                m4_ok(self),
                m4_ok(other),
                forall|a: int, b: int|
                    0 <= a < 4 && 0 <= b < 4 && a < i ==> #[trigger] m4_at(mat, a, b) == dot4(
                        self, other, a, b),
            decreases 4 - i,
        {
            let mut j: usize = 0;
            while j < 4
                invariant
                    i < 4,
                    j <= 4,
                    m4_ok(self),
                    m4_ok(other),
                    forall|a: int, b: int|
                        0 <= a < 4 && 0 <= b < 4 && (a < i || (a == i && b < j))
                            ==> #[trigger] m4_at(mat, a, b) == dot4(self, other, a, b),
                decreases 4 - j,
            {
                let mut ret: i64 = 0;
                let mut c: usize = 0;
                while c < 4
                    invariant
                        i < 4,
                        j < 4,
                        c <= 4,
                        m4_ok(self),
                        m4_ok(other),
                        ret as int == dot4_prefix(self, other, i as int, j as int, c as int),
                        -(c as int) * 0x4000_0000_0000 <= ret as int <= (c as int)
                            * 0x4000_0000_0000,
                    decreases 4 - c,
                {
                    proof {
                        lemma_mul_fits(m4_at(self, i as int, c as int),
                            m4_at(other, c as int, j as int));
                    }
                    ret = ret + self.get(i, c).mul(other.get(c, j)).raw;
                    c = c + 1;
                }
                proof {
                    assert(dot4_prefix(self, other, i as int, j as int, 4) == dot4(
                        self, other, i as int, j as int)) by {
                        reveal_with_fuel(dot4_prefix, 5);
                    }
                }
                let ghost mat0 = mat;
                mat.set(i, j, Fx { raw: ret });
                proof {
                    assert forall|a: int, b: int|
                        0 <= a < 4 && 0 <= b < 4 && (a < i || (a == i && b < j + 1))
                            implies #[trigger] m4_at(mat, a, b) == dot4(self, other, a, b) by {
                        if a == i as int && b == j as int {
                            assert(m4_at(mat, a, b) == ret as int);
                        } else {
                            assert(b + 4 * a != j + 4 * i);
                            assert(m4_at(mat, a, b) == m4_at(mat0, a, b));
                        }
                    }
                }
                j = j + 1;
            }
            i = i + 1;
        }
        mat
    }

    /// Matrix product with a homogeneous 4-vector; each component is the sum
    /// of the four truncated scalar products of a row with the vector.
    pub fn mul_vec4(self, other: [Fx; 4]) -> (r: [Fx; 4])
        requires
            m4_ok(self),
            forall|k: int| 0 <= k < 4 ==> -(COORD_LIM as int) <= #[trigger] other@[k].raw <= COORD_LIM as int,
        ensures
            forall|i: int|
                0 <= i < 4 ==> #[trigger] r@[i].raw == tdiv(
                    m4_at(self, i, 0) * other@[0].raw, SCALE as int) + tdiv(
                    m4_at(self, i, 1) * other@[1].raw, SCALE as int) + tdiv(
                    m4_at(self, i, 2) * other@[2].raw, SCALE as int) + tdiv(
                    m4_at(self, i, 3) * other@[3].raw, SCALE as int),
    {
        proof {
            assert forall|i: int, c: int, k: int|
                0 <= i < 4 && 0 <= c < 4 && 0 <= k < 4 implies -0x4000_0000_0000 <= tdiv(
                #[trigger] (m4_at(self, i, c) * other@[k].raw), SCALE as int)
                <= 0x4000_0000_0000 by {
                lemma_mul_fits(m4_at(self, i, c), other@[k].raw as int);
            }
        }
        let r0: i64 = self.get(0, 0).mul(other[0]).raw + self.get(0, 1).mul(other[1]).raw
            + self.get(0, 2).mul(other[2]).raw + self.get(0, 3).mul(other[3]).raw;
        let r1: i64 = self.get(1, 0).mul(other[0]).raw + self.get(1, 1).mul(other[1]).raw
            + self.get(1, 2).mul(other[2]).raw + self.get(1, 3).mul(other[3]).raw;
        let r2: i64 = self.get(2, 0).mul(other[0]).raw + self.get(2, 1).mul(other[1]).raw
            + self.get(2, 2).mul(other[2]).raw + self.get(2, 3).mul(other[3]).raw;
        let r3: i64 = self.get(3, 0).mul(other[0]).raw + self.get(3, 1).mul(other[1]).raw
            + self.get(3, 2).mul(other[2]).raw + self.get(3, 3).mul(other[3]).raw;
        [Fx { raw: r0 }, Fx { raw: r1 }, Fx { raw: r2 }, Fx { raw: r3 }]
    }
}

} // verus!
