use vstd::prelude::*;

verus! {

/// Which of the four corners of quad `i / 6` the `i`-th index names.
pub open spec fn corner_of(k: int) -> int {
    if k == 0 || k == 3 {
        0
    } else if k == 1 {
        1
    } else if k == 2 || k == 4 {
        2
    } else {
        3
    }
}

/// The point whose coordinate along axis `d` is `a`, along axis `(d + 1) % 3` is `b`,
/// and along axis `(d + 2) % 3` is `c`.
pub open spec fn axis_point_spec(d: int, a: int, b: int, c: int) -> (int, int, int) {
    if d == 0 {
        (a, b, c)
    } else if d == 1 {
        (c, a, b)
    } else {
        (b, c, a)
    }
}

/// Whether `p` lies in the box `[0, 16] x [0, 128] x [0, 16]` spanned by a chunk.
pub open spec fn in_chunk_box(p: (i32, i32, i32)) -> bool {
    0 <= p.0 <= 16 && 0 <= p.1 <= 128 && 0 <= p.2 <= 16
}

/// Whether `n` is one of the six unit vectors along the axes.
pub open spec fn axis_normal(n: (i32, i32, i32)) -> bool {
    n == (1i32, 0i32, 0i32) || n == (-1i32, 0i32, 0i32) || n == (0i32, 1i32, 0i32) || n == (
        0i32,
        -1i32,
        0i32,
    ) || n == (0i32, 0i32, 1i32) || n == (0i32, 0i32, -1i32)
}

/// Surface geometry in integer voxel units: four vertices per quad, two triangles
/// per quad. Positions, normals and texture coordinates are parallel sequences.
pub struct MeshData {
    pub positions: Vec<(i32, i32, i32)>,
    pub normals: Vec<(i32, i32, i32)>,
    pub uvs: Vec<(i32, i32)>,
    pub indices: Vec<u32>,
}

impl MeshData {
    /// Number of quads held.
    pub open spec fn quad_count(&self) -> nat {
        self.positions@.len() / 4
    }

    /// The parallel sequences agree in length, every quad has four vertices, and the
    /// six indices of quad `q` are `4q, 4q+1, 4q+2, 4q, 4q+2, 4q+3`.
    pub open spec fn wf(&self) -> bool {
        &&& self.normals@.len() == self.positions@.len()
        &&& self.uvs@.len() == self.positions@.len()
        &&& self.positions@.len() % 4 == 0
        &&& self.indices@.len() == self.quad_count() * 6
        &&& forall|i: int|
            0 <= i < self.indices@.len() ==> #[trigger] self.indices@[i] == 4 * (i / 6) + corner_of(
                i % 6,
            )
        &&& forall|i: int|
            0 <= i < self.indices@.len() ==> #[trigger] self.indices@[i] < self.positions@.len()
    }

    /// Every vertex lies in the chunk's box and has a unit normal along an axis.
    pub open spec fn within_chunk(&self) -> bool {
        forall|k: int|
            0 <= k < self.positions@.len() ==> in_chunk_box(#[trigger] self.positions@[k]) && axis_normal(
                self.normals@[k],
            )
    }

    /// An empty mesh.
    pub fn new() -> (r: MeshData)
        ensures
            r.wf(),
            r.within_chunk(),
            r.quad_count() == 0,
            r.positions@.len() == 0,
    {
        MeshData { positions: Vec::new(), normals: Vec::new(), uvs: Vec::new(), indices: Vec::new() }
    }
}

/// Texture coordinates of the four corners of a `w` by `h` quad, in the order that
/// `quad_positions` gives them: each is the corner's offset within the plane.
pub open spec fn quad_uvs(w: i32, h: i32, normal_sign: i8) -> Seq<(i32, i32)> {
    if normal_sign == 1 {
        seq![(0i32, 0i32), (w, 0i32), (w, h), (0i32, h)]
    } else {
        seq![(0i32, 0i32), (0i32, h), (w, h), (w, 0i32)]
    }
}

/// The point with `a` along axis `d`, `b` along `(d + 1) % 3` and `c` along `(d + 2) % 3`,
/// in machine integers.
pub open spec fn axis_point_i32(d: usize, a: i32, b: i32, c: i32) -> (i32, i32, i32) {
    if d == 0 {
        (a, b, c)
    } else if d == 1 {
        (c, a, b)
    } else {
        (b, c, a)
    }
}

/// The four corners of the rectangle `[i, i + w] x [j, j + h]` of plane `plane` along
/// axis `d`, counter-clockwise as seen from the side that `normal_sign` points to.
pub open spec fn quad_positions(d: usize, plane: i32, i: i32, j: i32, w: i32, h: i32, normal_sign: i8) -> Seq<
    (i32, i32, i32),
> {
    let u1 = (i + w) as i32;
    let v1 = (j + h) as i32;
    if normal_sign == 1 {
        seq![
            axis_point_i32(d, plane, i, j),
            axis_point_i32(d, plane, u1, j),
            axis_point_i32(d, plane, u1, v1),
            axis_point_i32(d, plane, i, v1),
        ]
    } else {
        seq![
            axis_point_i32(d, plane, i, j),
            axis_point_i32(d, plane, i, v1),
            axis_point_i32(d, plane, u1, v1),
            axis_point_i32(d, plane, u1, j),
        ]
    }
}

/// A rectangle that fits in a plane of the chunk has its corners in the chunk's box,
/// and its normal is a unit vector along an axis.
pub proof fn lemma_quad_in_box(d: usize, plane: i32, i: i32, j: i32, w: i32, h: i32, normal_sign: i8)
    requires
        d < 3,
        0 <= plane <= (if d == 1 {
            128int
        } else {
            16int
        }),
        0 <= i,
        0 <= j,
        1 <= w,
        1 <= h,
        i + w <= (if d == 0 {
            128int
        } else {
            16int
        }),
        j + h <= (if d == 2 {
            128int
        } else {
            16int
        }),
        normal_sign == 1 || normal_sign == -1,
    ensures
        forall|k: int|
            0 <= k < 4 ==> in_chunk_box(#[trigger] quad_positions(d, plane, i, j, w, h, normal_sign)[k]),
        axis_normal(axis_point_i32(d, normal_sign as i32, 0, 0)),
{
}

/// The point with `a` along axis `d`, `b` along `(d + 1) % 3` and `c` along `(d + 2) % 3`.
pub fn axis_point(d: usize, a: i32, b: i32, c: i32) -> (r: (i32, i32, i32))
    requires
        d < 3,
    ensures
        r == axis_point_i32(d, a, b, c),
        (r.0 as int, r.1 as int, r.2 as int) == axis_point_spec(d as int, a as int, b as int, c as int),
{
    if d == 0 {
        (a, b, c)
    } else if d == 1 {
        (c, a, b)
    } else {
        (b, c, a)
    }
}

/// Appends the rectangle `[i, i + w] x [j, j + h]` of the plane at `plane` along axis
/// `d` as one quad of two triangles, wound counter-clockwise as seen from the side
/// that `normal_sign` points to; each corner's texture coordinates are its offset
/// within the rectangle, so they scale with the quad.
pub fn emit_quad(
    out: &mut MeshData,
    d: usize,
    plane: i32,
    i: i32,
    j: i32,
    w: i32,
    h: i32,
    normal_sign: i8,
)
    requires
        old(out).wf(),
        old(out).quad_count() < 1_000_000,
        d < 3,
        0 <= plane <= 128,
        0 <= i <= 128,
        0 <= j <= 128,
        1 <= w <= 128,
        1 <= h <= 128,
        normal_sign == 1 || normal_sign == -1,
    ensures
        final(out).wf(),
        final(out).quad_count() == old(out).quad_count() + 1,
        final(out).positions@ == old(out).positions@ + quad_positions(
            d,
            plane,
            i,
            j,
            w,
            h,
            normal_sign,
        ),
        final(out).normals@ == old(out).normals@ + seq![axis_point_i32(d, normal_sign as i32, 0, 0); 4],
        final(out).uvs@ == old(out).uvs@ + quad_uvs(w, h, normal_sign),
        final(out).indices@ == old(out).indices@ + ({
            let b = old(out).positions@.len() as u32;
            seq![b, (b + 1) as u32, (b + 2) as u32, b, (b + 2) as u32, (b + 3) as u32]
        }),
{
    let normal = axis_point(d, normal_sign as i32, 0, 0);
    let u0 = i;
    let v0 = j;
    let u1 = i + w;
    let v1 = j + h;
    let ghost old_out = *out;
    let base = out.positions.len() as u32;
    if normal_sign == 1 {
        out.positions.push(axis_point(d, plane, u0, v0));
        out.positions.push(axis_point(d, plane, u1, v0));
        out.positions.push(axis_point(d, plane, u1, v1));
        out.positions.push(axis_point(d, plane, u0, v1));
    } else {
        out.positions.push(axis_point(d, plane, u0, v0));
        out.positions.push(axis_point(d, plane, u0, v1));
        out.positions.push(axis_point(d, plane, u1, v1));
        out.positions.push(axis_point(d, plane, u1, v0));
    }
    out.normals.push(normal);
    out.normals.push(normal);
    out.normals.push(normal);
    out.normals.push(normal);
    if normal_sign == 1 {
        out.uvs.push((0, 0));
        out.uvs.push((w, 0));
        out.uvs.push((w, h));
        out.uvs.push((0, h));
    } else {
        out.uvs.push((0, 0));
        out.uvs.push((0, h));
        out.uvs.push((w, h));
        out.uvs.push((w, 0));
    }
    out.indices.push(base);
    out.indices.push(base + 1);
    out.indices.push(base + 2);
    out.indices.push(base);
    out.indices.push(base + 2);
    out.indices.push(base + 3);
    proof {
        let q = old_out.quad_count() as int;
        let n = out.indices@.len();
        assert(out.positions@ =~= old_out.positions@ + quad_positions(d, plane, i, j, w, h, normal_sign));
        assert(out.normals@ =~= old_out.normals@ + seq![axis_point_i32(d, normal_sign as i32, 0, 0); 4]);
        assert(out.uvs@ =~= old_out.uvs@ + quad_uvs(w, h, normal_sign));
        assert(out.indices@ =~= old_out.indices@ + seq![base, (base + 1) as u32, (base + 2) as u32, base, (base + 2) as u32, (base + 3) as u32]);
        assert(n == 6 * q + 6);
        assert(base == 4 * q);
        assert forall|k: int| 0 <= k < n implies #[trigger] out.indices@[k] == 4 * (k / 6)
            + corner_of(k % 6) && out.indices@[k] < out.positions@.len() by {
            if k < 6 * q {
                assert(out.indices@[k] == old_out.indices@[k]);
            } else {
                assert(k / 6 == q && k % 6 == k - 6 * q) by (nonlinear_arith)
                    requires
                        6 * q <= k < 6 * q + 6,
                ;
            }
        }
    }
}

} // verus!
