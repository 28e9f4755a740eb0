use vstd::prelude::*;

use crate::chunk::ChunkData;
use crate::mesh::{
    axis_point, axis_point_i32, axis_point_spec, emit_quad, lemma_quad_in_box, quad_positions, quad_uvs,
    MeshData,
};
use crate::registry::VoxelRegistry;
use crate::voxel::Voxel;

verus! {

/// One face of the mask: the kind of the solid voxel behind it and the side it faces.
#[derive(Clone, Copy, Debug, PartialEq, Eq, Structural)]
pub struct FaceCell {
    pub voxel: Voxel,
    pub normal_sign: i8,
}

/// Number of cells along axis `a` (0 = x, 1 = y, 2 = z).
pub open spec fn dim(a: int) -> int {
    if a == 0 {
        16
    } else if a == 1 {
        128
    } else {
        16
    }
}

/// Width of the slicing plane of axis `d` (its extent along `(d + 1) % 3`).
pub open spec fn plane_w(d: int) -> int {
    dim((d + 1) % 3)
}

/// Height of the slicing plane of axis `d` (its extent along `(d + 2) % 3`).
pub open spec fn plane_h(d: int) -> int {
    dim((d + 2) % 3)
}

/// Whether the registry calls the voxel at point `p` solid (`Air` outside the chunk).
pub open spec fn solid_at(c: ChunkData, reg: VoxelRegistry, p: (int, int, int)) -> bool {
    reg.solid(c.cell(p.0, p.1, p.2))
}

/// The face between slice `s` and slice `s + 1` of axis `d` at plane cell `(i, j)`:
/// present exactly where one side is solid and the other is not, facing away from
/// the solid side and keyed by the solid voxel's kind.
pub open spec fn face_spec(c: ChunkData, reg: VoxelRegistry, d: int, s: int, i: int, j: int) -> Option<
    FaceCell,
> {
    let neg = axis_point_spec(d, s, i, j);
    let pos = axis_point_spec(d, s + 1, i, j);
    if solid_at(c, reg, neg) && !solid_at(c, reg, pos) {
        Some(FaceCell { voxel: c.cell(neg.0, neg.1, neg.2), normal_sign: 1 })
    } else if !solid_at(c, reg, neg) && solid_at(c, reg, pos) {
        Some(FaceCell { voxel: c.cell(pos.0, pos.1, pos.2), normal_sign: -1i8 })
    } else {
        None
    }
}

/// Faces among the first `n` cells (row-major) of the plane between slices `s` and `s + 1`.
pub open spec fn slice_faces_upto(c: ChunkData, reg: VoxelRegistry, d: int, s: int, n: int) -> nat
    decreases n,
{
    if n <= 0 {
        0
    } else {
        slice_faces_upto(c, reg, d, s, n - 1) + if face_spec(
            c,
            reg,
            d,
            s,
            (n - 1) % plane_w(d),
            (n - 1) / plane_w(d),
        ) is Some {
            1nat
        } else {
            0nat
        }
    }
}

/// Faces between slices `s` and `s + 1` of axis `d`.
pub open spec fn slice_faces(c: ChunkData, reg: VoxelRegistry, d: int, s: int) -> nat {
    slice_faces_upto(c, reg, d, s, plane_w(d) * plane_h(d))
}

/// Faces of the first `n` planes of axis `d`, starting with the chunk's outer
/// boundary at slice `-1`.
pub open spec fn axis_faces_upto(c: ChunkData, reg: VoxelRegistry, d: int, n: int) -> nat
    decreases n,
{
    if n <= 0 {
        0
    } else {
        axis_faces_upto(c, reg, d, n - 1) + slice_faces(c, reg, d, n - 2)
    }
}

/// Faces of all planes of the first `a` axes.
pub open spec fn faces_upto_axis(c: ChunkData, reg: VoxelRegistry, a: int) -> nat
    decreases a,
{
    if a <= 0 {
        0
    } else {
        faces_upto_axis(c, reg, a - 1) + axis_faces_upto(c, reg, a - 1, dim(a - 1) + 1)
    }
}

/// Number of unit faces of the chunk: solid/non-solid transitions along the three
/// axes, counting the chunk's outer boundary against the air around it.
pub open spec fn total_faces(c: ChunkData, reg: VoxelRegistry) -> nat {
    faces_upto_axis(c, reg, 3)
}

/// Number of cells of the first `n` entries of `m` that hold a face.
pub open spec fn count_some(m: Seq<Option<FaceCell>>, n: int) -> nat
    decreases n,
{
    if n <= 0 {
        0
    } else {
        count_some(m, n - 1) + if m[n - 1] is Some {
            1nat
        } else {
            0nat
        }
    }
}

proof fn lemma_count_bound(m: Seq<Option<FaceCell>>, n: int)
    requires
        0 <= n,
    ensures
        count_some(m, n) <= n,
    decreases n,
{
    if n > 0 {
        lemma_count_bound(m, n - 1);
    }
}

proof fn lemma_count_clear(m: Seq<Option<FaceCell>>, t: int, n: int)
    requires
        0 <= t < m.len(),
        0 <= n <= m.len(),
    ensures
        count_some(m.update(t, None), n) <= count_some(m, n),
        t < n && m[t] is Some ==> count_some(m.update(t, None), n) + 1 == count_some(m, n),
        t >= n ==> count_some(m.update(t, None), n) == count_some(m, n),
    decreases n,
{
    if n > 0 {
        lemma_count_clear(m, t, n - 1);
    }
}

proof fn lemma_count_none(m: Seq<Option<FaceCell>>, n: int)
    requires
        0 <= n <= m.len(),
        forall|t: int| 0 <= t < n ==> m[t] is None,
    ensures
        count_some(m, n) == 0,
    decreases n,
{
    if n > 0 {
        lemma_count_none(m, n - 1);
    }
}

proof fn lemma_count_mask(c: ChunkData, reg: VoxelRegistry, d: int, s: int, m: Seq<Option<FaceCell>>, n: int)
    requires
        0 <= n <= m.len(),
        forall|t: int|
            0 <= t < m.len() ==> #[trigger] m[t] == face_spec(c, reg, d, s, t % plane_w(d), t / plane_w(d)),
    ensures
        count_some(m, n) == slice_faces_upto(c, reg, d, s, n),
    decreases n,
{
    if n > 0 {
        lemma_count_mask(c, reg, d, s, m, n - 1);
        assert(m[n - 1] == face_spec(c, reg, d, s, (n - 1) % plane_w(d), (n - 1) / plane_w(d)));
    }
}

proof fn lemma_cell_index(a: int, b: int, pw: int, ph: int)
    requires
        0 <= a < pw,
        0 <= b < ph,
    ensures
        0 <= a + b * pw < pw * ph,
{
    assert(0 <= a + b * pw < pw * ph) by (nonlinear_arith)
        requires
            0 <= a < pw,
            0 <= b < ph,
    ;
}

proof fn lemma_next_row(j: int, pw: int)
    requires
        0 <= j,
        0 < pw,
    ensures
        pw + j * pw == (j + 1) * pw,
{
    assert(pw + j * pw == (j + 1) * pw) by (nonlinear_arith);
}

/// Vertex `k` of `m` lies in the chunk's box and has an axis normal.
spec fn in_chunk_box_at(m: &MeshData, k: int) -> bool {
    crate::mesh::in_chunk_box(m.positions@[k]) && crate::mesh::axis_normal(m.normals@[k])
}

/// Number of cells along axis `a`.
fn axis_len(a: usize) -> (r: usize)
    requires
        a < 3,
    ensures
        r as int == dim(a as int),
{
    if a == 1 {
        128
    } else {
        16
    }
}

/// Whether mask cell `m` holds exactly the face `c`.
fn same_face(m: Option<FaceCell>, c: FaceCell) -> (r: bool)
    ensures
        r == (m == Some(c)),
{
    match m {
        Some(f) => f.voxel == c.voxel && f.normal_sign == c.normal_sign,
        None => false,
    }
}

/// The face of the plane between slices `slice` and `slice + 1` of axis `d` at `(i, j)`.
fn face_between(
    chunk: &ChunkData,
    registry: &VoxelRegistry,
    d: usize,
    slice: i32,
    i: i32,
    j: i32,
) -> (r: Option<FaceCell>)
    requires
        chunk.wf(),
        registry.wf(),
        d < 3,
        -1 <= slice <= 128,
        0 <= i <= 128,
        0 <= j <= 128,
    ensures
        r == face_spec(*chunk, *registry, d as int, slice as int, i as int, j as int),
{
    let neg = axis_point(d, slice, i, j);
    let pos = axis_point(d, slice + 1, i, j);
    let neg_side = chunk.get(neg.0, neg.1, neg.2);
    let pos_side = chunk.get(pos.0, pos.1, pos.2);
    let neg_solid = registry.get(&neg_side).is_solid;
    let pos_solid = registry.get(&pos_side).is_solid;
    if neg_solid && !pos_solid {
        Some(FaceCell { voxel: neg_side, normal_sign: 1 })
    } else if !neg_solid && pos_solid {
        Some(FaceCell { voxel: pos_side, normal_sign: -1 })
    } else {
        None
    }
}

/// Fills `mask` with the faces of the plane between slices `slice` and `slice + 1`
/// of axis `d`, cell `(i, j)` at position `i + j * plane_w(d)`.
fn build_mask(
    chunk: &ChunkData,
    registry: &VoxelRegistry,
    d: usize,
    slice: i32,
    mask: &mut Vec<Option<FaceCell>>,
)
    requires
        chunk.wf(),
        registry.wf(),
        d < 3,
        -1 <= slice < dim(d as int),
        old(mask)@.len() == plane_w(d as int) * plane_h(d as int),
    ensures
        final(mask)@.len() == old(mask)@.len(),
        forall|t: int|
            0 <= t < final(mask)@.len() ==> #[trigger] final(mask)@[t] == face_spec(
                *chunk,
                *registry,
                d as int,
                slice as int,
                t % plane_w(d as int),
                t / plane_w(d as int),
            ),
        count_some(final(mask)@, final(mask)@.len() as int) == slice_faces(
            *chunk,
            *registry,
            d as int,
            slice as int,
        ),
{
    let pw = axis_len((d + 1) % 3);
    let ph = axis_len((d + 2) % 3);
    proof {
        if d == 0 {
            assert(pw == 128 && ph == 16);
            assert(pw * ph == 2048) by (nonlinear_arith)
                requires
                    pw == 128,
                    ph == 16,
            ;
        } else if d == 1 {
            assert(pw == 16 && ph == 16);
            assert(pw * ph == 256) by (nonlinear_arith)
                requires
                    pw == 16,
                    ph == 16,
            ;
        } else {
            assert(pw == 16 && ph == 128);
            assert(pw * ph == 2048) by (nonlinear_arith)
                requires
                    pw == 16,
                    ph == 128,
            ;
        }
    }
    let area = pw * ph;
    let mut k: usize = 0;
    while k < area
        invariant
            pw as int == plane_w(d as int),
            ph as int == plane_h(d as int),
            area == pw * ph,
            mask@.len() == area,
            0 <= k <= area,
            chunk.wf(),
            registry.wf(),
            d < 3,
            -1 <= slice < dim(d as int),
            forall|t: int|
                0 <= t < k ==> #[trigger] mask@[t] == face_spec(
                    *chunk,
                    *registry,
                    d as int,
                    slice as int,
                    t % plane_w(d as int),
                    t / plane_w(d as int),
                ),
        decreases area - k,
    {
        let i = k % pw;
        let j = k / pw;
        assert(j < ph) by (nonlinear_arith)
            requires
                k < pw * ph,
                j == k / pw,
                pw > 0,
        ;
        let cell = face_between(chunk, registry, d, slice, i as i32, j as i32);
        mask.set(k, cell);
        k = k + 1;
    }
    proof {
        lemma_count_mask(*chunk, *registry, d as int, slice as int, mask@, area as int);
    }
}

/// Cell `(a, b)` of a plane mask stored row by row with rows of width `pw`.
pub open spec fn mask_cell(m: Seq<Option<FaceCell>>, pw: int, a: int, b: int) -> Option<FaceCell> {
    m[a + b * pw]
}

/// Whether position `t` of a plane mask with rows of width `pw` lies in the rectangle
/// of `w` by `h` cells whose first cell is `(i, j)`.
pub open spec fn in_rect(t: int, pw: int, i: int, j: int, w: int, h: int) -> bool {
    i <= t % pw < i + w && j <= t / pw < j + h
}

/// Quad `q` of `m` is the rectangle `[i, i + w] x [j, j + h]` of plane `plane` of axis `d`,
/// with the unit normal of side `sign` at each corner and texture coordinates spanning
/// `w` by `h`.
pub open spec fn quad_at(
    m: MeshData,
    q: int,
    d: usize,
    plane: i32,
    i: i32,
    j: i32,
    w: i32,
    h: i32,
    sign: i8,
) -> bool {
    &&& 0 <= q
    &&& 4 * q + 4 <= m.positions@.len()
    &&& 4 * q + 4 <= m.normals@.len()
    &&& 4 * q + 4 <= m.uvs@.len()
    &&& m.positions@.subrange(4 * q, 4 * q + 4) == quad_positions(d, plane, i, j, w, h, sign)
    &&& m.normals@.subrange(4 * q, 4 * q + 4) == seq![axis_point_i32(d, sign as i32, 0, 0); 4]
    &&& m.uvs@.subrange(4 * q, 4 * q + 4) == quad_uvs(w, h, sign)
}

/// Every unit cell of the rectangle of `w` by `h` cells at `(i, j)`, in the plane between
/// slices `s` and `s + 1` of axis `d`, holds the face `f`.
pub open spec fn rect_on_faces(
    c: ChunkData,
    reg: VoxelRegistry,
    d: usize,
    s: int,
    i: i32,
    j: i32,
    w: i32,
    h: i32,
    f: FaceCell,
) -> bool {
    &&& w >= 1
    &&& h >= 1
    &&& forall|a: int, b: int|
        i <= a < i + w && j <= b < j + h ==> #[trigger] face_spec(c, reg, d as int, s, a, b) == Some(f)
}

/// Quad `q` of `m` covers only faces of the chunk, all of one kind and facing the way
/// the quad does.
pub open spec fn quad_on_faces(c: ChunkData, reg: VoxelRegistry, m: MeshData, q: int) -> bool {
    exists|d: usize, plane: i32, i: i32, j: i32, w: i32, h: i32, f: FaceCell|
        d < 3 && #[trigger] quad_at(m, q, d, plane, i, j, w, h, f.normal_sign) && rect_on_faces(
            c,
            reg,
            d,
            plane - 1,
            i,
            j,
            w,
            h,
            f,
        )
}

/// Some quad of `m` made of faces covers the face at `(a, b)` between slices `s` and
/// `s + 1` of axis `d`.
pub open spec fn face_covered(
    c: ChunkData,
    reg: VoxelRegistry,
    m: MeshData,
    d: usize,
    s: int,
    a: int,
    b: int,
) -> bool {
    exists|q: int, i: i32, j: i32, w: i32, h: i32, f: FaceCell|
        #[trigger] quad_at(m, q, d, (s + 1) as i32, i, j, w, h, f.normal_sign) && rect_on_faces(
            c,
            reg,
            d,
            s,
            i,
            j,
            w,
            h,
            f,
        ) && i <= a < i + w && j <= b < j + h
}

/// `new` holds the vertices of `old` first.
pub open spec fn extends(new: MeshData, old: MeshData) -> bool {
    &&& old.positions@.len() <= new.positions@.len()
    &&& new.positions@.subrange(0, old.positions@.len() as int) == old.positions@
    &&& old.normals@.len() <= new.normals@.len()
    &&& new.normals@.subrange(0, old.normals@.len() as int) == old.normals@
    &&& old.uvs@.len() <= new.uvs@.len()
    &&& new.uvs@.subrange(0, old.uvs@.len() as int) == old.uvs@
}

proof fn lemma_flat(a: int, b: int, pw: int)
    requires
        0 <= a < pw,
        0 <= b,
    ensures
        (a + b * pw) % pw == a,
        (a + b * pw) / pw == b,
{
    assert((a + b * pw) % pw == a && (a + b * pw) / pw == b) by (nonlinear_arith)
        requires
            0 <= a < pw,
            0 <= b,
    ;
}

proof fn lemma_extends_trans(a: MeshData, b: MeshData, c: MeshData)
    requires
        extends(b, a),
        extends(c, b),
    ensures
        extends(c, a),
{
    assert(c.positions@.subrange(0, a.positions@.len() as int) =~= b.positions@.subrange(
        0,
        a.positions@.len() as int,
    ));
    assert(c.normals@.subrange(0, a.normals@.len() as int) =~= b.normals@.subrange(
        0,
        a.normals@.len() as int,
    ));
    assert(c.uvs@.subrange(0, a.uvs@.len() as int) =~= b.uvs@.subrange(0, a.uvs@.len() as int));
}

proof fn lemma_extends_keeps_quads(c: ChunkData, reg: VoxelRegistry, old: MeshData, new: MeshData)
    requires
        extends(new, old),
    ensures
        forall|q: int| #[trigger] quad_on_faces(c, reg, old, q) ==> quad_on_faces(c, reg, new, q),
        forall|d: usize, s: int, a: int, b: int|
            #[trigger] face_covered(c, reg, old, d, s, a, b) ==> face_covered(c, reg, new, d, s, a, b),
{
    assert forall|q: int, d: usize, plane: i32, i: i32, j: i32, w: i32, h: i32, sign: i8|
        #[trigger] quad_at(old, q, d, plane, i, j, w, h, sign) implies quad_at(
        new,
        q,
        d,
        plane,
        i,
        j,
        w,
        h,
        sign,
    ) by {
        assert(new.positions@.subrange(4 * q, 4 * q + 4) =~= old.positions@.subrange(4 * q, 4 * q + 4));
        assert(new.normals@.subrange(4 * q, 4 * q + 4) =~= old.normals@.subrange(4 * q, 4 * q + 4));
        assert(new.uvs@.subrange(4 * q, 4 * q + 4) =~= old.uvs@.subrange(4 * q, 4 * q + 4));
    }
    assert forall|q: int| #[trigger] quad_on_faces(c, reg, old, q) implies quad_on_faces(c, reg, new, q) by {
        let (d, plane, i, j, w, h, f) = choose|d: usize, plane: i32, i: i32, j: i32, w: i32, h: i32, f: FaceCell|
            d < 3 && #[trigger] quad_at(old, q, d, plane, i, j, w, h, f.normal_sign) && rect_on_faces(
                c,
                reg,
                d,
                plane - 1,
                i,
                j,
                w,
                h,
                f,
            );
        assert(quad_at(new, q, d, plane, i, j, w, h, f.normal_sign));
    }
    assert forall|d: usize, s: int, a: int, b: int| #[trigger] face_covered(c, reg, old, d, s, a, b) implies face_covered(
        c,
        reg,
        new,
        d,
        s,
        a,
        b,
    ) by {
        let (q, i, j, w, h, f) = choose|q: int, i: i32, j: i32, w: i32, h: i32, f: FaceCell|
            #[trigger] quad_at(old, q, d, (s + 1) as i32, i, j, w, h, f.normal_sign) && rect_on_faces(
                c,
                reg,
                d,
                s,
                i,
                j,
                w,
                h,
                f,
            ) && i <= a < i + w && j <= b < j + h;
        assert(quad_at(new, q, d, (s + 1) as i32, i, j, w, h, f.normal_sign));
    }
}

/// The rectangle that a quad was made from: `w` by `h` cells at `(i, j)` of plane
/// `plane` of axis `d`, facing `sign`.
#[derive(Clone, Copy, Debug)]
pub struct QuadRect {
    pub d: usize,
    pub plane: i32,
    pub i: i32,
    pub j: i32,
    pub w: i32,
    pub h: i32,
    pub sign: i8,
}

/// The rectangle lies within a plane of the chunk and is not empty.
pub open spec fn rect_ok(x: QuadRect) -> bool {
    &&& x.d < 3
    &&& 0 <= x.plane <= dim(x.d as int)
    &&& 0 <= x.i
    &&& 1 <= x.w
    &&& x.i + x.w <= plane_w(x.d as int)
    &&& 0 <= x.j
    &&& 1 <= x.h
    &&& x.j + x.h <= plane_h(x.d as int)
    &&& (x.sign == 1 || x.sign == -1)
}

/// Quad `q` of `m` is exactly the rectangle `x`.
pub open spec fn quad_is(m: MeshData, q: int, x: QuadRect) -> bool {
    rect_ok(x) && quad_at(m, q, x.d, x.plane, x.i, x.j, x.w, x.h, x.sign)
}

/// Two rectangles share no cell.
pub open spec fn rects_disjoint(x: QuadRect, y: QuadRect) -> bool {
    x.i + x.w <= y.i || y.i + y.w <= x.i || x.j + x.h <= y.j || y.j + y.h <= x.j
}

/// Order of planes: all of axis 0 first, each axis from its lowest plane up.
pub open spec fn plane_key(d: int, plane: int) -> int {
    d * 1000 + plane
}

/// Rectangles of the same plane among `rs` never overlap.
pub open spec fn rects_apart(rs: Seq<QuadRect>) -> bool {
    forall|k1: int, k2: int|
        0 <= k1 < k2 < rs.len() && (#[trigger] rs[k1]).d == (#[trigger] rs[k2]).d && rs[k1].plane
            == rs[k2].plane ==> rects_disjoint(rs[k1], rs[k2])
}

/// The quads of `m` are the rectangles `rs`, in order.
pub open spec fn quads_are(m: MeshData, rs: Seq<QuadRect>) -> bool {
    &&& rs.len() == m.quad_count()
    &&& forall|q: int| 0 <= q < rs.len() ==> quad_is(m, q, #[trigger] rs[q])
}

/// A quad's corners determine the rectangle it was made from.
proof fn lemma_rect_unique(x: QuadRect, y: QuadRect)
    requires
        rect_ok(x),
        rect_ok(y),
        quad_positions(x.d, x.plane, x.i, x.j, x.w, x.h, x.sign) == quad_positions(
            y.d,
            y.plane,
            y.i,
            y.j,
            y.w,
            y.h,
            y.sign,
        ),
    ensures
        x == y,
{
    let px = quad_positions(x.d, x.plane, x.i, x.j, x.w, x.h, x.sign);
    let py = quad_positions(y.d, y.plane, y.i, y.j, y.w, y.h, y.sign);
    assert(px[0] == py[0] && px[1] == py[1] && px[2] == py[2] && px[3] == py[3]);
}

/// Two quads of `m` that stand for rectangles of the same plane do not overlap.
pub open spec fn quads_apart(m: MeshData) -> bool {
    forall|q1: int, q2: int, x1: QuadRect, x2: QuadRect|
        q1 != q2 && #[trigger] quad_is(m, q1, x1) && #[trigger] quad_is(m, q2, x2) && x1.d == x2.d
            && x1.plane == x2.plane ==> rects_disjoint(x1, x2)
}

proof fn lemma_quads_apart(m: MeshData, rs: Seq<QuadRect>)
    requires
        quads_are(m, rs),
        rects_apart(rs),
    ensures
        quads_apart(m),
{
    assert forall|q1: int, q2: int, x1: QuadRect, x2: QuadRect|
        q1 != q2 && #[trigger] quad_is(m, q1, x1) && #[trigger] quad_is(m, q2, x2) && x1.d == x2.d
            && x1.plane == x2.plane implies rects_disjoint(x1, x2) by {
        assert(quad_is(m, q1, rs[q1]));
        assert(quad_is(m, q2, rs[q2]));
        lemma_rect_unique(x1, rs[q1]);
        lemma_rect_unique(x2, rs[q2]);
        if q1 > q2 {
            assert(rects_disjoint(rs[q2], rs[q1]));
        }
    }
}

/// Width of the rectangle grown from `(i, j)` along its row, at least `w`: it extends
/// while the next cell holds `f`.
pub open spec fn grow_w(m: Seq<Option<FaceCell>>, pw: int, i: int, j: int, f: FaceCell, w: int) -> int
    decreases pw - i - w,
{
    if i + w < pw && mask_cell(m, pw, i + w, j) == Some(f) {
        grow_w(m, pw, i, j, f, w + 1)
    } else {
        w
    }
}

/// Whether cells `i .. i + w` of row `b` all hold `f`.
pub open spec fn row_matches(m: Seq<Option<FaceCell>>, pw: int, i: int, b: int, w: int, f: FaceCell) -> bool {
    forall|a: int| i <= a < i + w ==> #[trigger] mask_cell(m, pw, a, b) == Some(f)
}

/// Height of the rectangle of width `w` grown from `(i, j)` row by row, at least `h`:
/// it extends while the whole next row segment holds `f`.
pub open spec fn grow_h(
    m: Seq<Option<FaceCell>>,
    pw: int,
    ph: int,
    i: int,
    j: int,
    w: int,
    f: FaceCell,
    h: int,
) -> int
    decreases ph - j - h,
{
    if j + h < ph && row_matches(m, pw, i, j + h, w, f) {
        grow_h(m, pw, ph, i, j, w, f, h + 1)
    } else {
        h
    }
}

/// `m` with the rectangle of `w` by `h` cells at `(i, j)` cleared.
pub open spec fn clear_spec(m: Seq<Option<FaceCell>>, pw: int, i: int, j: int, w: int, h: int) -> Seq<
    Option<FaceCell>,
> {
    Seq::new(m.len(), |t: int| if in_rect(t, pw, i, j, w, h) { None } else { m[t] })
}

/// The rectangles that the greedy merge takes from mask `m` (rows of width `pw`,
/// `ph` rows), scanning from position `t` on in row-major order: at each cell that
/// still holds a face, the widest run of that face along the row, grown by as many
/// whole matching rows as follow; its cells are then cleared. They lie on plane
/// `plane` of axis `d`.
pub open spec fn scan_rects(m: Seq<Option<FaceCell>>, pw: int, ph: int, t: int, d: usize, plane: i32) -> Seq<
    QuadRect,
>
    decreases pw * ph - t,
{
    if t < 0 || t >= pw * ph || pw <= 0 {
        Seq::empty()
    } else {
        match m[t] {
            None => scan_rects(m, pw, ph, t + 1, d, plane),
            Some(f) => {
                let i = t % pw;
                let j = t / pw;
                let w = grow_w(m, pw, i, j, f, 1);
                let h = grow_h(m, pw, ph, i, j, w, f, 1);
                seq![
                    QuadRect {
                        d,
                        plane,
                        i: i as i32,
                        j: j as i32,
                        w: w as i32,
                        h: h as i32,
                        sign: f.normal_sign,
                    },
                ] + scan_rects(clear_spec(m, pw, i, j, w, h), pw, ph, t + 1, d, plane)
            },
        }
    }
}

/// The faces of the plane between slices `s` and `s + 1` of axis `d`, row by row.
pub open spec fn mask_spec(c: ChunkData, reg: VoxelRegistry, d: int, s: int) -> Seq<Option<FaceCell>> {
    Seq::new(
        (plane_w(d) * plane_h(d)) as nat,
        |t: int| face_spec(c, reg, d, s, t % plane_w(d), t / plane_w(d)),
    )
}

/// The rectangles that the greedy merge makes of the plane between slices `s` and `s + 1`.
pub open spec fn slice_rects(c: ChunkData, reg: VoxelRegistry, d: usize, s: int) -> Seq<QuadRect> {
    scan_rects(mask_spec(c, reg, d as int, s), plane_w(d as int), plane_h(d as int), 0, d, (s + 1) as i32)
}

/// The rectangles of the first `n` planes of axis `d`, from slice `-1` on.
pub open spec fn axis_rects(c: ChunkData, reg: VoxelRegistry, d: usize, n: int) -> Seq<QuadRect>
    decreases n,
{
    if n <= 0 {
        Seq::empty()
    } else {
        axis_rects(c, reg, d, n - 1) + slice_rects(c, reg, d, n - 2)
    }
}

/// The rectangles of all planes of the first `a` axes.
pub open spec fn rects_upto_axis(c: ChunkData, reg: VoxelRegistry, a: int) -> Seq<QuadRect>
    decreases a,
{
    if a <= 0 {
        Seq::empty()
    } else {
        rects_upto_axis(c, reg, a - 1) + axis_rects(c, reg, (a - 1) as usize, dim(a - 1) + 1)
    }
}

/// The quads that greedy meshing makes of a chunk, in order: axes x, y, z; within an
/// axis the planes from the lowest up; within a plane the greedy merge's order.
pub open spec fn greedy_rects(c: ChunkData, reg: VoxelRegistry) -> Seq<QuadRect> {
    rects_upto_axis(c, reg, 3)
}

/// Cells that hold no face are skipped by the scan.
proof fn lemma_scan_skip(m: Seq<Option<FaceCell>>, pw: int, ph: int, t: int, t2: int, d: usize, plane: i32)
    requires
        0 <= t <= t2 <= pw * ph,
        pw > 0,
        forall|k: int| t <= k < t2 ==> (#[trigger] m[k]) is None,
    ensures
        scan_rects(m, pw, ph, t, d, plane) == scan_rects(m, pw, ph, t2, d, plane),
    decreases t2 - t,
{
    if t < t2 {
        lemma_scan_skip(m, pw, ph, t + 1, t2, d, plane);
    }
}

/// Two meshes that are both well formed and both made of the rectangles `rs`, in order,
/// are identical.
pub proof fn lemma_mesh_determined(m1: MeshData, m2: MeshData, rs: Seq<QuadRect>)
    requires
        m1.wf(),
        m2.wf(),
        quads_are(m1, rs),
        quads_are(m2, rs),
    ensures
        m1.positions@ == m2.positions@,
        m1.normals@ == m2.normals@,
        m1.uvs@ == m2.uvs@,
        m1.indices@ == m2.indices@,
{
    assert(m1.positions@.len() == m2.positions@.len());
    assert forall|k: int| 0 <= k < m1.positions@.len() implies m1.positions@[k] == m2.positions@[k]
        && m1.normals@[k] == m2.normals@[k] && m1.uvs@[k] == m2.uvs@[k] by {
        let q = k / 4;
        assert(0 <= q < rs.len() && 4 * q <= k < 4 * q + 4) by (nonlinear_arith)
            requires
                0 <= k < m1.positions@.len(),
                m1.positions@.len() % 4 == 0,
                rs.len() == m1.positions@.len() / 4,
                q == k / 4,
        ;
        assert(quad_is(m1, q, rs[q]) && quad_is(m2, q, rs[q]));
        assert(m1.positions@[k] == m1.positions@.subrange(4 * q, 4 * q + 4)[k - 4 * q]);
        assert(m2.positions@[k] == m2.positions@.subrange(4 * q, 4 * q + 4)[k - 4 * q]);
        assert(m1.normals@[k] == m1.normals@.subrange(4 * q, 4 * q + 4)[k - 4 * q]);
        assert(m2.normals@[k] == m2.normals@.subrange(4 * q, 4 * q + 4)[k - 4 * q]);
        assert(m1.uvs@[k] == m1.uvs@.subrange(4 * q, 4 * q + 4)[k - 4 * q]);
        assert(m2.uvs@[k] == m2.uvs@.subrange(4 * q, 4 * q + 4)[k - 4 * q]);
    }
    assert(m1.positions@ =~= m2.positions@);
    assert(m1.normals@ =~= m2.normals@);
    assert(m1.uvs@ =~= m2.uvs@);
    assert forall|k: int| 0 <= k < m1.indices@.len() implies m1.indices@[k] == m2.indices@[k] by {
        assert(m1.indices@[k] == 4 * (k / 6) + crate::mesh::corner_of(k % 6));
        assert(m2.indices@[k] == 4 * (k / 6) + crate::mesh::corner_of(k % 6));
    }
    assert(m1.indices@ =~= m2.indices@);
}

proof fn lemma_rects_same_cells(c1: ChunkData, c2: ChunkData, reg: VoxelRegistry)
    requires
        c1.voxels@ == c2.voxels@,
    ensures
        greedy_rects(c1, reg) == greedy_rects(c2, reg),
{
    assert forall|d: usize, s: int| #[trigger] slice_rects(c1, reg, d, s) == slice_rects(c2, reg, d, s) by {
        assert forall|x: int, y: int, z: int| #[trigger] c1.cell(x, y, z) == c2.cell(x, y, z) by {}
        assert(mask_spec(c1, reg, d as int, s) =~= mask_spec(c2, reg, d as int, s));
    }
    assert forall|d: usize, n: int| #[trigger] axis_rects(c1, reg, d, n) == axis_rects(c2, reg, d, n) by {
        lemma_axis_rects_same(c1, c2, reg, d, n);
    }
    assert(axis_rects(c1, reg, 0usize, dim(0) + 1) == axis_rects(c2, reg, 0usize, dim(0) + 1));
    assert(axis_rects(c1, reg, 1usize, dim(1) + 1) == axis_rects(c2, reg, 1usize, dim(1) + 1));
    assert(axis_rects(c1, reg, 2usize, dim(2) + 1) == axis_rects(c2, reg, 2usize, dim(2) + 1));
    assert(rects_upto_axis(c1, reg, 0) == rects_upto_axis(c2, reg, 0));
    assert(rects_upto_axis(c1, reg, 1) == rects_upto_axis(c2, reg, 1));
    assert(rects_upto_axis(c1, reg, 2) == rects_upto_axis(c2, reg, 2));
    assert(rects_upto_axis(c1, reg, 3) == rects_upto_axis(c2, reg, 3));
}

proof fn lemma_axis_rects_same(c1: ChunkData, c2: ChunkData, reg: VoxelRegistry, d: usize, n: int)
    requires
        forall|dd: usize, s: int| #[trigger] slice_rects(c1, reg, dd, s) == slice_rects(c2, reg, dd, s),
    ensures
        axis_rects(c1, reg, d, n) == axis_rects(c2, reg, d, n),
    decreases n,
{
    if n > 0 {
        lemma_axis_rects_same(c1, c2, reg, d, n - 1);
        assert(slice_rects(c1, reg, d, n - 2) == slice_rects(c2, reg, d, n - 2));
    }
}

/// Determinism of meshing: meshes that `greedy_mesh` returns for chunks with the same
/// cells and the same registry are identical, vertex for vertex and index for index.
pub proof fn lemma_meshing_deterministic(
    c1: ChunkData,
    c2: ChunkData,
    reg: VoxelRegistry,
    m1: MeshData,
    m2: MeshData,
)
    requires
        c1.voxels@ == c2.voxels@,
        m1.wf(),
        m2.wf(),
        quads_are(m1, greedy_rects(c1, reg)),
        quads_are(m2, greedy_rects(c2, reg)),
    ensures
        m1.positions@ == m2.positions@,
        m1.normals@ == m2.normals@,
        m1.uvs@ == m2.uvs@,
        m1.indices@ == m2.indices@,
{
    lemma_rects_same_cells(c1, c2, reg);
    lemma_mesh_determined(m1, m2, greedy_rects(c1, reg));
}

/// One step of the scan at a cell holding a face: the rectangle grown there comes
/// first, then the scan of the cleared mask from the cell after the rectangle's row run.
proof fn lemma_scan_step(
    mid: Seq<Option<FaceCell>>,
    after: Seq<Option<FaceCell>>,
    pw: int,
    ph: int,
    i: int,
    j: int,
    w: int,
    h: int,
    f: FaceCell,
    d: usize,
    plane: i32,
)
    requires
        0 < pw <= 128,
        0 < ph <= 128,
        mid.len() == pw * ph,
        0 <= i < pw,
        0 <= j < ph,
        1 <= w,
        i + w <= pw,
        mid[i + j * pw] == Some(f),
        w == grow_w(mid, pw, i, j, f, 1),
        h == grow_h(mid, pw, ph, i, j, w, f, 1),
        after == clear_spec(mid, pw, i, j, w, h),
    ensures
        scan_rects(mid, pw, ph, i + j * pw, d, plane) == seq![
            QuadRect { d, plane, i: i as i32, j: j as i32, w: w as i32, h: h as i32, sign: f.normal_sign },
        ] + scan_rects(after, pw, ph, i + j * pw + w, d, plane),
{
    let t = i + j * pw;
    lemma_cell_index(i, j, pw, ph);
    lemma_flat(i, j, pw);
    assert(t + w <= pw * ph) by (nonlinear_arith)
        requires
            t == i + j * pw,
            i + w <= pw,
            0 <= j < ph,
            0 < pw,
    ;
    assert(h >= 1) by {
        assert(grow_h(mid, pw, ph, i, j, w, f, 1) >= 1) by {
            lemma_grow_h_ge(mid, pw, ph, i, j, w, f, 1);
        }
    }
    assert forall|k: int| t + 1 <= k < t + w implies (#[trigger] after[k]) is None by {
        lemma_flat(k - j * pw, j, pw);
    }
    lemma_scan_skip(after, pw, ph, t + 1, t + w, d, plane);
}

proof fn lemma_grow_h_ge(m: Seq<Option<FaceCell>>, pw: int, ph: int, i: int, j: int, w: int, f: FaceCell, h: int)
    ensures
        grow_h(m, pw, ph, i, j, w, f, h) >= h,
    decreases ph - j - h,
{
    if j + h < ph && row_matches(m, pw, i, j + h, w, f) {
        lemma_grow_h_ge(m, pw, ph, i, j, w, f, h + 1);
    }
}

proof fn lemma_rects_apart_push(rs: Seq<QuadRect>, x: QuadRect)
    requires
        rects_apart(rs),
        forall|k: int|
            0 <= k < rs.len() && (#[trigger] rs[k]).d == x.d && rs[k].plane == x.plane ==> rects_disjoint(
                rs[k],
                x,
            ),
    ensures
        rects_apart(rs.push(x)),
{
    let r2 = rs.push(x);
    assert forall|k1: int, k2: int|
        0 <= k1 < k2 < r2.len() && (#[trigger] r2[k1]).d == (#[trigger] r2[k2]).d && r2[k1].plane
            == r2[k2].plane implies rects_disjoint(r2[k1], r2[k2]) by {
        if k2 < rs.len() {
            assert(r2[k1] == rs[k1] && r2[k2] == rs[k2]);
        } else {
            assert(r2[k1] == rs[k1]);
        }
    }
}

/// Grows a rectangle of cells holding `cell` from `(i, j)`: first along the row while
/// the next cell holds the same face, then row by row while the whole next row
/// segment does. Returns its width and height.
fn grow_rect(mask: &Vec<Option<FaceCell>>, pw: usize, ph: usize, i: usize, j: usize, cell: FaceCell) -> (r: (
    usize,
    usize,
))
    requires
        mask@.len() == pw * ph,
        0 < pw <= 128,
        0 < ph <= 128,
        pw * ph <= 2048,
        i < pw,
        j < ph,
        mask@[i + j * pw] == Some(cell),
    ensures
        1 <= r.0,
        i + r.0 <= pw,
        1 <= r.1,
        j + r.1 <= ph,
        forall|a: int, b: int|
            i <= a < i + r.0 && j <= b < j + r.1 ==> #[trigger] mask_cell(mask@, pw as int, a, b) == Some(
                cell,
            ),
        r.0 == grow_w(mask@, pw as int, i as int, j as int, cell, 1),
        r.1 == grow_h(mask@, pw as int, ph as int, i as int, j as int, r.0 as int, cell, 1),
{
    let mut w: usize = 1;
    let mut growing = true;
    while growing && i + w < pw
        invariant
            !growing ==> i + w < pw && mask_cell(mask@, pw as int, (i + w) as int, j as int) != Some(cell),
            1 <= w,
            i + w <= pw,
            j < ph,
            mask@.len() == pw * ph,
            0 < pw <= 128,
            pw * ph <= 2048,
            forall|a: int| i <= a < i + w ==> #[trigger] mask_cell(mask@, pw as int, a, j as int) == Some(cell),
            grow_w(mask@, pw as int, i as int, j as int, cell, 1) == grow_w(
                mask@,
                pw as int,
                i as int,
                j as int,
                cell,
                w as int,
            ),
        decreases pw - i - w + (if growing {
            1int
        } else {
            0int
        }),
    {
        proof {
            lemma_cell_index((i + w) as int, j as int, pw as int, ph as int);
        }
        let idx2 = (i + w) + j * pw;
        if same_face(mask[idx2], cell) {
            assert(mask_cell(mask@, pw as int, (i + w) as int, j as int) == Some(cell));
            w = w + 1;
        } else {
            growing = false;
        }
    }
    assert(grow_w(mask@, pw as int, i as int, j as int, cell, w as int) == w);
    let mut h: usize = 1;
    let mut growing = true;
    while growing && j + h < ph
        invariant
            !growing ==> j + h < ph && !row_matches(mask@, pw as int, i as int, (j + h) as int, w as int, cell),
            1 <= h,
            j + h <= ph,
            i + w <= pw,
            1 <= w,
            mask@.len() == pw * ph,
            0 < pw <= 128,
            pw * ph <= 2048,
            forall|a: int, b: int|
                i <= a < i + w && j <= b < j + h ==> #[trigger] mask_cell(mask@, pw as int, a, b) == Some(
                    cell,
                ),
            grow_h(mask@, pw as int, ph as int, i as int, j as int, w as int, cell, 1) == grow_h(
                mask@,
                pw as int,
                ph as int,
                i as int,
                j as int,
                w as int,
                cell,
                h as int,
            ),
        decreases ph - j - h + (if growing {
            1int
        } else {
            0int
        }),
    {
        let mut matches_row = true;
        let mut k: usize = 0;
        while k < w && matches_row
            invariant
                0 <= k <= w,
                i + w <= pw,
                j + h < ph,
                mask@.len() == pw * ph,
                0 < pw <= 128,
                pw * ph <= 2048,
                forall|a: int| i <= a < i + k ==> #[trigger] mask_cell(mask@, pw as int, a, (j + h) as int) == Some(
                    cell,
                ),
                !matches_row ==> !row_matches(mask@, pw as int, i as int, (j + h) as int, w as int, cell),
            decreases w - k + (if matches_row {
                1int
            } else {
                0int
            }),
        {
            proof {
                lemma_cell_index((i + k) as int, (j + h) as int, pw as int, ph as int);
            }
            let idx3 = (i + k) + (j + h) * pw;
            if !same_face(mask[idx3], cell) {
                matches_row = false;
                assert(mask_cell(mask@, pw as int, (i + k) as int, (j + h) as int) != Some(cell));
            } else {
                assert(mask_cell(mask@, pw as int, (i + k) as int, (j + h) as int) == Some(cell));
                k = k + 1;
            }
        }
        if !matches_row {
            growing = false;
        } else {
            assert(row_matches(mask@, pw as int, i as int, (j + h) as int, w as int, cell));
            h = h + 1;
        }
    }
    assert(grow_h(mask@, pw as int, ph as int, i as int, j as int, w as int, cell, h as int) == h);
    (w, h)
}

/// Clears the rectangle of `w` by `h` cells at `(i, j)` of the mask.
fn clear_rect(mask: &mut Vec<Option<FaceCell>>, pw: usize, ph: usize, i: usize, j: usize, w: usize, h: usize)
    requires
        old(mask)@.len() == pw * ph,
        0 < pw <= 128,
        0 < ph <= 128,
        pw * ph <= 2048,
        1 <= w,
        1 <= h,
        i + w <= pw,
        j + h <= ph,
    ensures
        final(mask)@.len() == old(mask)@.len(),
        forall|t: int|
            0 <= t < old(mask)@.len() ==> #[trigger] final(mask)@[t] == if in_rect(
                t,
                pw as int,
                i as int,
                j as int,
                w as int,
                h as int,
            ) {
                None
            } else {
                old(mask)@[t]
            },
        count_some(final(mask)@, final(mask)@.len() as int) <= count_some(
            old(mask)@,
            old(mask)@.len() as int,
        ),
        old(mask)@[i + j * pw] is Some ==> count_some(final(mask)@, final(mask)@.len() as int)
            < count_some(old(mask)@, old(mask)@.len() as int),
{
    let ghost before = mask@;
    let ghost area = (pw * ph) as int;
    proof {
        lemma_cell_index(i as int, j as int, pw as int, ph as int);
    }
    let mut y: usize = 0;
    while y < h
        invariant
            0 <= y <= h,
            1 <= w,
            i + w <= pw,
            j + h <= ph,
            0 < pw <= 128,
            pw * ph <= 2048,
            area == pw * ph,
            mask@.len() == area,
            before.len() == area,
            0 <= i + j * pw < area,
            forall|t: int|
                0 <= t < area ==> #[trigger] mask@[t] == if i <= t % (pw as int) < i + w && j <= t
                    / (pw as int) < j + y {
                    None
                } else {
                    before[t]
                },
            count_some(mask@, area) <= count_some(before, area),
            y > 0 && before[i + j * pw] is Some ==> count_some(mask@, area) < count_some(before, area),
        decreases h - y,
    {
        let mut x: usize = 0;
        while x < w
            invariant
                0 <= x <= w,
                0 <= y < h,
                1 <= w,
                i + w <= pw,
                j + h <= ph,
                0 < pw <= 128,
                pw * ph <= 2048,
                area == pw * ph,
                mask@.len() == area,
                before.len() == area,
                0 <= i + j * pw < area,
                forall|t: int|
                    0 <= t < area ==> #[trigger] mask@[t] == if i <= t % (pw as int) < i + w && (j
                        <= t / (pw as int) < j + y || (t / (pw as int) == j + y && t % (pw as int)
                        < i + x)) {
                        None
                    } else {
                        before[t]
                    },
                count_some(mask@, area) <= count_some(before, area),
                (y > 0 || x > 0) && before[i + j * pw] is Some ==> count_some(mask@, area)
                    < count_some(before, area),
            decreases w - x,
        {
            let ghost t0 = ((i + x) + (j + y) * pw) as int;
            proof {
                lemma_cell_index((i + x) as int, (j + y) as int, pw as int, ph as int);
                lemma_flat((i + x) as int, (j + y) as int, pw as int);
                lemma_flat(i as int, j as int, pw as int);
                lemma_count_clear(mask@, t0, area);
                if y == 0 && x == 0 {
                    assert(mask@[t0] == before[t0]);
                }
            }
            let idx4 = (i + x) + (j + y) * pw;
            let ghost pre = mask@;
            mask.set(idx4, None);
            proof {
                assert forall|t: int| 0 <= t < area implies #[trigger] mask@[t] == if i <= t % (
                    pw as int) < i + w && (j <= t / (pw as int) < j + y || (t / (pw as int) == j + y
                    && t % (pw as int) < i + x + 1)) {
                    None
                } else {
                    before[t]
                } by {
                    let pwi = pw as int;
                    assert(t == t % pwi + (t / pwi) * pwi) by (nonlinear_arith)
                        requires
                            pwi > 0,
                    ;
                    if t % pwi == i + x && t / pwi == j + y {
                        assert(t == t0);
                    } else {
                        assert(t != t0);
                        assert(mask@[t] == pre[t]);
                    }
                }
            }
            x = x + 1;
        }
        y = y + 1;
    }
}

/// Appends the rectangle of `w` by `h` faces at `(i, j)` of the plane between slices
/// `slice` and `slice + 1` of axis `d` as one quad.
#[verifier::rlimit(50)]
fn emit_rect(
    chunk: &ChunkData,
    registry: &VoxelRegistry,
    out: &mut MeshData,
    d: usize,
    slice: i32,
    i: i32,
    j: i32,
    w: i32,
    h: i32,
    cell: FaceCell,
)
    requires
        old(out).wf(),
        old(out).within_chunk(),
        old(out).quad_count() < 1_000_000,
        d < 3,
        -1 <= slice < dim(d as int),
        0 <= i,
        0 <= j,
        1 <= w,
        1 <= h,
        i + w <= plane_w(d as int),
        j + h <= plane_h(d as int),
        rect_on_faces(*chunk, *registry, d, slice as int, i, j, w, h, cell),
        cell.normal_sign == 1 || cell.normal_sign == -1,
    ensures
        final(out).wf(),
        final(out).within_chunk(),
        final(out).quad_count() == old(out).quad_count() + 1,
        extends(*final(out), *old(out)),
        quad_at(*final(out), old(out).quad_count() as int, d, (slice + 1) as i32, i, j, w, h, cell.normal_sign),
        quad_on_faces(*chunk, *registry, *final(out), old(out).quad_count() as int),
        forall|q: int| #[trigger] quad_on_faces(*chunk, *registry, *old(out), q) ==> quad_on_faces(*chunk, *registry, *final(out), q),
        forall|dd: usize, s: int, a: int, b: int|
            #[trigger] face_covered(*chunk, *registry, *old(out), dd, s, a, b) ==> face_covered(*chunk, *registry, *final(out), dd, s, a, b),
        forall|rs: Seq<QuadRect>|
            #[trigger] quads_are(*old(out), rs) ==> quads_are(
                *final(out),
                rs.push(
                    QuadRect { d, plane: (slice + 1) as i32, i, j, w, h, sign: cell.normal_sign },
                ),
            ),
{
    let ghost pre_out = *out;
    let plane = slice + 1;
    emit_quad(out, d, plane, i, j, w, h, cell.normal_sign);
    proof {
        let qn = pre_out.quad_count() as int;
        lemma_quad_in_box(d, plane, i, j, w, h, cell.normal_sign);
        let qp = quad_positions(d, plane, i, j, w, h, cell.normal_sign);
        assert forall|k: int| 0 <= k < out.positions@.len() implies crate::mesh::in_chunk_box(
            #[trigger] out.positions@[k],
        ) && crate::mesh::axis_normal(out.normals@[k]) by {
            if k >= pre_out.positions@.len() {
                assert(out.positions@[k] == qp[k - pre_out.positions@.len()]);
                assert(out.normals@[k] == seq![axis_point_i32(d, cell.normal_sign as i32, 0, 0); 4][k
                    - pre_out.normals@.len()]);
            } else {
                assert(out.positions@[k] == pre_out.positions@[k]);
                assert(out.normals@[k] == pre_out.normals@[k]);
            }
        }
        assert(out.positions@.subrange(0, pre_out.positions@.len() as int) =~= pre_out.positions@);
        assert(out.normals@.subrange(0, pre_out.normals@.len() as int) =~= pre_out.normals@);
        assert(out.uvs@.subrange(0, pre_out.uvs@.len() as int) =~= pre_out.uvs@);
        lemma_extends_keeps_quads(*chunk, *registry, pre_out, *out);
        assert(out.positions@.subrange(4 * qn, 4 * qn + 4) =~= qp);
        assert(out.normals@.subrange(4 * qn, 4 * qn + 4) =~= seq![axis_point_i32(d, cell.normal_sign as i32, 0, 0); 4]);
        assert(out.uvs@.subrange(4 * qn, 4 * qn + 4) =~= quad_uvs(w, h, cell.normal_sign));
        assert(quad_at(*out, qn, d, plane, i, j, w, h, cell.normal_sign));
        assert(rect_on_faces(*chunk, *registry, d, (plane - 1) as int, i, j, w, h, cell));
        let x = QuadRect { d, plane, i, j, w, h, sign: cell.normal_sign };
        assert forall|rs: Seq<QuadRect>| #[trigger] quads_are(pre_out, rs) implies quads_are(
            *out,
            rs.push(x),
        ) by {
            assert forall|q: int| 0 <= q < rs.push(x).len() implies quad_is(*out, q, #[trigger] rs.push(x)[q]) by {
                if q < rs.len() {
                    assert(quad_is(pre_out, q, rs[q]));
                    assert(out.positions@.subrange(4 * q, 4 * q + 4) =~= pre_out.positions@.subrange(
                        4 * q,
                        4 * q + 4,
                    ));
                    assert(out.normals@.subrange(4 * q, 4 * q + 4) =~= pre_out.normals@.subrange(
                        4 * q,
                        4 * q + 4,
                    ));
                    assert(out.uvs@.subrange(4 * q, 4 * q + 4) =~= pre_out.uvs@.subrange(
                        4 * q,
                        4 * q + 4,
                    ));
                }
            }
        }
    }
}

/// Greedily merges the faces of `mask` into rectangles, row by row; each rectangle
/// becomes one quad at plane `slice + 1` of axis `d`, and its cells are cleared.
#[verifier::rlimit(100)]
#[verifier::spinoff_prover]
fn merge_slice(
    chunk: &ChunkData,
    registry: &VoxelRegistry,
    mask: &mut Vec<Option<FaceCell>>,
    out: &mut MeshData,
    d: usize,
    slice: i32,
    Ghost(rs0): Ghost<Seq<QuadRect>>,
) -> (rs: Ghost<Seq<QuadRect>>)
    requires
        chunk.wf(),
        registry.wf(),
        d < 3,
        -1 <= slice < dim(d as int),
        quads_are(*old(out), rs0),
        rects_apart(rs0),
        forall|k: int|
            0 <= k < rs0.len() ==> plane_key((#[trigger] rs0[k]).d as int, rs0[k].plane as int)
                < plane_key(d as int, slice + 1),
        old(mask)@.len() == plane_w(d as int) * plane_h(d as int),
        forall|t: int|
            0 <= t < old(mask)@.len() ==> #[trigger] old(mask)@[t] == face_spec(
                *chunk,
                *registry,
                d as int,
                slice as int,
                t % plane_w(d as int),
                t / plane_w(d as int),
            ),
        old(out).wf(),
        old(out).within_chunk(),
        old(out).quad_count() + 2048 < 1_000_000,
    ensures
        final(mask)@.len() == old(mask)@.len(),
        final(out).wf(),
        final(out).within_chunk(),
        extends(*final(out), *old(out)),
        quads_are(*final(out), rs@),
        rects_apart(rs@),
        rs0.len() <= rs@.len(),
        rs@.subrange(0, rs0.len() as int) == rs0,
        forall|k: int|
            rs0.len() <= k < rs@.len() ==> (#[trigger] rs@[k]).d == d && rs@[k].plane == slice + 1,
        rs@ == rs0 + slice_rects(*chunk, *registry, d, slice as int),
        final(out).quad_count() >= old(out).quad_count(),
        final(out).quad_count() - old(out).quad_count() <= count_some(
            old(mask)@,
            old(mask)@.len() as int,
        ),
        (final(out).quad_count() == old(out).quad_count()) == (count_some(
            old(mask)@,
            old(mask)@.len() as int,
        ) == 0),
        forall|q: int|
            old(out).quad_count() <= q < final(out).quad_count() ==> #[trigger] quad_on_faces(
                *chunk,
                *registry,
                *final(out),
                q,
            ),
        forall|a: int, b: int|
            0 <= a < plane_w(d as int) && 0 <= b < plane_h(d as int) && (#[trigger] face_spec(
                *chunk,
                *registry,
                d as int,
                slice as int,
                a,
                b,
            )) is Some ==> face_covered(*chunk, *registry, *final(out), d, slice as int, a, b),
{
    let pw = axis_len((d + 1) % 3);
    let ph = axis_len((d + 2) % 3);
    let ghost area = (pw * ph) as int;
    let ghost m0 = mask@;
    let ghost q0 = out.quad_count();
    let ghost out0 = *out;
    let ghost c0 = count_some(m0, area);
    proof {
        lemma_count_bound(m0, area);
        if d == 0 {
            assert(pw == 128 && ph == 16);
            assert(pw * ph == 2048) by (nonlinear_arith)
                requires
                    pw == 128,
                    ph == 16,
            ;
        } else if d == 1 {
            assert(pw == 16 && ph == 16);
            assert(pw * ph == 256) by (nonlinear_arith)
                requires
                    pw == 16,
                    ph == 16,
            ;
        } else {
            assert(pw == 16 && ph == 128);
            assert(pw * ph == 2048) by (nonlinear_arith)
                requires
                    pw == 16,
                    ph == 128,
            ;
        }
        assert(out0.positions@.subrange(0, out0.positions@.len() as int) =~= out0.positions@);
        assert(out0.normals@.subrange(0, out0.normals@.len() as int) =~= out0.normals@);
        assert(out0.uvs@.subrange(0, out0.uvs@.len() as int) =~= out0.uvs@);
        assert(rs0.subrange(0, rs0.len() as int) =~= rs0);
    }
    let ghost mut rs = rs0;
    let ghost mut done = Seq::<QuadRect>::empty();
    assert(0 * (pw as int) == 0);
    let ghost plane32 = (slice + 1) as i32;
    proof {
        assert(m0 =~= mask_spec(*chunk, *registry, d as int, slice as int));
        assert(rs == rs0 + done);
        assert(done + scan_rects(mask@, pw as int, ph as int, 0, d, plane32) =~= scan_rects(
            m0,
            pw as int,
            ph as int,
            0,
            d,
            plane32,
        ));
    }
    let mut j: usize = 0;
    while j < ph
        invariant
            pw as int == plane_w(d as int),
            ph as int == plane_h(d as int),
            area == pw * ph,
            area <= 2048,
            mask@.len() == area,
            m0.len() == area,
            0 <= j <= ph,
            d < 3,
            -1 <= slice < dim(d as int),
            chunk.wf(),
            registry.wf(),
            out.wf(),
            out.within_chunk(),
            extends(*out, out0),
            q0 == out0.quad_count(),
            q0 + 2048 < 1_000_000,
            c0 == count_some(m0, area),
            c0 <= area,
            out.quad_count() >= q0,
            out.quad_count() - q0 + count_some(mask@, area) <= c0,
            out.quad_count() == q0 ==> mask@ == m0,
            forall|t: int|
                0 <= t < area ==> #[trigger] m0[t] == face_spec(
                    *chunk,
                    *registry,
                    d as int,
                    slice as int,
                    t % plane_w(d as int),
                    t / plane_w(d as int),
                ),
            forall|t: int| 0 <= t < area && (#[trigger] mask@[t]) is Some ==> mask@[t] == m0[t],
            forall|t: int| 0 <= t < j * pw ==> (#[trigger] mask@[t]) is None,
            forall|t: int|
                0 <= t < area && (#[trigger] m0[t]) is Some && mask@[t] is None ==> face_covered(
                    *chunk,
                    *registry,
                    *out,
                    d,
                    slice as int,
                    t % plane_w(d as int),
                    t / plane_w(d as int),
                ),
            forall|q: int|
                q0 <= q < out.quad_count() ==> #[trigger] quad_on_faces(*chunk, *registry, *out, q),
            quads_are(*out, rs),
            rects_apart(rs),
            rs == rs0 + done,
            plane32 == (slice + 1) as i32,
            done + scan_rects(mask@, pw as int, ph as int, j * pw, d, plane32) == scan_rects(
                m0,
                pw as int,
                ph as int,
                0,
                d,
                plane32,
            ),
            rs0.len() <= rs.len(),
            rs.subrange(0, rs0.len() as int) == rs0,
            forall|k: int|
                0 <= k < rs0.len() ==> plane_key((#[trigger] rs0[k]).d as int, rs0[k].plane as int)
                    < plane_key(d as int, slice + 1),
            forall|k: int|
                rs0.len() <= k < rs.len() ==> (#[trigger] rs[k]).d == d && rs[k].plane == slice + 1
                    && forall|a: int, b: int|
                    rs[k].i <= a < rs[k].i + rs[k].w && rs[k].j <= b < rs[k].j + rs[k].h
                        ==> #[trigger] mask_cell(mask@, pw as int, a, b) is None,
        decreases ph - j,
    {
        let mut i: usize = 0;
        while i < pw
            invariant
                pw as int == plane_w(d as int),
                ph as int == plane_h(d as int),
                area == pw * ph,
                area <= 2048,
                mask@.len() == area,
                m0.len() == area,
                0 <= j < ph,
                0 <= i <= pw,
                d < 3,
                -1 <= slice < dim(d as int),
                chunk.wf(),
                registry.wf(),
                out.wf(),
                out.within_chunk(),
                extends(*out, out0),
                q0 == out0.quad_count(),
                q0 + 2048 < 1_000_000,
                c0 == count_some(m0, area),
                c0 <= area,
                out.quad_count() >= q0,
                out.quad_count() - q0 + count_some(mask@, area) <= c0,
                out.quad_count() == q0 ==> mask@ == m0,
                forall|t: int|
                    0 <= t < area ==> #[trigger] m0[t] == face_spec(
                        *chunk,
                        *registry,
                        d as int,
                        slice as int,
                        t % plane_w(d as int),
                        t / plane_w(d as int),
                    ),
                forall|t: int| 0 <= t < area && (#[trigger] mask@[t]) is Some ==> mask@[t] == m0[t],
                forall|t: int| 0 <= t < i + j * pw ==> (#[trigger] mask@[t]) is None,
                forall|t: int|
                    0 <= t < area && (#[trigger] m0[t]) is Some && mask@[t] is None ==> face_covered(
                        *chunk,
                        *registry,
                        *out,
                        d,
                        slice as int,
                        t % plane_w(d as int),
                        t / plane_w(d as int),
                    ),
                forall|q: int|
                    q0 <= q < out.quad_count() ==> #[trigger] quad_on_faces(*chunk, *registry, *out, q),
                quads_are(*out, rs),
                rects_apart(rs),
                rs == rs0 + done,
                plane32 == (slice + 1) as i32,
                done + scan_rects(mask@, pw as int, ph as int, i + j * pw, d, plane32) == scan_rects(
                    m0,
                    pw as int,
                    ph as int,
                    0,
                    d,
                    plane32,
                ),
                rs0.len() <= rs.len(),
                rs.subrange(0, rs0.len() as int) == rs0,
                forall|k: int|
                    0 <= k < rs0.len() ==> plane_key((#[trigger] rs0[k]).d as int, rs0[k].plane as int)
                        < plane_key(d as int, slice + 1),
                forall|k: int|
                    rs0.len() <= k < rs.len() ==> (#[trigger] rs[k]).d == d && rs[k].plane == slice + 1
                        && forall|a: int, b: int|
                        rs[k].i <= a < rs[k].i + rs[k].w && rs[k].j <= b < rs[k].j + rs[k].h
                                ==> #[trigger] mask_cell(mask@, pw as int, a, b) is None,
            decreases pw - i,
        {
            proof {
                lemma_cell_index(i as int, j as int, pw as int, ph as int);
            }
            let idx = i + j * pw;
            let entry = mask[idx];
            if entry.is_none() {
                proof {
                    assert(scan_rects(mask@, pw as int, ph as int, (i + j * pw) as int, d, plane32)
                        == scan_rects(mask@, pw as int, ph as int, i + 1 + j * pw, d, plane32));
                }
                i = i + 1;
                continue;
            }
            let cell = entry.unwrap();
            proof {
                lemma_flat(i as int, j as int, pw as int);
                assert(m0[idx as int] == Some(cell));
            }
            let (w, h) = grow_rect(mask, pw, ph, i, j, cell);
            let plane = slice + 1;
            proof {
                lemma_count_bound(mask@, area);
            }
            let ghost qn = out.quad_count() as int;
            proof {
                assert forall|a: int, b: int| i <= a < i + w && j <= b < j + h implies #[trigger] face_spec(
                    *chunk,
                    *registry,
                    d as int,
                    slice as int,
                    a,
                    b,
                ) == Some(cell) by {
                    assert(mask_cell(mask@, pw as int, a, b) == Some(cell));
                    lemma_cell_index(a, b, pw as int, ph as int);
                    lemma_flat(a, b, pw as int);
                    assert(m0[a + b * pw] == face_spec(*chunk, *registry, d as int, slice as int, a, b));
                }
            }
            let ghost pre_out = *out;
            let ghost x = QuadRect {
                d,
                plane: (slice + 1) as i32,
                i: i as i32,
                j: j as i32,
                w: w as i32,
                h: h as i32,
                sign: cell.normal_sign,
            };
            proof {
                assert forall|k: int| 0 <= k < rs.len() && (#[trigger] rs[k]).d == x.d && rs[k].plane
                    == x.plane implies rects_disjoint(rs[k], x) by {
                    if k < rs0.len() {
                        assert(rs0[k] == rs[k]);
                        assert(plane_key(rs[k].d as int, rs[k].plane as int) < plane_key(d as int, slice + 1));
                    } else if !rects_disjoint(rs[k], x) {
                        let a = if rs[k].i > x.i { rs[k].i as int } else { x.i as int };
                        let b = if rs[k].j > x.j { rs[k].j as int } else { x.j as int };
                        assert(mask_cell(mask@, pw as int, a, b) is None);
                        assert(mask_cell(mask@, pw as int, a, b) == Some(cell));
                    }
                }
            }
            emit_rect(chunk, registry, out, d, slice, i as i32, j as i32, w as i32, h as i32, cell);
            proof {
                lemma_extends_trans(out0, pre_out, *out);
                assert forall|q: int| q0 <= q < out.quad_count() implies #[trigger] quad_on_faces(
                    *chunk,
                    *registry,
                    *out,
                    q,
                ) by {
                    if q < qn {
                        assert(quad_on_faces(*chunk, *registry, pre_out, q));
                    }
                }
            }
            let ghost mid = mask@;
            clear_rect(mask, pw, ph, i, j, w, h);
            proof {
                let t = (i + j * pw) as int;
                assert(mask@ =~= clear_spec(mid, pw as int, i as int, j as int, w as int, h as int));
                lemma_scan_step(mid, mask@, pw as int, ph as int, i as int, j as int, w as int, h as int, cell, d, plane32);
                assert(done.push(x) + scan_rects(mask@, pw as int, ph as int, t + w, d, plane32) =~= done
                    + scan_rects(mid, pw as int, ph as int, t, d, plane32));
                done = done.push(x);
                let rs_old = rs;
                rs = rs.push(x);
                assert(rs =~= rs0 + done);
                assert(quads_are(pre_out, rs_old));
                assert(rs.subrange(0, rs0.len() as int) =~= rs_old.subrange(0, rs0.len() as int));
                lemma_rects_apart_push(rs_old, x);
                assert forall|k: int| rs0.len() <= k < rs.len() implies (#[trigger] rs[k]).d == d
                    && rs[k].plane == slice + 1 && forall|a: int, b: int|
                    rs[k].i <= a < rs[k].i + rs[k].w && rs[k].j <= b < rs[k].j + rs[k].h
                        ==> #[trigger] mask_cell(mask@, pw as int, a, b) is None by {
                    assert forall|a: int, b: int|
                        rs[k].i <= a < rs[k].i + rs[k].w && rs[k].j <= b < rs[k].j + rs[k].h
                            implies #[trigger] mask_cell(mask@, pw as int, a, b) is None by {
                        lemma_cell_index(a, b, pw as int, ph as int);
                        lemma_flat(a, b, pw as int);
                        if k < rs_old.len() {
                            assert(rs[k] == rs_old[k]);
                            assert(mask_cell(mid, pw as int, a, b) is None);
                        }
                    }
                }
                assert forall|t: int|
                    0 <= t < area && (#[trigger] m0[t]) is Some && mask@[t] is None implies face_covered(
                        *chunk,
                        *registry,
                        *out,
                        d,
                        slice as int,
                        t % plane_w(d as int),
                        t / plane_w(d as int),
                    ) by {
                    if in_rect(t, pw as int, i as int, j as int, w as int, h as int) {
                        let a = t % (pw as int);
                        let b = t / (pw as int);
                        assert(quad_at(*out, qn, d, (slice + 1) as i32, i as i32, j as i32, w as i32, h as i32, cell.normal_sign));
                        assert(rect_on_faces(*chunk, *registry, d, slice as int, i as i32, j as i32, w as i32, h as i32, cell));
                        assert(i <= a < i + w && j <= b < j + h);
                    } else {
                        assert(mask@[t] == mid[t]);
                    }
                }
                assert forall|t: int| 0 <= t < i + w + j * pw implies (#[trigger] mask@[t]) is None by {
                    if t >= i + j * pw {
                        lemma_flat(t - j * pw, j as int, pw as int);
                    }
                }
            }
            assert(i + w + j * pw == (i + j * pw) + w);
            i = i + w;
        }
        proof {
            lemma_next_row(j as int, pw as int);
        }
        j = j + 1;
    }
    proof {
        assert(scan_rects(mask@, pw as int, ph as int, ph * pw, d, plane32) =~= Seq::<QuadRect>::empty());
        assert(done =~= scan_rects(m0, pw as int, ph as int, 0, d, plane32));
        assert(rs =~= rs0 + slice_rects(*chunk, *registry, d, slice as int));
        if out.quad_count() == q0 {
            lemma_count_none(m0, area);
        }
        assert forall|a: int, b: int|
            0 <= a < plane_w(d as int) && 0 <= b < plane_h(d as int) && (#[trigger] face_spec(
                *chunk,
                *registry,
                d as int,
                slice as int,
                a,
                b,
            )) is Some implies face_covered(*chunk, *registry, *out, d, slice as int, a, b) by {
            lemma_cell_index(a, b, pw as int, ph as int);
            lemma_flat(a, b, pw as int);
            let t = a + b * pw;
            assert(m0[t] == face_spec(*chunk, *registry, d as int, slice as int, a, b));
            assert(mask@[t] is None);
        }
    }
    Ghost(rs)
}

/// Meshes every plane of axis `axis`, from the outer boundary at slice `-1` to the
/// one at slice `dim(axis) - 1`, appending the quads to `out`.
fn mesh_axis(
    chunk: &ChunkData,
    registry: &VoxelRegistry,
    axis: usize,
    out: &mut MeshData,
    Ghost(rs0): Ghost<Seq<QuadRect>>,
) -> (rs: Ghost<Seq<QuadRect>>)
    requires
        axis < 3,
        quads_are(*old(out), rs0),
        rects_apart(rs0),
        forall|k: int|
            0 <= k < rs0.len() ==> plane_key((#[trigger] rs0[k]).d as int, rs0[k].plane as int)
                < plane_key(axis as int, 0),
        chunk.wf(),
        registry.wf(),
        old(out).wf(),
        old(out).within_chunk(),
        old(out).quad_count() <= 528384,
    ensures
        final(out).wf(),
        final(out).within_chunk(),
        final(out).quad_count() >= old(out).quad_count(),
        final(out).quad_count() - old(out).quad_count() <= axis_faces_upto(
            *chunk,
            *registry,
            axis as int,
            dim(axis as int) + 1,
        ),
        (final(out).quad_count() == old(out).quad_count()) == (axis_faces_upto(
            *chunk,
            *registry,
            axis as int,
            dim(axis as int) + 1,
        ) == 0),
        axis_faces_upto(*chunk, *registry, axis as int, dim(axis as int) + 1) <= 264192,
        extends(*final(out), *old(out)),
        quads_are(*final(out), rs@),
        rects_apart(rs@),
        rs@ == rs0 + axis_rects(*chunk, *registry, axis, dim(axis as int) + 1),
        forall|k: int|
            0 <= k < rs@.len() ==> plane_key((#[trigger] rs@[k]).d as int, rs@[k].plane as int)
                < plane_key(axis as int + 1, 0),
        forall|q: int|
            old(out).quad_count() <= q < final(out).quad_count() ==> #[trigger] quad_on_faces(
                *chunk,
                *registry,
                *final(out),
                q,
            ),
        forall|s: int, a: int, b: int|
            -1 <= s < dim(axis as int) && 0 <= a < plane_w(axis as int) && 0 <= b < plane_h(
                axis as int,
            ) && (#[trigger] face_spec(*chunk, *registry, axis as int, s, a, b)) is Some
                ==> face_covered(*chunk, *registry, *final(out), axis, s, a, b),
{
    let pw = axis_len((axis + 1) % 3);
    let ph = axis_len((axis + 2) % 3);
    let len = axis_len(axis);
    let ghost q0 = out.quad_count();
    let ghost out0 = *out;
    let ghost mut rs = rs0;
    proof {
        assert(rs0 + axis_rects(*chunk, *registry, axis, 0) =~= rs0);
        assert(out0.positions@.subrange(0, out0.positions@.len() as int) =~= out0.positions@);
        assert(out0.normals@.subrange(0, out0.normals@.len() as int) =~= out0.normals@);
        assert(out0.uvs@.subrange(0, out0.uvs@.len() as int) =~= out0.uvs@);
        if axis == 0 {
            assert(pw == 128 && ph == 16);
            assert(pw * ph == 2048) by (nonlinear_arith)
                requires
                    pw == 128,
                    ph == 16,
            ;
        } else if axis == 1 {
            assert(pw == 16 && ph == 16);
            assert(pw * ph == 256) by (nonlinear_arith)
                requires
                    pw == 16,
                    ph == 16,
            ;
        } else {
            assert(pw == 16 && ph == 128);
            assert(pw * ph == 2048) by (nonlinear_arith)
                requires
                    pw == 16,
                    ph == 128,
            ;
        }
    }
    let mut mask: Vec<Option<FaceCell>> = vec![None; pw * ph];
    let mut slice: i32 = -1;
    while slice < len as i32
        invariant
            0 <= axis < 3,
            len as int == dim(axis as int),
            pw as int == plane_w(axis as int),
            ph as int == plane_h(axis as int),
            pw * ph <= 2048,
            -1 <= slice <= len,
            chunk.wf(),
            registry.wf(),
            out.wf(),
            out.within_chunk(),
            mask@.len() == pw * ph,
            q0 <= 528384,
            out.quad_count() >= q0,
            out.quad_count() - q0 <= axis_faces_upto(*chunk, *registry, axis as int, slice + 1),
            (out.quad_count() == q0) == (axis_faces_upto(*chunk, *registry, axis as int, slice + 1)
                == 0),
            axis_faces_upto(*chunk, *registry, axis as int, slice + 1) <= 2048 * (slice + 1),
            q0 == out0.quad_count(),
            extends(*out, out0),
            quads_are(*out, rs),
            rects_apart(rs),
            rs == rs0 + axis_rects(*chunk, *registry, axis, slice + 1),
            forall|k: int|
                0 <= k < rs.len() ==> plane_key((#[trigger] rs[k]).d as int, rs[k].plane as int)
                    < plane_key(axis as int, slice + 1),
            forall|q: int|
                q0 <= q < out.quad_count() ==> #[trigger] quad_on_faces(*chunk, *registry, *out, q),
            forall|s: int, a: int, b: int|
                -1 <= s < slice && 0 <= a < plane_w(axis as int) && 0 <= b < plane_h(axis as int)
                    && (#[trigger] face_spec(*chunk, *registry, axis as int, s, a, b)) is Some
                    ==> face_covered(*chunk, *registry, *out, axis, s, a, b),
        decreases len - slice,
    {
        build_mask(chunk, registry, axis, slice, &mut mask);
        proof {
            lemma_count_bound(mask@, mask@.len() as int);
            assert(axis_faces_upto(*chunk, *registry, axis as int, slice + 2) == axis_faces_upto(
                *chunk,
                *registry,
                axis as int,
                slice + 1,
            ) + slice_faces(*chunk, *registry, axis as int, slice as int));
        }
        let ghost pre_out = *out;
        assert(out.quad_count() + 2048 < 1_000_000) by (nonlinear_arith)
            requires
                out.quad_count() - q0 <= axis_faces_upto(*chunk, *registry, axis as int, slice + 1),
                axis_faces_upto(*chunk, *registry, axis as int, slice + 1) <= 2048 * (slice + 1),
                slice < 128,
                q0 <= 528384,
        ;
        let ghost rs_pre = rs;
        let Ghost(rs_next) = merge_slice(chunk, registry, &mut mask, out, axis, slice, Ghost(rs));
        proof {
            rs = rs_next;
            assert(axis_rects(*chunk, *registry, axis, slice + 2) == axis_rects(
                *chunk,
                *registry,
                axis,
                slice + 1,
            ) + slice_rects(*chunk, *registry, axis, slice as int));
            assert(rs =~= rs0 + axis_rects(*chunk, *registry, axis, slice + 2));
            assert forall|k: int| 0 <= k < rs.len() implies plane_key(
                (#[trigger] rs[k]).d as int,
                rs[k].plane as int,
            ) < plane_key(axis as int, slice + 2) by {
                if k < rs_pre.len() {
                    assert(rs[k] == rs_next.subrange(0, rs_pre.len() as int)[k]);
                }
            }
            lemma_extends_trans(out0, pre_out, *out);
            lemma_extends_keeps_quads(*chunk, *registry, pre_out, *out);
            assert forall|q: int| q0 <= q < out.quad_count() implies #[trigger] quad_on_faces(
                *chunk,
                *registry,
                *out,
                q,
            ) by {
                if q < pre_out.quad_count() {
                    assert(quad_on_faces(*chunk, *registry, pre_out, q));
                }
            }
            assert forall|s: int, a: int, b: int|
                -1 <= s < slice + 1 && 0 <= a < plane_w(axis as int) && 0 <= b < plane_h(axis as int)
                    && (#[trigger] face_spec(*chunk, *registry, axis as int, s, a, b)) is Some
                    implies face_covered(*chunk, *registry, *out, axis, s, a, b) by {
                if s < slice {
                    assert(face_covered(*chunk, *registry, pre_out, axis, s, a, b));
                }
            }
        }
        slice = slice + 1;
    }
    Ghost(rs)
}

/// Turns a chunk into surface geometry: for each axis and each plane between two
/// slices (the outer boundary included, against the air around the chunk), the
/// faces at solid/non-solid transitions are merged greedily into quads: the quads are
/// exactly `greedy_rects`, in order, each with its side's unit normal at every corner
/// and texture coordinates spanning the quad. Every quad
/// lies on faces of one kind and faces the way they do, every face is covered by a
/// quad, no two quads of one plane overlap, all vertices lie in the chunk's box, and
/// the quad count never exceeds the number of unit faces and is zero exactly when
/// there are none.
pub fn greedy_mesh(chunk: &ChunkData, registry: &VoxelRegistry) -> (r: MeshData)
    requires
        chunk.wf(),
        registry.wf(),
    ensures
        r.wf(),
        r.within_chunk(),
        r.quad_count() <= total_faces(*chunk, *registry),
        (r.quad_count() == 0) == (total_faces(*chunk, *registry) == 0),
        forall|q: int| 0 <= q < r.quad_count() ==> #[trigger] quad_on_faces(*chunk, *registry, r, q),
        forall|d: usize, s: int, a: int, b: int|
            d < 3 && -1 <= s < dim(d as int) && 0 <= a < plane_w(d as int) && 0 <= b < plane_h(
                d as int,
            ) && (#[trigger] face_spec(*chunk, *registry, d as int, s, a, b)) is Some
                ==> face_covered(*chunk, *registry, r, d, s, a, b),
        quads_apart(r),
        quads_are(r, greedy_rects(*chunk, *registry)),
{
    let mut out = MeshData::new();
    let ghost mut rs = Seq::<QuadRect>::empty();
    assert(rs =~= rects_upto_axis(*chunk, *registry, 0));
    let mut axis: usize = 0;
    while axis < 3
        invariant
            0 <= axis <= 3,
            chunk.wf(),
            registry.wf(),
            out.wf(),
            out.within_chunk(),
            out.quad_count() <= faces_upto_axis(*chunk, *registry, axis as int),
            (out.quad_count() == 0) == (faces_upto_axis(*chunk, *registry, axis as int) == 0),
            faces_upto_axis(*chunk, *registry, axis as int) <= 264192 * axis,
            forall|q: int| 0 <= q < out.quad_count() ==> #[trigger] quad_on_faces(*chunk, *registry, out, q),
            forall|d: usize, s: int, a: int, b: int|
                d < axis && -1 <= s < dim(d as int) && 0 <= a < plane_w(d as int) && 0 <= b
                    < plane_h(d as int) && (#[trigger] face_spec(*chunk, *registry, d as int, s, a, b))
                    is Some ==> face_covered(*chunk, *registry, out, d, s, a, b),
            quads_are(out, rs),
            rects_apart(rs),
            rs == rects_upto_axis(*chunk, *registry, axis as int),
            forall|k: int|
                0 <= k < rs.len() ==> plane_key((#[trigger] rs[k]).d as int, rs[k].plane as int)
                    < plane_key(axis as int, 0),
        decreases 3 - axis,
    {
        let ghost pre_out = out;
        let Ghost(rs_next) = mesh_axis(chunk, registry, axis, &mut out, Ghost(rs));
        proof {
            rs = rs_next;
            assert(rs =~= rects_upto_axis(*chunk, *registry, axis + 1));
            lemma_extends_keeps_quads(*chunk, *registry, pre_out, out);
            assert forall|q: int| 0 <= q < out.quad_count() implies #[trigger] quad_on_faces(
                *chunk,
                *registry,
                out,
                q,
            ) by {
                if q < pre_out.quad_count() {
                    assert(quad_on_faces(*chunk, *registry, pre_out, q));
                }
            }
            assert forall|d: usize, s: int, a: int, b: int|
                d < axis + 1 && -1 <= s < dim(d as int) && 0 <= a < plane_w(d as int) && 0 <= b
                    < plane_h(d as int) && (#[trigger] face_spec(*chunk, *registry, d as int, s, a, b))
                    is Some implies face_covered(*chunk, *registry, out, d, s, a, b) by {
                if d < axis {
                    assert(face_covered(*chunk, *registry, pre_out, d, s, a, b));
                }
            }
        }
        assert(faces_upto_axis(*chunk, *registry, axis + 1) == faces_upto_axis(
            *chunk,
            *registry,
            axis as int,
        ) + axis_faces_upto(*chunk, *registry, axis as int, dim(axis as int) + 1));
        axis = axis + 1;
    }
    proof {
        lemma_quads_apart(out, rs);
    }
    out
}

} // verus!
