use vstd::prelude::*;

use crate::voxel::Voxel;

verus! {

/// Number of cells along x.
pub const CHUNK_WIDTH: i32 = 16;
/// Number of cells along y.
pub const CHUNK_HEIGHT: i32 = 128;
/// Number of cells along z.
pub const CHUNK_DEPTH: i32 = 16;
/// Cells in one horizontal layer (`CHUNK_WIDTH * CHUNK_DEPTH`).
pub const LAYER_SIZE: usize = 256;
/// Cells in a whole chunk (`CHUNK_WIDTH * CHUNK_HEIGHT * CHUNK_DEPTH`).
pub const CHUNK_VOLUME: usize = 32768;

/// Whether `(x, y, z)` names a cell of a chunk.
pub open spec fn in_bounds_spec(x: int, y: int, z: int) -> bool {
    0 <= x < CHUNK_WIDTH && 0 <= y < CHUNK_HEIGHT && 0 <= z < CHUNK_DEPTH
}

/// Position of cell `(x, y, z)` in the flat array: x varies fastest, then z, then y.
pub open spec fn index_spec(x: int, y: int, z: int) -> int {
    x + z * 16 + y * 256
}

/// The coordinates `(x, y, z)` stored at position `i` of the flat array.
pub open spec fn coords_of(i: int) -> (int, int, int) {
    (i % CHUNK_WIDTH as int, i / (LAYER_SIZE as int), (i / CHUNK_WIDTH as int) % CHUNK_DEPTH as int)
}

/// `v` clamped into `[lo, hi]`.
pub open spec fn clamp_spec(v: int, lo: int, hi: int) -> int {
    if v < lo {
        lo
    } else if v > hi {
        hi
    } else {
        v
    }
}

/// Index bijection: the flat index maps the cells of a chunk one-to-one onto
/// `0 .. CHUNK_VOLUME`, and `coords_of` is its inverse.
pub proof fn lemma_index_bijection()
    ensures
        forall|x: int, y: int, z: int|
            in_bounds_spec(x, y, z) ==> 0 <= #[trigger] index_spec(x, y, z) < CHUNK_VOLUME
                && coords_of(index_spec(x, y, z)) == (x, y, z),
        forall|i: int|
            0 <= i < CHUNK_VOLUME ==> in_bounds_spec(
                #[trigger] coords_of(i).0,
                coords_of(i).1,
                coords_of(i).2,
            ) && index_spec(coords_of(i).0, coords_of(i).1, coords_of(i).2) == i,
        forall|x1: int, y1: int, z1: int, x2: int, y2: int, z2: int|
            in_bounds_spec(x1, y1, z1) && in_bounds_spec(x2, y2, z2) && #[trigger] index_spec(
                x1,
                y1,
                z1,
            ) == #[trigger] index_spec(x2, y2, z2) ==> x1 == x2 && y1 == y2 && z1 == z2,
{
    assert forall|x: int, y: int, z: int| in_bounds_spec(x, y, z) implies 0 <= #[trigger] index_spec(
        x,
        y,
        z,
    ) < CHUNK_VOLUME && coords_of(index_spec(x, y, z)) == (x, y, z) by {
        let i = x + z * 16 + y * 256;
        assert(0 <= i < 32768) by (nonlinear_arith)
            requires
                0 <= x < 16,
                0 <= z < 16,
                0 <= y < 128,
                i == x + z * 16 + y * 256,
        ;
        assert(i % 16 == x && i / 256 == y && (i / 16) % 16 == z) by (nonlinear_arith)
            requires
                0 <= x < 16,
                0 <= z < 16,
                0 <= y < 128,
                i == x + z * 16 + y * 256,
        ;
    }
    assert forall|i: int| 0 <= i < CHUNK_VOLUME implies in_bounds_spec(
        #[trigger] coords_of(i).0,
        coords_of(i).1,
        coords_of(i).2,
    ) && index_spec(coords_of(i).0, coords_of(i).1, coords_of(i).2) == i by {
        let x = i % 16;
        let y = i / 256;
        let z = (i / 16) % 16;
        assert(0 <= x < 16 && 0 <= y < 128 && 0 <= z < 16 && x + z * 16 + y * 256 == i)
            by (nonlinear_arith)
            requires
                0 <= i < 32768,
                x == i % 16,
                y == i / 256,
                z == (i / 16) % 16,
        ;
    }
    assert forall|x1: int, y1: int, z1: int, x2: int, y2: int, z2: int|
        in_bounds_spec(x1, y1, z1) && in_bounds_spec(x2, y2, z2) && #[trigger] index_spec(
            x1,
            y1,
            z1,
        ) == #[trigger] index_spec(x2, y2, z2) implies x1 == x2 && y1 == y2 && z1 == z2 by {
        assert(coords_of(index_spec(x1, y1, z1)) == (x1, y1, z1));
        assert(coords_of(index_spec(x2, y2, z2)) == (x2, y2, z2));
    }
}

/// The cells of one chunk, stored densely.
pub struct ChunkData {
    pub voxels: Vec<Voxel>,
}

impl ChunkData {
    /// The array has exactly one entry per cell.
    pub open spec fn wf(&self) -> bool {
        self.voxels@.len() == CHUNK_VOLUME
    }

    /// The voxel at `(x, y, z)`; `Air` outside the chunk.
    pub open spec fn cell(&self, x: int, y: int, z: int) -> Voxel {
        if in_bounds_spec(x, y, z) {
            self.voxels@[index_spec(x, y, z)]
        } else {
            Voxel::Air
        }
    }

    /// A chunk made only of air.
    pub fn new() -> (r: ChunkData)
        ensures
            r.wf(),
            forall|i: int| 0 <= i < CHUNK_VOLUME ==> r.voxels@[i] == Voxel::Air,
    {
        ChunkData { voxels: vec![Voxel::Air; CHUNK_VOLUME] }
    }

    /// Position of an in-bounds cell in the flat array.
    pub fn index(x: i32, y: i32, z: i32) -> (r: usize)
        requires
            in_bounds_spec(x as int, y as int, z as int),
        ensures
            r as int == index_spec(x as int, y as int, z as int),
            r < CHUNK_VOLUME,
    {
        (x + z * 16 + y * 256) as usize
    }

    /// Whether `(x, y, z)` names a cell of a chunk.
    pub fn in_bounds(x: i32, y: i32, z: i32) -> (r: bool)
        ensures
            r == in_bounds_spec(x as int, y as int, z as int),
    {
        0 <= x && x < CHUNK_WIDTH && 0 <= y && y < CHUNK_HEIGHT && 0 <= z && z < CHUNK_DEPTH
    }

    /// The voxel at `(x, y, z)`, or `Air` when the coordinates lie outside the chunk.
    pub fn get(&self, x: i32, y: i32, z: i32) -> (r: Voxel)
        requires
            self.wf(),
        ensures
            r == self.cell(x as int, y as int, z as int),
            !in_bounds_spec(x as int, y as int, z as int) ==> r == Voxel::Air,
    {
        if !Self::in_bounds(x, y, z) {
            return Voxel::Air;
        }
        self.voxels[Self::index(x, y, z)]
    }

    /// Overwrites one cell; does nothing when the coordinates lie outside the chunk.
    pub fn set(&mut self, x: i32, y: i32, z: i32, pallete: Voxel)
        requires
            old(self).wf(),
        ensures
            final(self).wf(),
            in_bounds_spec(x as int, y as int, z as int) ==> final(self).voxels@ == old(
                self,
            ).voxels@.update(index_spec(x as int, y as int, z as int), pallete),
            !in_bounds_spec(x as int, y as int, z as int) ==> final(self).voxels@ == old(
                self,
            ).voxels@,
    {
        if !Self::in_bounds(x, y, z) {
            return ;
        }
        let i = Self::index(x, y, z);
        self.voxels.set(i, pallete);
    }

    /// Overwrites every cell with `pallete`.
    pub fn fill(&mut self, pallete: Voxel)
        requires
            old(self).wf(),
        ensures
            final(self).wf(),
            forall|i: int| 0 <= i < CHUNK_VOLUME ==> final(self).voxels@[i] == pallete,
    {
        let mut i: usize = 0;
        while i < self.voxels.len()
            invariant
                self.voxels@.len() == CHUNK_VOLUME,
                0 <= i <= CHUNK_VOLUME,
                forall|k: int| 0 <= k < i ==> self.voxels@[k] == pallete,
            decreases CHUNK_VOLUME - i,
        {
            self.voxels.set(i, pallete);
            i = i + 1;
        }
    }

    /// Overwrites every cell with air.
    pub fn clear_air(&mut self)
        requires
            old(self).wf(),
        ensures
            final(self).wf(),
            forall|i: int| 0 <= i < CHUNK_VOLUME ==> final(self).voxels@[i] == Voxel::Air,
    {
        self.fill(Voxel::Air);
    }

    /// Re-initialises the whole chunk: cells below `height` (clamped to the chunk's
    /// height) become `pallete`, all others become air, whatever they held before.
    pub fn fill_layer_below(&mut self, height: i32, pallete: Voxel)
        requires
            old(self).wf(),
        ensures
            final(self).wf(),
            forall|i: int|
                0 <= i < CHUNK_VOLUME ==> final(self).voxels@[i] == if i < clamp_spec(
                    height as int,
                    0,
                    CHUNK_HEIGHT as int,
                ) * LAYER_SIZE {
                    pallete
                } else {
                    Voxel::Air
                },
            forall|x: int, y: int, z: int|
                in_bounds_spec(x, y, z) ==> #[trigger] final(self).cell(x, y, z) == if y
                    < clamp_spec(height as int, 0, CHUNK_HEIGHT as int) {
                    pallete
                } else {
                    Voxel::Air
                },
    {
        let h: usize = if height < 0 {
            0
        } else if height > CHUNK_HEIGHT {
            CHUNK_HEIGHT as usize
        } else {
            height as usize
        };
        let split_point: usize = h * LAYER_SIZE;
        let mut i: usize = 0;
        while i < CHUNK_VOLUME
            invariant
                self.voxels@.len() == CHUNK_VOLUME,
                0 <= i <= CHUNK_VOLUME,
                split_point == h * LAYER_SIZE,
                forall|k: int|
                    0 <= k < i ==> self.voxels@[k] == if k < split_point {
                        pallete
                    } else {
                        Voxel::Air
                    },
            decreases CHUNK_VOLUME - i,
        {
            if i < split_point {
                self.voxels.set(i, pallete);
            } else {
                self.voxels.set(i, Voxel::Air);
            }
            i = i + 1;
        }
        assert forall|x: int, y: int, z: int| in_bounds_spec(x, y, z) implies #[trigger] self.cell(
            x,
            y,
            z,
        ) == if y < h {
            pallete
        } else {
            Voxel::Air
        } by {
            assert(0 <= index_spec(x, y, z) < CHUNK_VOLUME && (index_spec(x, y, z) < h * LAYER_SIZE)
                == (y < h)) by (nonlinear_arith)
                requires
                    0 <= x < 16,
                    0 <= z < 16,
                    0 <= y < 128,
                    h <= 128,
            ;
        }
    }
}

} // verus!

verus! {

/// Marks a chunk whose geometry has been resolved and attached.
#[derive(Clone, Copy, Debug)]
pub struct Chunk;

/// Horizontal position of a chunk, in chunk units.
#[derive(Clone, Copy, Debug, PartialEq, Eq, Structural, Hash)]
pub struct ChunkCoords {
    pub x: i32,
    pub z: i32,
}

impl ChunkCoords {
    /// World position of column `(lx, lz)` of this chunk:
    /// `(x * CHUNK_WIDTH + lx, z * CHUNK_DEPTH + lz)`.
    pub fn world_column(&self, lx: i32, lz: i32) -> (r: (i64, i64))
        requires
            0 <= lx < CHUNK_WIDTH,
            0 <= lz < CHUNK_DEPTH,
        ensures
            r.0 == self.x * CHUNK_WIDTH + lx,
            r.1 == self.z * CHUNK_DEPTH + lz,
    {
        (self.x as i64 * 16 + lx as i64, self.z as i64 * 16 + lz as i64)
    }
}

} // verus!
