use vstd::prelude::*;

verus! {

/// The kind of block stored in one cell of a chunk.
#[derive(Clone, Copy, Debug, PartialEq, Eq, Structural, Hash)]
pub enum Voxel {
    Air,
    Solid,
}

impl Voxel {
    /// Every kind but `Air` is solid.
    pub open spec fn is_solid_spec(self) -> bool {
        self != Voxel::Air
    }

    /// Every kind but `Air` is solid.
    pub fn is_solid(self) -> (r: bool)
        ensures
            r == self.is_solid_spec(),
    {
        match self {
            Voxel::Air => false,
            Voxel::Solid => true,
        }
    }
}

} // verus!
