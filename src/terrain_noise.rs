use vstd::prelude::*;

verus! {

/// Number of octaves summed by the height noise.
pub const FBM_OCTAVES: usize = 5;

/// The settings of the seeded fractal noise that heights are sampled from.
#[derive(Clone, Copy, Debug)]
pub struct TerrainNoise {
    pub seed: u32,
    pub octaves: usize,
}

impl TerrainNoise {
    /// The settings that `new(seed)` yields.
    pub open spec fn new_spec(seed: i32) -> TerrainNoise {
        TerrainNoise {
            seed: (if seed >= 0 {
                seed as int
            } else {
                seed + 0x1_0000_0000
            }) as u32,
            octaves: FBM_OCTAVES,
        }
    }

    /// Noise settings for `seed`, reinterpreted as an unsigned seed.
    pub fn new(seed: i32) -> (r: TerrainNoise)
        ensures
            r.seed == (if seed >= 0 {
                seed as int
            } else {
                seed + 0x1_0000_0000
            }),
            r.octaves == FBM_OCTAVES,
            r == TerrainNoise::new_spec(seed),
    {
        let s: u32 = if seed >= 0 {
            seed as u32
        } else {
            (seed as i64 + 0x1_0000_0000i64) as u32
        };
        TerrainNoise { seed: s, octaves: FBM_OCTAVES }
    }
}

} // verus!
