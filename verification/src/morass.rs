//! The voxels of the morass: air, grass, stone and wood.
use vstd::prelude::*;
use crate::{Chunk, Color, Voxel};

verus! {

pub type MorassChunk = Chunk<MorassVoxel>;

#[derive(Copy, Clone, Debug, PartialEq, Eq, PartialOrd, Ord, Structural)]
pub enum MorassVoxel {
    Air,
    Grass,
    Stone,
    Wood,
}

impl Default for MorassVoxel {
    fn default() -> (v: Self)
        ensures
            v == MorassVoxel::Air,
    {
        MorassVoxel::Air
    }
}

impl Voxel for MorassVoxel {
    open spec fn transparent(self) -> bool {
        self == MorassVoxel::Air
    }

    open spec fn tint(self) -> Color {
        match self {
            MorassVoxel::Air => Color { r: 0, g: 0, b: 0, a: 0 },
            MorassVoxel::Grass => Color { r: 118, g: 166, b: 70, a: 0 },
            MorassVoxel::Stone => Color { r: 132, g: 116, b: 119, a: 0 },
            MorassVoxel::Wood => Color { r: 92, g: 44, b: 29, a: 0 },
        }
    }

    open spec fn vacant() -> Self {
        MorassVoxel::Air
    }

    fn empty() -> Self {
        MorassVoxel::Air
    }

    fn is_transparent(&self) -> bool {
        *self == MorassVoxel::Air
    }

    fn color(&self) -> Color {
        match *self {
            MorassVoxel::Air => Color { r: 0, g: 0, b: 0, a: 0 },
            MorassVoxel::Grass => Color { r: 118, g: 166, b: 70, a: 0 },
            MorassVoxel::Stone => Color { r: 132, g: 116, b: 119, a: 0 },
            MorassVoxel::Wood => Color { r: 92, g: 44, b: 29, a: 0 },
        }
    }
}

} // verus!
