//! A chunked voxel world: coordinates, chunks, a chunk index, ray traversal,
//! face-culling meshing, deferred edits and a soft time budget for meshing.
//!
//! Coordinate system notes:
//!
//! - Individual voxels are always of size 1 in world coordinates.
//!
//! - Their centers are at integer positions; their corners are at those centers offset by one half.
//!
//! - The coordinate of a chunk is the coordinate of its `[0, 0, 0]` voxel, its minimum corner,
//!   and is a multiple of `CHUNK_SIZE` along each axis.
//!
//! - Points between voxel centers are kept in fixed point, `VOXEL_UNITS` to the voxel, so that
//!   every comparison the ray traversal makes is exact.
use vstd::prelude::*;

pub mod delta;
pub mod mesh;
pub mod morass;
pub mod raycast;
pub mod soft_time_limit;
pub mod storage;
pub mod tracker;

pub use tracker::ChunkTracker;

verus! {

/// Chunks are CHUNK_SIZE by CHUNK_SIZE by CHUNK_SIZE voxels.
pub const CHUNK_SIZE: usize = 16;

/// The edge of a chunk as a voxel distance.
pub const CHUNK_EDGE: i16 = 16;

/// How many units of a `Coord` make up the edge of one voxel.
pub const VOXEL_UNITS: i32 = 4096;

/// Half the edge of a voxel, in units of a `Coord`.
pub const HALF_VOXEL: i32 = 2048;

/// The edge of a chunk, in units of a `Coord`.
pub const CHUNK_SIZE_WORLD: i32 = 65536;

/// An (integer-vector) coordinate of a voxel.
#[derive(Clone, Copy, Debug, PartialEq, Eq, Hash, Structural)]
pub struct VoxelCoord {
    pub x: i16,
    pub y: i16,
    pub z: i16,
}

impl VoxelCoord {
    pub fn new(x: i16, y: i16, z: i16) -> (v: Self)
        ensures
            v == (VoxelCoord { x, y, z }),
    {
        VoxelCoord { x, y, z }
    }
}

/// A world coordinate in fixed point: `VOXEL_UNITS` units to the voxel, so the
/// center of voxel `v` lies at `v * VOXEL_UNITS` along each axis.
#[derive(Clone, Copy, Debug, PartialEq, Eq, Hash, Structural)]
pub struct Coord {
    pub x: i32,
    pub y: i32,
    pub z: i32,
}

impl Coord {
    pub fn new(x: i32, y: i32, z: i32) -> (c: Self)
        ensures
            c == (Coord { x, y, z }),
    {
        Coord { x, y, z }
    }
}

/// A color, each channel in 255ths of full intensity.
#[derive(Clone, Copy, Debug, PartialEq, Eq, Hash, Structural)]
pub struct Color {
    pub r: u16,
    pub g: u16,
    pub b: u16,
    pub a: u16,
}

/// The voxel whose center is nearest to `c` along one axis; a point halfway
/// between two centers belongs to the one further from the origin.
pub open spec fn nearest_voxel(c: int) -> int {
    if c >= 0 {
        (c + 2048) / 4096
    } else {
        -((2048 - c) / 4096)
    }
}

/// `v` held to the range of a voxel coordinate.
pub open spec fn clamp_voxel(v: int) -> int {
    if v < i16::MIN {
        i16::MIN as int
    } else if v > i16::MAX {
        i16::MAX as int
    } else {
        v
    }
}

/// The least coordinate of the chunk that holds voxel coordinate `v` along one axis.
#[verifier::opaque]
pub open spec fn chunk_origin(v: int) -> int {
    v - v % 16
}

/// The chunk coordinate of the chunk that holds `v`.
pub open spec fn chunk_of(v: VoxelCoord) -> VoxelCoord {
    VoxelCoord {
        x: chunk_origin(v.x as int) as i16,
        y: chunk_origin(v.y as int) as i16,
        z: chunk_origin(v.z as int) as i16,
    }
}

/// Whether `v` is the coordinate of a chunk: a multiple of the chunk edge along each axis.
pub open spec fn is_chunk_coord(v: VoxelCoord) -> bool {
    chunk_origin(v.x as int) == v.x && chunk_origin(v.y as int) == v.y && chunk_origin(v.z as int)
        == v.z
}

/// Whether `p` addresses a voxel of a chunk by its offset from the chunk's coordinate.
pub open spec fn in_chunk(p: VoxelCoord) -> bool {
    0 <= p.x < 16 && 0 <= p.y < 16 && 0 <= p.z < 16
}

fn canonicalize_axis(c: i32) -> (v: i16)
    ensures
        v == clamp_voxel(nearest_voxel(c as int)),
{
    let wide: i64 = c as i64;
    let rounded: i64 = if wide >= 0 {
        (wide + HALF_VOXEL as i64) / (VOXEL_UNITS as i64)
    } else {
        -((HALF_VOXEL as i64 - wide) / (VOXEL_UNITS as i64))
    };
    if rounded < i16::MIN as i64 {
        i16::MIN
    } else if rounded > i16::MAX as i64 {
        i16::MAX
    } else {
        rounded as i16
    }
}

/// Round to the canonical coordinate of the containing voxel, i.e. the center.
/// Points too far out for a voxel coordinate go to the outermost voxel.
pub fn canonicalize(coord: Coord) -> (v: VoxelCoord)
    ensures
        v.x == clamp_voxel(nearest_voxel(coord.x as int)),
        v.y == clamp_voxel(nearest_voxel(coord.y as int)),
        v.z == clamp_voxel(nearest_voxel(coord.z as int)),
{
    VoxelCoord {
        x: canonicalize_axis(coord.x),
        y: canonicalize_axis(coord.y),
        z: canonicalize_axis(coord.z),
    }
}

fn canonicalize_chunk_axis(v: i16) -> (c: i16)
    ensures
        c == chunk_origin(v as int),
        chunk_origin(c as int) == c,
        c <= v < c + CHUNK_EDGE,
{
    reveal(chunk_origin);
    let r: i16 = v % CHUNK_EDGE;
    if r < 0 {
        v - (r + CHUNK_EDGE)
    } else {
        v - r
    }
}

/// Round to the canonical coordinate of the containing chunk, i.e. the center of the chunk's
/// `[0, 0, 0]` voxel.
pub fn canonicalize_chunk(coord: VoxelCoord) -> (c: VoxelCoord)
    ensures
        c == chunk_of(coord),
        is_chunk_coord(c),
        c.x <= coord.x < c.x + CHUNK_EDGE,
        c.y <= coord.y < c.y + CHUNK_EDGE,
        c.z <= coord.z < c.z + CHUNK_EDGE,
{
    VoxelCoord {
        x: canonicalize_chunk_axis(coord.x),
        y: canonicalize_chunk_axis(coord.y),
        z: canonicalize_chunk_axis(coord.z),
    }
}

/// An individual voxel; will be stored in arrays in chunks.
/// Must be copy: if you want to have stuff in your individual voxels that need heap-allocated stuff,
/// they should be their own entities.
/// Try and keep your voxels as small as possible to reduce memory usage; ideally they'd be 1 byte in size.
pub trait Voxel: Copy + std::fmt::Debug + Default + Send + Sync + 'static {
    /// Whether light and rays pass through this voxel.
    spec fn transparent(self) -> bool;

    /// The color of the faces of this voxel.
    spec fn tint(self) -> Color;

    /// The voxel that stands for empty space.
    spec fn vacant() -> Self;

    fn empty() -> (v: Self)
        ensures
            v == Self::vacant(),
            v.transparent(),
    ;

    fn is_transparent(&self) -> (b: bool)
        ensures
            b == self.transparent(),
    ;

    fn color(&self) -> (c: Color)
        ensures
            c == self.tint(),
    ;
}

/// A "voxel chunk" component.
pub struct Chunk<V: Voxel> {
    /// Redundant with the chunk's placement; both must be set correctly.
    pub coord: VoxelCoord,
    pub voxels: [[[V; 16]; 16]; 16],
}

impl<V: Voxel> Chunk<V> {
    /// The voxel at offset `p` from the chunk's coordinate.
    pub open spec fn voxel_at(self, p: VoxelCoord) -> V {
        self.voxels[p.x as int][p.y as int][p.z as int]
    }

    /// Whether every voxel of the chunk is transparent.
    pub open spec fn all_transparent(self) -> bool {
        forall|p: VoxelCoord| in_chunk(p) ==> (#[trigger] self.voxel_at(p)).transparent()
    }

    pub fn empty(coord: VoxelCoord) -> (c: Self)
        ensures
            c.coord == coord,
            forall|p: VoxelCoord| in_chunk(p) ==> #[trigger] c.voxel_at(p) == V::vacant(),
            c.all_transparent(),
    {
        let voxel = V::empty();
        let voxels = [[[voxel; 16]; 16]; 16];
        Chunk { coord, voxels }
    }

    /// Whether `index` addresses a voxel of a chunk.
    pub fn contains(index: VoxelCoord) -> (b: bool)
        ensures
            b == in_chunk(index),
    {
        0 <= index.x && index.x < CHUNK_EDGE && 0 <= index.y && index.y < CHUNK_EDGE && 0
            <= index.z && index.z < CHUNK_EDGE
    }

    /// The voxel at `index`, if `index` lies within the chunk.
    pub fn get(&self, index: VoxelCoord) -> (v: Option<&V>)
        ensures
            in_chunk(index) ==> v == Some(&self.voxel_at(index)),
            !in_chunk(index) ==> v.is_none(),
    {
        if Self::contains(index) {
            Some(self.index_unchecked(index))
        } else {
            None
        }
    }

    /// The voxel at `index`, for callers that have already held `index` against the chunk's
    /// extent.
    #[inline(always)]
    pub fn index_unchecked(&self, index: VoxelCoord) -> (v: &V)
        requires
            in_chunk(index),
        ensures
            *v == self.voxel_at(index),
    {
        &self.voxels[index.x as usize][index.y as usize][index.z as usize]
    }

    #[inline(always)]
    pub fn index(&self, index: VoxelCoord) -> (v: &V)
        requires
            in_chunk(index),
        ensures
            *v == self.voxel_at(index),
    {
        &self.voxels[index.x as usize][index.y as usize][index.z as usize]
    }

    /// Overwrites the voxel at `index` and leaves every other voxel and the coordinate alone.
    pub fn set(&mut self, index: VoxelCoord, voxel: V)
        requires
            in_chunk(index),
        ensures
            final(self).coord == old(self).coord,
            final(self).voxel_at(index) == voxel,
            forall|p: VoxelCoord|
                in_chunk(p) && p != index ==> #[trigger] final(self).voxel_at(p) == old(self).voxel_at(p),
    {
        self.voxels[index.x as usize][index.y as usize][index.z as usize] = voxel;
    }
}

#[derive(Clone, Copy, Debug, PartialEq, Eq, Structural)]
pub enum TestVoxel {
    Air,
    Rock,
    Grass,
}

impl Default for TestVoxel {
    fn default() -> (v: Self)
        ensures
            v == TestVoxel::Air,
    {
        TestVoxel::Air
    }
}

impl Voxel for TestVoxel {
    open spec fn transparent(self) -> bool {
        self == TestVoxel::Air
    }

    open spec fn tint(self) -> Color {
        match self {
            TestVoxel::Air => Color { r: 0, g: 0, b: 0, a: 0 },
            TestVoxel::Rock => Color { r: 51, g: 51, b: 51, a: 255 },
            TestVoxel::Grass => Color { r: 0, g: 2040, b: 0, a: 255 },
        }
    }

    open spec fn vacant() -> Self {
        TestVoxel::Air
    }

    fn empty() -> Self {
        TestVoxel::Air
    }

    fn is_transparent(&self) -> bool {
        *self == TestVoxel::Air
    }

    fn color(&self) -> Color {
        match *self {
            TestVoxel::Air => Color { r: 0, g: 0, b: 0, a: 0 },
            TestVoxel::Rock => Color { r: 51, g: 51, b: 51, a: 255 },
            TestVoxel::Grass => Color { r: 0, g: 2040, b: 0, a: 255 },
        }
    }
}

} // verus!
