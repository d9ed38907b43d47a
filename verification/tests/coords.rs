use voxel::morass::{MorassChunk, MorassVoxel};
use voxel::{
    canonicalize, canonicalize_chunk, Chunk, Color, Coord, TestVoxel, Voxel, VoxelCoord, CHUNK_SIZE,
    CHUNK_SIZE_WORLD, HALF_VOXEL, VOXEL_UNITS,
};

#[test]
fn sizes() {
    assert!(CHUNK_SIZE < 256);
}

#[test]
fn units_fit_together() {
    assert_eq!(CHUNK_SIZE, 16);
    assert_eq!(2 * HALF_VOXEL, VOXEL_UNITS);
    assert_eq!(CHUNK_SIZE_WORLD, 16 * VOXEL_UNITS);
}

#[test]
fn canonicalize_rounds_to_the_nearest_center() {
    assert_eq!(canonicalize(Coord::new(0, 0, 0)), VoxelCoord::new(0, 0, 0));
    assert_eq!(
        canonicalize(Coord::new(HALF_VOXEL - 1, -HALF_VOXEL + 1, 3 * VOXEL_UNITS + 100)),
        VoxelCoord::new(0, 0, 3)
    );
    assert_eq!(
        canonicalize(Coord::new(-7 * VOXEL_UNITS - 2047, 9 * VOXEL_UNITS + 2047, -VOXEL_UNITS)),
        VoxelCoord::new(-7, 9, -1)
    );
}

#[test]
fn canonicalize_rounds_halfway_points_away_from_the_origin() {
    assert_eq!(
        canonicalize(Coord::new(HALF_VOXEL, -HALF_VOXEL, 5 * VOXEL_UNITS + HALF_VOXEL)),
        VoxelCoord::new(1, -1, 6)
    );
    assert_eq!(canonicalize(Coord::new(-5 * VOXEL_UNITS - HALF_VOXEL, 0, 0)), VoxelCoord::new(-6, 0, 0));
}

#[test]
fn canonicalize_holds_far_points_to_the_outermost_voxel() {
    assert_eq!(
        canonicalize(Coord::new(i32::MAX, i32::MIN, 32767 * VOXEL_UNITS)),
        VoxelCoord::new(32767, -32768, 32767)
    );
}

#[test]
fn canonicalize_chunk_gives_the_least_corner() {
    assert_eq!(canonicalize_chunk(VoxelCoord::new(0, 15, 16)), VoxelCoord::new(0, 0, 16));
    assert_eq!(canonicalize_chunk(VoxelCoord::new(17, 31, 32)), VoxelCoord::new(16, 16, 32));
    assert_eq!(canonicalize_chunk(VoxelCoord::new(-1, -16, -17)), VoxelCoord::new(-16, -16, -32));
    assert_eq!(
        canonicalize_chunk(VoxelCoord::new(32767, -32768, -5)),
        VoxelCoord::new(32752, -32768, -16)
    );
}

#[test]
fn empty_chunk_holds_only_empty_voxels() {
    let chunk = Chunk::<TestVoxel>::empty(VoxelCoord::new(16, 0, -16));
    assert_eq!(chunk.coord, VoxelCoord::new(16, 0, -16));
    for x in 0..16 {
        for y in 0..16 {
            for z in 0..16 {
                assert_eq!(chunk.voxels[x][y][z], TestVoxel::Air);
                assert_eq!(*chunk.index(VoxelCoord::new(x as i16, y as i16, z as i16)), TestVoxel::Air);
            }
        }
    }
}

#[test]
fn chunk_get_and_set_address_one_voxel() {
    let mut chunk = Chunk::<TestVoxel>::empty(VoxelCoord::new(0, 0, 0));
    chunk.set(VoxelCoord::new(1, 2, 3), TestVoxel::Rock);
    assert_eq!(chunk.voxels[1][2][3], TestVoxel::Rock);
    assert_eq!(chunk.get(VoxelCoord::new(1, 2, 3)), Some(&TestVoxel::Rock));
    assert_eq!(*chunk.index_unchecked(VoxelCoord::new(1, 2, 3)), TestVoxel::Rock);
    assert_eq!(chunk.get(VoxelCoord::new(3, 2, 1)), Some(&TestVoxel::Air));
    assert_eq!(chunk.get(VoxelCoord::new(16, 0, 0)), None);
    assert_eq!(chunk.get(VoxelCoord::new(0, -1, 0)), None);
    assert!(Chunk::<TestVoxel>::contains(VoxelCoord::new(15, 15, 15)));
    assert!(!Chunk::<TestVoxel>::contains(VoxelCoord::new(15, 15, 16)));
    let rocks = chunk.voxels.iter().flatten().flatten().filter(|v| **v == TestVoxel::Rock).count();
    assert_eq!(rocks, 1);
}

#[test]
fn test_voxels_know_what_they_are() {
    assert_eq!(TestVoxel::default(), TestVoxel::Air);
    assert_eq!(TestVoxel::empty(), TestVoxel::Air);
    assert!(TestVoxel::Air.is_transparent());
    assert!(!TestVoxel::Rock.is_transparent());
    assert!(!TestVoxel::Grass.is_transparent());
    assert_eq!(TestVoxel::Air.color(), Color { r: 0, g: 0, b: 0, a: 0 });
    assert_eq!(TestVoxel::Rock.color(), Color { r: 51, g: 51, b: 51, a: 255 });
    assert_eq!(TestVoxel::Grass.color(), Color { r: 0, g: 2040, b: 0, a: 255 });
}

#[test]
fn morass_voxels_know_what_they_are() {
    assert_eq!(MorassVoxel::default(), MorassVoxel::Air);
    assert_eq!(MorassVoxel::empty(), MorassVoxel::Air);
    assert!(MorassVoxel::Air.is_transparent());
    assert!(!MorassVoxel::Grass.is_transparent());
    assert!(!MorassVoxel::Stone.is_transparent());
    assert!(!MorassVoxel::Wood.is_transparent());
    assert_eq!(MorassVoxel::Air.color(), Color { r: 0, g: 0, b: 0, a: 0 });
    assert_eq!(MorassVoxel::Grass.color(), Color { r: 118, g: 166, b: 70, a: 0 });
    assert_eq!(MorassVoxel::Stone.color(), Color { r: 132, g: 116, b: 119, a: 0 });
    assert_eq!(MorassVoxel::Wood.color(), Color { r: 92, g: 44, b: 29, a: 0 });
    assert!(MorassVoxel::Air < MorassVoxel::Grass);
    assert!(MorassVoxel::Stone < MorassVoxel::Wood);
    let chunk = MorassChunk::empty(VoxelCoord::new(0, 0, 0));
    assert_eq!(chunk.voxels[5][0][5], MorassVoxel::Air);
}
