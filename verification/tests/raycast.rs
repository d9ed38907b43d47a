use voxel::raycast::{raycast, voxel_raycast, FaceHit, Raycast};
use voxel::storage::ChunkStorage;
use voxel::tracker::{ChunkTracker, Entity};
use voxel::{Chunk, Coord, TestVoxel, VoxelCoord, HALF_VOXEL, VOXEL_UNITS};

const MIN: VoxelCoord = VoxelCoord { x: -20, y: -20, z: -20 };
const MAX: VoxelCoord = VoxelCoord { x: 20, y: 20, z: 20 };

fn at(x: i32, y: i32, z: i32) -> Coord {
    Coord::new(x * VOXEL_UNITS, y * VOXEL_UNITS, z * VOXEL_UNITS)
}

#[test]
fn raycast_basic() {
    let start = at(0, 0, 0);
    let target = VoxelCoord::new(5, 10, 15);
    let dir = Coord::new(5, 10, 15);
    let hit = raycast(VoxelCoord::new(0, 0, 0), start, dir, MIN, MAX, |v| v == target);
    assert_eq!(hit.end_voxel, target);
}

#[test]
fn raycast_edge() {
    let hit = raycast(
        VoxelCoord::new(0, 0, 0),
        Coord::new(0, 0, 0),
        Coord::new(1, 0, 0),
        MIN,
        MAX,
        |_| false,
    );
    assert_eq!(hit.end_voxel, VoxelCoord::new(20, 0, 0));
}

#[test]
fn raycast_edge_tells_border_and_face() {
    let hit = raycast(
        VoxelCoord::new(0, 0, 0),
        Coord::new(0, 0, 0),
        Coord::new(1, 0, 0),
        MIN,
        MAX,
        |_| false,
    );
    assert_eq!(
        hit,
        Raycast {
            face_hit: FaceHit::X,
            end: Coord::new(19 * VOXEL_UNITS + HALF_VOXEL, 0, 0),
            end_voxel: VoxelCoord::new(20, 0, 0),
            hit_interesting: false,
        }
    );
}

#[test]
fn raycast_start_interesting_goes_nowhere() {
    let start = Coord::new(100, -200, 300);
    let hit = raycast(VoxelCoord::new(0, 0, 0), start, Coord::new(3, -1, 2), MIN, MAX, |_| true);
    assert_eq!(hit.face_hit, FaceHit::Contained);
    assert_eq!(hit.end, start);
    assert_eq!(hit.end_voxel, VoxelCoord::new(0, 0, 0));
    assert!(hit.hit_interesting);
}

#[test]
fn raycast_breaks_ties_x_before_y_before_z() {
    // from the center along the diagonal all three faces are equally far
    let mut seen: Vec<VoxelCoord> = Vec::new();
    let order = std::cell::RefCell::new(&mut seen);
    let hit = raycast(
        VoxelCoord::new(0, 0, 0),
        Coord::new(0, 0, 0),
        Coord::new(1, 1, 1),
        MIN,
        MAX,
        |v| {
            order.borrow_mut().push(v);
            false
        },
    );
    drop(order);
    assert_eq!(seen[0], VoxelCoord::new(0, 0, 0));
    assert_eq!(seen[1], VoxelCoord::new(1, 0, 0));
    assert_eq!(seen[2], VoxelCoord::new(1, 1, 0));
    assert_eq!(seen[3], VoxelCoord::new(1, 1, 1));
    assert_eq!(seen[4], VoxelCoord::new(2, 1, 1));
    // the border is reached along x first, and no voxel on it is asked about
    assert_eq!(hit.face_hit, FaceHit::X);
    assert_eq!(hit.end_voxel, VoxelCoord::new(20, 19, 19));
    assert!(!hit.hit_interesting);
    assert!(seen.iter().all(|v| v.x < 20 && v.y < 20 && v.z < 20));
}

#[test]
fn raycast_breaks_tie_y_before_z() {
    let hit = raycast(
        VoxelCoord::new(0, 0, 0),
        Coord::new(0, 0, 0),
        Coord::new(0, 1, 1),
        MIN,
        MAX,
        |v| v.y != 0 || v.z != 0,
    );
    assert_eq!(hit.face_hit, FaceHit::Y);
    assert_eq!(hit.end_voxel, VoxelCoord::new(0, 1, 0));
    assert_eq!(hit.end, Coord::new(0, HALF_VOXEL, HALF_VOXEL));
    assert!(hit.hit_interesting);
}

#[test]
fn raycast_never_moves_along_an_axis_without_direction() {
    let hit = raycast(
        VoxelCoord::new(3, -4, 5),
        at(3, -4, 5),
        Coord::new(0, 0, -7),
        MIN,
        MAX,
        |_| false,
    );
    assert_eq!(hit.face_hit, FaceHit::Z);
    assert_eq!(hit.end_voxel, VoxelCoord::new(3, -4, -20));
    assert_eq!(hit.end, Coord::new(3 * VOXEL_UNITS, -4 * VOXEL_UNITS, -19 * VOXEL_UNITS - HALF_VOXEL));
}

#[test]
fn raycast_goes_down_the_axes_too() {
    let target = VoxelCoord::new(-3, -1, 0);
    let hit = raycast(
        VoxelCoord::new(0, 0, 0),
        Coord::new(0, 0, 0),
        Coord::new(-3, -1, 0),
        MIN,
        MAX,
        |v| v == target,
    );
    assert_eq!(hit.end_voxel, target);
    assert!(hit.hit_interesting);
    assert_eq!(hit.face_hit, FaceHit::X);
    // the ray comes into the voxel through its face at x = -2.5, where y = -2.5 / 3
    assert_eq!(hit.end, Coord::new(-2 * VOXEL_UNITS - HALF_VOXEL, -3413, 0));
}

#[test]
fn raycast_end_lies_in_the_end_voxel() {
    let hit = raycast(
        VoxelCoord::new(0, 0, 0),
        Coord::new(17, -300, 2000),
        Coord::new(370, 299, 936),
        VoxelCoord::new(-16, -16, -16),
        VoxelCoord::new(16, 16, 16),
        |_| false,
    );
    assert!(!hit.hit_interesting);
    let v = hit.end_voxel;
    let e = hit.end;
    assert!((e.x - v.x as i32 * VOXEL_UNITS).abs() <= HALF_VOXEL);
    assert!((e.y - v.y as i32 * VOXEL_UNITS).abs() <= HALF_VOXEL);
    assert!((e.z - v.z as i32 * VOXEL_UNITS).abs() <= HALF_VOXEL);
    assert_eq!(hit.face_hit, FaceHit::Z);
    assert_eq!(v.z, 16);
}

fn world_of(chunks: Vec<Chunk<TestVoxel>>) -> (ChunkTracker, ChunkStorage<TestVoxel>) {
    let mut tracker = ChunkTracker::new();
    let mut storage = ChunkStorage::new();
    let mut index = 0;
    for chunk in chunks {
        let ent = Entity::new(index, 1);
        tracker.register(chunk.coord, ent);
        storage.insert(ent, chunk);
        index += 1;
    }
    (tracker, storage)
}

#[test]
fn voxel_raycast_finds_voxel_in_the_chunk_of_the_start() {
    let mut chunk = Chunk::<TestVoxel>::empty(VoxelCoord::new(0, 0, 0));
    chunk.voxels[9][4][4] = TestVoxel::Rock;
    let (tracker, storage) = world_of(vec![chunk]);
    let hit = voxel_raycast(
        &tracker,
        &storage,
        at(4, 4, 4),
        Coord::new(1, 0, 0),
        VoxelCoord::new(-32, -32, -32),
        VoxelCoord::new(48, 48, 48),
    );
    assert!(hit.hit_interesting);
    assert_eq!(hit.end_voxel, VoxelCoord::new(9, 4, 4));
    assert_eq!(hit.face_hit, FaceHit::X);
    assert_eq!(hit.end, Coord::new(8 * VOXEL_UNITS + HALF_VOXEL, 4 * VOXEL_UNITS, 4 * VOXEL_UNITS));
}

#[test]
fn voxel_raycast_crosses_missing_chunks() {
    // the ray starts where there is no chunk, and the only rock lies two chunks on
    let mut far = Chunk::<TestVoxel>::empty(VoxelCoord::new(32, 0, 0));
    far.voxels[3][4][4] = TestVoxel::Rock;
    let (tracker, storage) = world_of(vec![far]);
    let hit = voxel_raycast(
        &tracker,
        &storage,
        at(4, 4, 4),
        Coord::new(1, 0, 0),
        VoxelCoord::new(-32, -32, -32),
        VoxelCoord::new(64, 64, 64),
    );
    assert!(hit.hit_interesting);
    assert_eq!(hit.end_voxel, VoxelCoord::new(35, 4, 4));
    assert_eq!(hit.face_hit, FaceHit::X);
}

#[test]
fn voxel_raycast_stops_at_the_bounds_of_the_search() {
    let (tracker, storage) = world_of(vec![]);
    let hit = voxel_raycast(
        &tracker,
        &storage,
        at(4, 4, 4),
        Coord::new(0, -1, 0),
        VoxelCoord::new(-32, -32, -32),
        VoxelCoord::new(48, 48, 48),
    );
    assert!(!hit.hit_interesting);
    assert_eq!(hit.face_hit, FaceHit::Y);
    // the chunk at -32 bounds the search: the ray stops in its last voxel
    assert_eq!(hit.end_voxel, VoxelCoord::new(4, -17, 4));
    assert_eq!(hit.end, Coord::new(4 * VOXEL_UNITS, -16 * VOXEL_UNITS - HALF_VOXEL, 4 * VOXEL_UNITS));
}

#[test]
fn voxel_raycast_through_empty_chunks_agrees_with_one_raycast() {
    // several chunks side by side with nothing opaque in them, and one big box around them
    let chunks = vec![
        Chunk::<TestVoxel>::empty(VoxelCoord::new(0, 0, 0)),
        Chunk::<TestVoxel>::empty(VoxelCoord::new(16, 0, 0)),
        Chunk::<TestVoxel>::empty(VoxelCoord::new(32, 0, 0)),
        Chunk::<TestVoxel>::empty(VoxelCoord::new(16, 16, 0)),
        Chunk::<TestVoxel>::empty(VoxelCoord::new(32, 16, 0)),
    ];
    let (tracker, storage) = world_of(chunks);
    let start = at(2, 3, 5);
    let direction = Coord::new(4, 1, 0);
    let two_level = voxel_raycast(
        &tracker,
        &storage,
        start,
        direction,
        VoxelCoord::new(-16, -16, -16),
        VoxelCoord::new(48, 48, 48),
    );
    let one_level = raycast(
        VoxelCoord::new(2, 3, 5),
        start,
        direction,
        VoxelCoord::new(-1, -1, -1),
        VoxelCoord::new(48, 48, 48),
        |_| false,
    );
    assert_eq!(two_level.end_voxel, one_level.end_voxel);
    assert_eq!(two_level.face_hit, one_level.face_hit);
    assert_eq!(two_level.hit_interesting, one_level.hit_interesting);
    assert_eq!(two_level.end, one_level.end);
    assert_eq!(one_level.end_voxel, VoxelCoord::new(48, 14, 5));
}

#[test]
fn voxel_raycast_passes_over_a_chunk_that_is_not_where_it_says() {
    // the chunk is registered at the origin but says of itself that it lies elsewhere
    let mut chunk = Chunk::<TestVoxel>::empty(VoxelCoord::new(16, 0, 0));
    chunk.voxels[9][4][4] = TestVoxel::Rock;
    let mut tracker = ChunkTracker::new();
    let mut storage = ChunkStorage::new();
    let ent = Entity::new(0, 1);
    tracker.register(VoxelCoord::new(0, 0, 0), ent);
    storage.insert(ent, chunk);
    let hit = voxel_raycast(
        &tracker,
        &storage,
        at(4, 4, 4),
        Coord::new(1, 0, 0),
        VoxelCoord::new(-32, -32, -32),
        VoxelCoord::new(32, 32, 32),
    );
    assert!(!hit.hit_interesting);
    assert_eq!(hit.end_voxel, VoxelCoord::new(32, 4, 4));
}

fn seeded(seed: i32, x: i32, y: i32, z: i32) -> TestVoxel {
    // a spot of rock now and then, air mostly
    if (x * 31 + y * 17 + z * 7 + seed * 13 + (x * y + z) % 11) % 97 == 0 {
        TestVoxel::Rock
    } else {
        TestVoxel::Air
    }
}

fn full_world(seed: i32) -> (ChunkTracker, ChunkStorage<TestVoxel>) {
    // every chunk strictly between the chunks at -16 and at 48
    let mut chunks = Vec::new();
    for cx in 0..3 {
        for cy in 0..3 {
            for cz in 0..3 {
                let mut chunk = Chunk::<TestVoxel>::empty(VoxelCoord::new(16 * cx, 16 * cy, 16 * cz));
                for x in 0..16 {
                    for y in 0..16 {
                        for z in 0..16 {
                            chunk.voxels[x][y][z] = seeded(
                                seed,
                                16 * cx as i32 + x as i32,
                                16 * cy as i32 + y as i32,
                                16 * cz as i32 + z as i32,
                            );
                        }
                    }
                }
                chunks.push(chunk);
            }
        }
    }
    world_of(chunks)
}

#[test]
fn voxel_raycast_through_a_full_world_is_one_raycast() {
    let directions = [
        Coord::new(4, 1, 0),
        Coord::new(-3, 7, 2),
        Coord::new(1, 1, 1),
        Coord::new(0, 0, -5),
        Coord::new(1000, -1, 999),
        Coord::new(-17, -23, 29),
        Coord::new(1, 0, 0),
        Coord::new(-4096, 4095, 1),
    ];
    let starts = [
        Coord::new(24 * VOXEL_UNITS, 24 * VOXEL_UNITS, 24 * VOXEL_UNITS),
        Coord::new(2 * VOXEL_UNITS + 100, 40 * VOXEL_UNITS - 2000, 17 * VOXEL_UNITS + 2048),
        Coord::new(15 * VOXEL_UNITS + 2047, 16 * VOXEL_UNITS - 2048, 31 * VOXEL_UNITS),
        Coord::new(47 * VOXEL_UNITS, 0, 33 * VOXEL_UNITS + 7),
    ];
    let mut stopped_by_rock = 0;
    let mut stopped_by_bounds = 0;
    for seed in 0..3 {
        let (tracker, storage) = full_world(seed);
        for start in starts {
            for direction in directions {
                let two_level = voxel_raycast(
                    &tracker,
                    &storage,
                    start,
                    direction,
                    VoxelCoord::new(-16, -16, -16),
                    VoxelCoord::new(48, 48, 48),
                );
                let one_level = raycast(
                    voxel::canonicalize(start),
                    start,
                    direction,
                    VoxelCoord::new(-1, -1, -1),
                    VoxelCoord::new(48, 48, 48),
                    |v| seeded(seed, v.x as i32, v.y as i32, v.z as i32) == TestVoxel::Rock,
                );
                assert_eq!(two_level, one_level);
                if two_level.hit_interesting {
                    stopped_by_rock += 1;
                } else {
                    stopped_by_bounds += 1;
                }
            }
        }
    }
    assert!(stopped_by_rock > 10);
    assert!(stopped_by_bounds > 10);
}

#[test]
fn voxel_raycast_tells_the_face_of_a_voxel_at_the_edge_of_a_chunk() {
    // the rock is the first voxel of the second chunk: the ray comes into it as it comes into
    // the chunk
    let mut second = Chunk::<TestVoxel>::empty(VoxelCoord::new(16, 0, 0));
    second.voxels[0][4][4] = TestVoxel::Rock;
    let (tracker, storage) = world_of(vec![Chunk::<TestVoxel>::empty(VoxelCoord::new(0, 0, 0)), second]);
    let hit = voxel_raycast(
        &tracker,
        &storage,
        at(4, 4, 4),
        Coord::new(1, 0, 0),
        VoxelCoord::new(-32, -32, -32),
        VoxelCoord::new(48, 48, 48),
    );
    assert_eq!(
        hit,
        Raycast {
            face_hit: FaceHit::X,
            end: Coord::new(15 * VOXEL_UNITS + HALF_VOXEL, 4 * VOXEL_UNITS, 4 * VOXEL_UNITS),
            end_voxel: VoxelCoord::new(16, 4, 4),
            hit_interesting: true,
        }
    );
    // and so it does where it comes into it out of a chunk that is not there
    let mut lone = Chunk::<TestVoxel>::empty(VoxelCoord::new(16, 0, 0));
    lone.voxels[0][4][4] = TestVoxel::Rock;
    let (tracker, storage) = world_of(vec![lone]);
    let hit = voxel_raycast(
        &tracker,
        &storage,
        at(4, 4, 4),
        Coord::new(1, 0, 0),
        VoxelCoord::new(-32, -32, -32),
        VoxelCoord::new(48, 48, 48),
    );
    assert_eq!(hit.face_hit, FaceHit::X);
    assert_eq!(hit.end_voxel, VoxelCoord::new(16, 4, 4));
    assert!(hit.hit_interesting);
}

#[test]
fn voxel_raycast_starting_in_rock_goes_nowhere() {
    let mut chunk = Chunk::<TestVoxel>::empty(VoxelCoord::new(0, 0, 0));
    chunk.voxels[4][4][4] = TestVoxel::Grass;
    let (tracker, storage) = world_of(vec![chunk]);
    let start = Coord::new(4 * VOXEL_UNITS + 5, 4 * VOXEL_UNITS - 5, 4 * VOXEL_UNITS);
    let hit = voxel_raycast(
        &tracker,
        &storage,
        start,
        Coord::new(1, 2, 3),
        VoxelCoord::new(-32, -32, -32),
        VoxelCoord::new(48, 48, 48),
    );
    assert_eq!(
        hit,
        Raycast {
            face_hit: FaceHit::Contained,
            end: start,
            end_voxel: VoxelCoord::new(4, 4, 4),
            hit_interesting: true,
        }
    );
}

#[test]
fn raycast_asks_once_of_each_voxel_it_enters() {
    // the predicate keeps count: the start voxel and the five that the ray enters
    let mut asked: Vec<VoxelCoord> = Vec::new();
    let hit = raycast(
        VoxelCoord::new(0, 0, 0),
        Coord::new(0, 0, 0),
        Coord::new(1, 0, 0),
        MIN,
        MAX,
        |v| {
            asked.push(v);
            v.x == 5
        },
    );
    assert_eq!(hit.end_voxel, VoxelCoord::new(5, 0, 0));
    assert!(hit.hit_interesting);
    assert_eq!(
        asked,
        (0..=5).map(|x| VoxelCoord::new(x, 0, 0)).collect::<Vec<_>>(),
    );
    // the voxel on the border is never asked about
    let mut count = 0;
    let hit = raycast(
        VoxelCoord::new(0, 0, 0),
        Coord::new(0, 0, 0),
        Coord::new(0, 0, -1),
        MIN,
        MAX,
        |_| {
            count += 1;
            false
        },
    );
    assert_eq!(hit.end_voxel, VoxelCoord::new(0, 0, -20));
    assert!(!hit.hit_interesting);
    assert_eq!(count, 20);
}

#[test]
fn raycast_from_an_interesting_voxel_needs_no_heading() {
    // neither a heading nor room ahead: the start is on the border of the box
    let start = Coord::new(20 * VOXEL_UNITS + 7, 20 * VOXEL_UNITS, -20 * VOXEL_UNITS);
    let hit = raycast(
        VoxelCoord::new(20, 20, -20),
        start,
        Coord::new(0, 0, 0),
        MIN,
        MAX,
        |v| v == VoxelCoord::new(20, 20, -20),
    );
    assert_eq!(
        hit,
        Raycast {
            face_hit: FaceHit::Contained,
            end: start,
            end_voxel: VoxelCoord::new(20, 20, -20),
            hit_interesting: true,
        }
    );
}

#[test]
fn voxel_raycast_starting_in_rock_on_the_bounds_goes_nowhere() {
    // the last layer of the chunk at -32 bounds the search, and the start lies in it
    let mut chunk = Chunk::<TestVoxel>::empty(VoxelCoord::new(-32, 0, 0));
    chunk.voxels[15][4][4] = TestVoxel::Rock;
    let (tracker, storage) = world_of(vec![chunk]);
    let start = at(-17, 4, 4);
    let hit = voxel_raycast(
        &tracker,
        &storage,
        start,
        Coord::new(0, 0, 0),
        VoxelCoord::new(-32, -32, -32),
        VoxelCoord::new(48, 48, 48),
    );
    assert_eq!(
        hit,
        Raycast {
            face_hit: FaceHit::Contained,
            end: start,
            end_voxel: VoxelCoord::new(-17, 4, 4),
            hit_interesting: true,
        }
    );
}

#[test]
fn voxel_raycast_from_the_bounds_inward_is_one_raycast() {
    let mut chunk = Chunk::<TestVoxel>::empty(VoxelCoord::new(0, 0, 0));
    chunk.voxels[2][4][4] = TestVoxel::Rock;
    let (tracker, storage) = world_of(vec![chunk]);
    // the start lies in the layer that bounds the search below, and heads up and inward
    let start = at(-17, 4, 4);
    let hit = voxel_raycast(
        &tracker,
        &storage,
        start,
        Coord::new(1, 0, 0),
        VoxelCoord::new(-32, -32, -32),
        VoxelCoord::new(48, 48, 48),
    );
    let one = raycast(
        VoxelCoord::new(-17, 4, 4),
        start,
        Coord::new(1, 0, 0),
        VoxelCoord::new(-17, -17, -17),
        VoxelCoord::new(48, 48, 48),
        |v| v == VoxelCoord::new(2, 4, 4),
    );
    assert_eq!(hit, one);
    assert!(hit.hit_interesting);
    assert_eq!(hit.end_voxel, VoxelCoord::new(2, 4, 4));
    assert_eq!(hit.face_hit, FaceHit::X);
    // along the bounding layer itself, with nothing in the way, the ray ends on the far bound
    let (tracker, storage) = world_of(vec![]);
    let hit = voxel_raycast(
        &tracker,
        &storage,
        start,
        Coord::new(0, 1, 0),
        VoxelCoord::new(-32, -32, -32),
        VoxelCoord::new(48, 48, 48),
    );
    assert!(!hit.hit_interesting);
    assert_eq!(hit.face_hit, FaceHit::Y);
    assert_eq!(hit.end_voxel, VoxelCoord::new(-17, 48, 4));
}
