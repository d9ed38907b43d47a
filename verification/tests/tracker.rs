use voxel::storage::ChunkStorage;
use voxel::tracker::{ChunkTrackerSystem, Entity};
use voxel::{Chunk, ChunkTracker, TestVoxel, VoxelCoord};

#[test]
fn test_tracker() {
    let mut chunks = ChunkStorage::<TestVoxel>::new();
    println!("register");
    let mut tracker = ChunkTracker::new();
    let mut system = ChunkTrackerSystem::<TestVoxel>::new();
    println!("chunk_tracker");

    system.run(&mut tracker, &chunks, &vec![], &vec![]);

    // add entity
    let coord = VoxelCoord::new(0, 0, 0);
    let ent = Entity::new(0, 1);
    chunks.insert(ent, Chunk::<TestVoxel>::empty(coord));
    system.run(&mut tracker, &chunks, &vec![], &vec![ent]);
    {
        assert_eq!(tracker.get_chunk_ent(VoxelCoord::new(0, 0, 0)), Some(ent));
    }

    // remove entity
    chunks.remove(ent).unwrap();
    system.run(&mut tracker, &chunks, &vec![ent.id()], &vec![]);
    {
        assert_eq!(tracker.get_chunk_ent(VoxelCoord::new(0, 0, 0)), None);
    }
}

#[test]
fn tracker_finds_the_chunk_of_any_of_its_voxels() {
    let mut tracker = ChunkTracker::new();
    let here = Entity::new(7, 1);
    let there = Entity::new(8, 3);
    tracker.register(VoxelCoord::new(0, 0, 0), here);
    tracker.register(VoxelCoord::new(-16, 16, 32), there);
    assert_eq!(tracker.get_chunk_ent(VoxelCoord::new(15, 0, 7)), Some(here));
    assert_eq!(tracker.get_chunk_ent(VoxelCoord::new(-1, 31, 32)), Some(there));
    assert_eq!(tracker.get_chunk_ent(VoxelCoord::new(-16, 16, 47)), Some(there));
    assert_eq!(tracker.get_chunk_ent(VoxelCoord::new(16, 0, 0)), None);
    assert_eq!(tracker.get_chunk_ent(VoxelCoord::new(-1, 0, 0)), None);
    assert!(tracker.is_registered(VoxelCoord::new(-16, 16, 32)));
    assert!(!tracker.is_registered(VoxelCoord::new(-16, 16, 33)));
    assert_eq!(tracker.coord_of(8), Some(VoxelCoord::new(-16, 16, 32)));
    assert_eq!(tracker.coord_of(9), None);
}

#[test]
fn tracker_keeps_its_two_halves_in_step() {
    // whatever is registered is found both ways until it is unregistered, and then neither way
    let mut tracker = ChunkTracker::new();
    let coords: Vec<VoxelCoord> =
        (0..20).map(|i| VoxelCoord::new(16 * i, -16 * i, 16 * (i % 3))).collect();
    for (i, coord) in coords.iter().enumerate() {
        tracker.register(*coord, Entity::new(i as u32, i as i32 + 1));
    }
    for (i, coord) in coords.iter().enumerate() {
        assert_eq!(tracker.get_chunk_ent(*coord), Some(Entity::new(i as u32, i as i32 + 1)));
        assert_eq!(tracker.coord_of(i as u32), Some(*coord));
    }
    for i in (0..20).step_by(2) {
        assert_eq!(tracker.unregister(i as u32), coords[i]);
    }
    for (i, coord) in coords.iter().enumerate() {
        if i % 2 == 0 {
            assert_eq!(tracker.get_chunk_ent(*coord), None);
            assert_eq!(tracker.coord_of(i as u32), None);
        } else {
            assert_eq!(tracker.get_chunk_ent(*coord), Some(Entity::new(i as u32, i as i32 + 1)));
            assert_eq!(tracker.coord_of(i as u32), Some(*coord));
        }
    }
    // a place that was given up can be taken again, by another entity
    tracker.register(coords[0], Entity::new(100, 1));
    assert_eq!(tracker.get_chunk_ent(coords[0]), Some(Entity::new(100, 1)));
    assert_eq!(tracker.coord_of(0), None);
}

#[test]
fn tracker_tells_coordinates_apart_that_differ_in_one_axis() {
    let mut tracker = ChunkTracker::new();
    tracker.register(VoxelCoord::new(16, 0, 0), Entity::new(1, 1));
    tracker.register(VoxelCoord::new(0, 16, 0), Entity::new(2, 1));
    tracker.register(VoxelCoord::new(0, 0, 16), Entity::new(3, 1));
    tracker.register(VoxelCoord::new(-32768, 32752, -16), Entity::new(4, 1));
    assert_eq!(tracker.get_chunk_ent(VoxelCoord::new(16, 0, 0)), Some(Entity::new(1, 1)));
    assert_eq!(tracker.get_chunk_ent(VoxelCoord::new(0, 16, 0)), Some(Entity::new(2, 1)));
    assert_eq!(tracker.get_chunk_ent(VoxelCoord::new(0, 0, 16)), Some(Entity::new(3, 1)));
    assert_eq!(tracker.get_chunk_ent(VoxelCoord::new(-32768, 32767, -1)), Some(Entity::new(4, 1)));
    assert_eq!(tracker.get_chunk_ent(VoxelCoord::new(0, 0, 0)), None);
}

#[test]
fn get_chunk_hands_out_the_chunk_where_it_says_it_is() {
    let mut tracker = ChunkTracker::new();
    let mut chunks = ChunkStorage::<TestVoxel>::new();
    let ent = Entity::new(2, 1);
    let mut chunk = Chunk::<TestVoxel>::empty(VoxelCoord::new(16, 0, 0));
    chunk.voxels[1][2][3] = TestVoxel::Grass;
    chunks.insert(ent, chunk);
    tracker.register(VoxelCoord::new(16, 0, 0), ent);
    let found = tracker.get_chunk(&chunks, VoxelCoord::new(20, 5, 5)).unwrap();
    assert_eq!(found.coord, VoxelCoord::new(16, 0, 0));
    assert_eq!(found.voxels[1][2][3], TestVoxel::Grass);
    assert!(tracker.get_chunk(&chunks, VoxelCoord::new(0, 0, 0)).is_none());

    // registered, but not in the storage
    tracker.register(VoxelCoord::new(32, 0, 0), Entity::new(3, 1));
    assert!(tracker.get_chunk(&chunks, VoxelCoord::new(32, 0, 0)).is_none());

    // in the storage, but of an earlier generation
    let stale = Entity::new(4, 1);
    tracker.register(VoxelCoord::new(48, 0, 0), stale);
    chunks.insert(Entity::new(4, 2), Chunk::<TestVoxel>::empty(VoxelCoord::new(48, 0, 0)));
    assert!(tracker.get_chunk(&chunks, VoxelCoord::new(48, 0, 0)).is_none());

    // registered in one place, but saying of itself that it lies in another
    let lost = Entity::new(5, 1);
    tracker.register(VoxelCoord::new(64, 0, 0), lost);
    chunks.insert(lost, Chunk::<TestVoxel>::empty(VoxelCoord::new(80, 0, 0)));
    assert!(tracker.get_chunk(&chunks, VoxelCoord::new(64, 0, 0)).is_none());
}

#[test]
fn storage_keeps_one_chunk_to_the_slot() {
    let mut chunks = ChunkStorage::<TestVoxel>::new();
    let first = Entity::new(3, 1);
    let second = Entity::new(3, 2);
    assert!(!chunks.contains(first));
    assert_eq!(chunks.owner_of(3), None);
    chunks.insert(first, Chunk::<TestVoxel>::empty(VoxelCoord::new(0, 0, 0)));
    assert!(chunks.contains(first));
    assert!(!chunks.contains(second));
    assert_eq!(chunks.owner_of(3), Some(first));
    assert_eq!(chunks.owner_of(2), None);
    let mut rocky = Chunk::<TestVoxel>::empty(VoxelCoord::new(16, 0, 0));
    rocky.set(VoxelCoord::new(1, 1, 1), TestVoxel::Rock);
    chunks.insert(second, rocky);
    assert!(!chunks.contains(first));
    assert_eq!(chunks.get(second).unwrap().coord, VoxelCoord::new(16, 0, 0));
    assert!(chunks.remove(first).is_none());
    let taken = chunks.remove(second).unwrap();
    assert_eq!(taken.voxels[1][1][1], TestVoxel::Rock);
    assert!(!chunks.contains(second));
    assert_eq!(chunks.owner_of(3), None);
}

#[test]
fn tracker_system_takes_removals_before_insertions() {
    let mut chunks = ChunkStorage::<TestVoxel>::new();
    let mut tracker = ChunkTracker::new();
    let mut system = ChunkTrackerSystem::<TestVoxel>::new();
    let old = Entity::new(1, 1);
    let new = Entity::new(2, 1);
    chunks.insert(old, Chunk::<TestVoxel>::empty(VoxelCoord::new(16, 16, 16)));
    system.run(&mut tracker, &chunks, &vec![], &vec![old]);
    // the old chunk leaves and a new one takes its place in one report
    chunks.remove(old);
    chunks.insert(new, Chunk::<TestVoxel>::empty(VoxelCoord::new(16, 16, 16)));
    system.run(&mut tracker, &chunks, &vec![1], &vec![new]);
    assert_eq!(tracker.get_chunk_ent(VoxelCoord::new(16, 16, 16)), Some(new));
    assert_eq!(tracker.coord_of(1), None);
    assert_eq!(tracker.coord_of(2), Some(VoxelCoord::new(16, 16, 16)));
}
