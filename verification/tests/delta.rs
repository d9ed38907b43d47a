use voxel::delta::{apply_deltas, ChunkDeltaSystem, ChunkDeltas, Delta};
use voxel::storage::ChunkStorage;
use voxel::tracker::{ChunkTracker, Entity};
use voxel::{Chunk, TestVoxel, VoxelCoord};

fn world() -> (ChunkTracker, ChunkStorage<TestVoxel>, Entity, Entity) {
    let mut tracker = ChunkTracker::new();
    let mut storage = ChunkStorage::new();
    let here = Entity::new(0, 1);
    let below = Entity::new(1, 1);
    tracker.register(VoxelCoord::new(0, 0, 0), here);
    storage.insert(here, Chunk::<TestVoxel>::empty(VoxelCoord::new(0, 0, 0)));
    tracker.register(VoxelCoord::new(0, -16, 0), below);
    storage.insert(below, Chunk::<TestVoxel>::empty(VoxelCoord::new(0, -16, 0)));
    (tracker, storage, here, below)
}

#[test]
fn deferred_sets_are_made_at_the_next_run() {
    let (tracker, mut storage, here, below) = world();
    let deltas = ChunkDeltas::<TestVoxel>::new();
    let mut system = ChunkDeltaSystem::<TestVoxel>::new();
    deltas.defer_set(VoxelCoord::new(1, 2, 3), TestVoxel::Rock);
    deltas.defer_set(VoxelCoord::new(15, -1, 0), TestVoxel::Grass);
    // nothing is made before the run
    assert_eq!(storage.get(here).unwrap().voxels[1][2][3], TestVoxel::Air);
    let done = system.run(&tracker, &deltas, &mut storage);
    assert_eq!(done.skipped.len(), 0);
    assert_eq!(done.modified, vec![0, 1]);
    assert_eq!(storage.get(here).unwrap().voxels[1][2][3], TestVoxel::Rock);
    assert_eq!(storage.get(below).unwrap().voxels[15][15][0], TestVoxel::Grass);
    // and nothing is made twice
    let undo = vec![Delta { coord: VoxelCoord::new(1, 2, 3), voxel: TestVoxel::Air }];
    assert_eq!(apply_deltas(&undo, &tracker, &mut storage).modified, vec![0]);
    let again = system.run(&tracker, &deltas, &mut storage);
    assert_eq!(again.skipped.len(), 0);
    assert_eq!(again.modified.len(), 0);
    assert_eq!(storage.get(here).unwrap().voxels[1][2][3], TestVoxel::Air);
}

#[test]
fn of_many_sets_to_one_voxel_the_last_stays() {
    let (tracker, mut storage, here, _) = world();
    let deltas = ChunkDeltas::<TestVoxel>::new();
    let mut system = ChunkDeltaSystem::<TestVoxel>::new();
    let coord = VoxelCoord::new(7, 7, 7);
    for i in 0..25 {
        deltas.defer_set(coord, if i % 2 == 0 { TestVoxel::Rock } else { TestVoxel::Grass });
        deltas.defer_set(VoxelCoord::new(7, 7, 8), TestVoxel::Grass);
    }
    deltas.defer_set(coord, TestVoxel::Air);
    deltas.defer_set(coord, TestVoxel::Grass);
    deltas.defer_set(coord, TestVoxel::Rock);
    system.run(&tracker, &deltas, &mut storage);
    let chunk = storage.get(here).unwrap();
    assert_eq!(chunk.voxels[7][7][7], TestVoxel::Rock);
    assert_eq!(chunk.voxels[7][7][8], TestVoxel::Grass);
    let set = chunk.voxels.iter().flatten().flatten().filter(|v| **v != TestVoxel::Air).count();
    assert_eq!(set, 2);
}

#[test]
fn sets_to_missing_chunks_are_skipped() {
    let (tracker, mut storage, here, _) = world();
    let batch = vec![
        Delta { coord: VoxelCoord::new(16, 0, 0), voxel: TestVoxel::Rock },
        Delta { coord: VoxelCoord::new(0, 0, 0), voxel: TestVoxel::Rock },
        Delta { coord: VoxelCoord::new(-1, 0, 0), voxel: TestVoxel::Grass },
        Delta { coord: VoxelCoord::new(0, 0, 15), voxel: TestVoxel::Grass },
    ];
    let done = apply_deltas(&batch, &tracker, &mut storage);
    let skipped = done.skipped;
    assert_eq!(done.modified, vec![0, 0]);
    assert_eq!(skipped.len(), 2);
    assert_eq!(skipped[0].coord, VoxelCoord::new(16, 0, 0));
    assert_eq!(skipped[0].voxel, TestVoxel::Rock);
    assert_eq!(skipped[1].coord, VoxelCoord::new(-1, 0, 0));
    assert_eq!(skipped[1].voxel, TestVoxel::Grass);
    let chunk = storage.get(here).unwrap();
    assert_eq!(chunk.voxels[0][0][0], TestVoxel::Rock);
    assert_eq!(chunk.voxels[0][0][15], TestVoxel::Grass);
}

#[test]
fn sets_reach_voxels_below_the_origin() {
    let mut tracker = ChunkTracker::new();
    let mut storage = ChunkStorage::new();
    let ent = Entity::new(4, 2);
    tracker.register(VoxelCoord::new(-16, -32, -48), ent);
    storage.insert(ent, Chunk::<TestVoxel>::empty(VoxelCoord::new(-16, -32, -48)));
    let batch = vec![Delta { coord: VoxelCoord::new(-1, -32, -40), voxel: TestVoxel::Rock }];
    let done = apply_deltas(&batch, &tracker, &mut storage);
    assert_eq!(done.skipped.len(), 0);
    assert_eq!(done.modified, vec![4]);
    assert_eq!(storage.get(ent).unwrap().voxels[15][0][8], TestVoxel::Rock);
}

#[test]
fn sets_pass_over_a_chunk_that_is_not_where_it_says() {
    let mut tracker = ChunkTracker::new();
    let mut storage = ChunkStorage::new();
    let ent = Entity::new(0, 1);
    tracker.register(VoxelCoord::new(0, 0, 0), ent);
    storage.insert(ent, Chunk::<TestVoxel>::empty(VoxelCoord::new(16, 0, 0)));
    let batch = vec![Delta { coord: VoxelCoord::new(1, 1, 1), voxel: TestVoxel::Rock }];
    let done = apply_deltas(&batch, &tracker, &mut storage);
    assert_eq!(done.skipped.len(), 1);
    assert_eq!(done.modified.len(), 0);
    assert_eq!(storage.get(ent).unwrap().voxels[1][1][1], TestVoxel::Air);
}
