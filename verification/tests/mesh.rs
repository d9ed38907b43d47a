use voxel::mesh::{
    mesh_chunk, mesh_layer, neighbor_coord, ChunkMesherSystem, Direction, InProgress, Position,
};
use voxel::morass::MorassVoxel;
use voxel::storage::ChunkStorage;
use voxel::tracker::{ChunkTracker, Entity};
use voxel::{Chunk, Color, TestVoxel, Voxel, VoxelCoord};

fn fresh() -> InProgress {
    InProgress { color: vec![], position: vec![], normal: vec![] }
}

fn unit(direction: Direction) -> VoxelCoord {
    match direction {
        Direction::East => VoxelCoord::new(1, 0, 0),
        Direction::Up => VoxelCoord::new(0, 1, 0),
        Direction::North => VoxelCoord::new(0, 0, 1),
        Direction::West => VoxelCoord::new(-1, 0, 0),
        Direction::Down => VoxelCoord::new(0, -1, 0),
        Direction::South => VoxelCoord::new(0, 0, -1),
    }
}

/// The quads of a mesh: for each the voxel, the normal and the color, checked to be one quad.
fn quads(mesh: &InProgress) -> Vec<(VoxelCoord, VoxelCoord, Color)> {
    assert_eq!(mesh.position.len(), mesh.color.len());
    assert_eq!(mesh.position.len(), mesh.normal.len());
    assert_eq!(mesh.position.len() % 4, 0);
    let mut found = Vec::new();
    for q in 0..mesh.position.len() / 4 {
        let corners = &mesh.position[4 * q..4 * q + 4];
        let n = mesh.normal[4 * q];
        let color = mesh.color[4 * q];
        for k in 0..4 {
            assert_eq!(mesh.normal[4 * q + k], n);
            assert_eq!(mesh.color[4 * q + k], color);
        }
        let sum = |f: fn(&Position) -> i16| corners.iter().map(f).sum::<i16>();
        let (cx, cy, cz) = (sum(|p| p.x) / 4, sum(|p| p.y) / 4, sum(|p| p.z) / 4);
        // the corners lie half a voxel to each side of the center of the face
        for p in corners {
            let d = ((p.x - cx).abs(), (p.y - cy).abs(), (p.z - cz).abs());
            assert_eq!(d, (1 - n.x.abs(), 1 - n.y.abs(), 1 - n.z.abs()));
        }
        // the first edge crossed with the second points the way the normal does
        let (a, b, c) = (corners[0], corners[1], corners[2]);
        let u = (b.x - a.x, b.y - a.y, b.z - a.z);
        let v = (c.x - b.x, c.y - b.y, c.z - b.z);
        let cross = (u.1 * v.2 - u.2 * v.1, u.2 * v.0 - u.0 * v.2, u.0 * v.1 - u.1 * v.0);
        assert_eq!(cross, (4 * n.x, 4 * n.y, 4 * n.z));
        found.push((VoxelCoord::new((cx - n.x) / 2, (cy - n.y) / 2, (cz - n.z) / 2), n, color));
    }
    found
}

fn world_of(chunks: Vec<Chunk<TestVoxel>>) -> (ChunkTracker, ChunkStorage<TestVoxel>) {
    let mut tracker = ChunkTracker::new();
    let mut storage = ChunkStorage::new();
    let mut index = 0;
    for chunk in chunks {
        let ent = Entity::new(index, 1);
        tracker.register(chunk.coord, ent);
        storage.insert(ent, chunk);
        index += 1;
    }
    (tracker, storage)
}

#[test]
fn directions_come_in_the_order_of_meshing() {
    assert_eq!(
        Direction::all(),
        [
            Direction::East,
            Direction::Up,
            Direction::North,
            Direction::West,
            Direction::Down,
            Direction::South
        ]
    );
    for d in Direction::all() {
        assert_eq!(d.normal(), unit(d));
        let (t1, t2) = d.iters();
        let cross = (
            t1.y * t2.z - t1.z * t2.y,
            t1.z * t2.x - t1.x * t2.z,
            t1.x * t2.y - t1.y * t2.x,
        );
        assert_eq!(cross, (unit(d).x, unit(d).y, unit(d).z));
    }
    assert!(!Direction::East.is_backwards() && !Direction::Up.is_backwards());
    assert!(!Direction::North.is_backwards());
    assert!(Direction::West.is_backwards() && Direction::Down.is_backwards());
    assert!(Direction::South.is_backwards());
}

#[test]
fn single_voxel_at_the_corner_has_six_quads() {
    let mut chunk = Chunk::<TestVoxel>::empty(VoxelCoord::new(0, 0, 0));
    chunk.voxels[0][0][0] = TestVoxel::Rock;
    let (tracker, storage) = world_of(vec![chunk]);
    let mesh = mesh_chunk(VoxelCoord::new(0, 0, 0), &tracker, &storage);
    assert_eq!(mesh.position.len(), 24);
    assert_eq!(mesh.color.len(), 24);
    assert_eq!(mesh.normal.len(), 24);
    let found = quads(&mesh);
    let rock = TestVoxel::Rock.color();
    let origin = VoxelCoord::new(0, 0, 0);
    let expected: Vec<(VoxelCoord, VoxelCoord, Color)> =
        Direction::all().iter().map(|d| (origin, unit(*d), rock)).collect();
    assert_eq!(found, expected);
    // the face to the east, corner by corner, in half voxels
    assert_eq!(
        mesh.position[0..4],
        [
            Position { x: 1, y: 1, z: 1 },
            Position { x: 1, y: -1, z: 1 },
            Position { x: 1, y: -1, z: -1 },
            Position { x: 1, y: 1, z: -1 },
        ]
    );
    // and the face below
    assert_eq!(
        mesh.position[16..20],
        [
            Position { x: -1, y: -1, z: -1 },
            Position { x: 1, y: -1, z: -1 },
            Position { x: 1, y: -1, z: 1 },
            Position { x: -1, y: -1, z: 1 },
        ]
    );
}

#[test]
fn single_voxel_with_empty_chunks_all_around_has_six_quads() {
    let mut center = Chunk::<TestVoxel>::empty(VoxelCoord::new(0, 0, 0));
    center.voxels[0][0][0] = TestVoxel::Grass;
    let mut chunks = vec![center];
    for d in Direction::all() {
        chunks.push(Chunk::<TestVoxel>::empty(neighbor_coord(VoxelCoord::new(0, 0, 0), d).unwrap()));
    }
    let (tracker, storage) = world_of(chunks);
    let mesh = mesh_chunk(VoxelCoord::new(5, 5, 5), &tracker, &storage);
    let found = quads(&mesh);
    assert_eq!(found.len(), 6);
    for (i, d) in Direction::all().iter().enumerate() {
        assert_eq!(found[i], (VoxelCoord::new(0, 0, 0), unit(*d), TestVoxel::Grass.color()));
    }
}

#[test]
fn chunk_without_opaque_voxels_has_no_vertices() {
    let (tracker, storage) = world_of(vec![Chunk::<TestVoxel>::empty(VoxelCoord::new(16, 16, 16))]);
    let mesh = mesh_chunk(VoxelCoord::new(16, 16, 16), &tracker, &storage);
    assert_eq!(mesh.position.len(), 0);
    assert_eq!(mesh.color.len(), 0);
    assert_eq!(mesh.normal.len(), 0);
}

#[test]
fn full_chunk_among_full_chunks_has_no_vertices() {
    let full = |coord: VoxelCoord| {
        let mut chunk = Chunk::<TestVoxel>::empty(coord);
        chunk.voxels = [[[TestVoxel::Rock; 16]; 16]; 16];
        chunk
    };
    let mut chunks = vec![full(VoxelCoord::new(0, 0, 0))];
    for d in Direction::all() {
        chunks.push(full(neighbor_coord(VoxelCoord::new(0, 0, 0), d).unwrap()));
    }
    let (tracker, storage) = world_of(chunks);
    assert_eq!(mesh_chunk(VoxelCoord::new(0, 0, 0), &tracker, &storage).position.len(), 0);
}

#[test]
fn full_chunk_alone_has_its_six_sides() {
    let mut chunk = Chunk::<TestVoxel>::empty(VoxelCoord::new(0, 0, 0));
    chunk.voxels = [[[TestVoxel::Rock; 16]; 16]; 16];
    let (tracker, storage) = world_of(vec![chunk]);
    let mesh = mesh_chunk(VoxelCoord::new(0, 0, 0), &tracker, &storage);
    let found = quads(&mesh);
    assert_eq!(found.len(), 6 * 256);
    for d in Direction::all() {
        let n = unit(d);
        let side: Vec<_> = found.iter().filter(|q| q.1 == n).collect();
        assert_eq!(side.len(), 256);
        for (p, _, _) in side {
            let along = p.x * n.x + p.y * n.y + p.z * n.z;
            assert_eq!(along, if d.is_backwards() { 0 } else { 15 });
        }
    }
}

/// Every face of an opaque voxel onto a transparent one has exactly one quad, and there are
/// no other quads.
#[test]
fn every_exposed_face_has_exactly_one_quad() {
    let voxel_at = |seed: i32, x: i32, y: i32, z: i32| {
        match (x * 7 + y * 13 + z * 29 + seed * 31 + (x * y * z) % 5) % 4 {
            0 => TestVoxel::Rock,
            1 => TestVoxel::Grass,
            _ => TestVoxel::Air,
        }
    };
    let fill = |seed: i32, coord: VoxelCoord| {
        let mut chunk = Chunk::<TestVoxel>::empty(coord);
        for x in 0..16 {
            for y in 0..16 {
                for z in 0..16 {
                    chunk.voxels[x as usize][y as usize][z as usize] = voxel_at(seed, x, y, z);
                }
            }
        }
        chunk
    };
    // neighbors to the east, above and to the south; none on the other three sides
    let chunks = vec![
        fill(0, VoxelCoord::new(0, 0, 0)),
        fill(1, VoxelCoord::new(16, 0, 0)),
        fill(2, VoxelCoord::new(0, 16, 0)),
        fill(3, VoxelCoord::new(0, 0, -16)),
    ];
    let (tracker, storage) = world_of(chunks);
    let mesh = mesh_chunk(VoxelCoord::new(0, 0, 0), &tracker, &storage);
    let found = quads(&mesh);

    let look = |x: i32, y: i32, z: i32| -> TestVoxel {
        let seed = match (x.div_euclid(16), y.div_euclid(16), z.div_euclid(16)) {
            (0, 0, 0) => 0,
            (1, 0, 0) => 1,
            (0, 1, 0) => 2,
            (0, 0, -1) => 3,
            _ => return TestVoxel::Air,
        };
        voxel_at(seed, x.rem_euclid(16), y.rem_euclid(16), z.rem_euclid(16))
    };
    let mut expected = 0;
    for d in Direction::all() {
        let n = unit(d);
        for x in 0..16 {
            for y in 0..16 {
                for z in 0..16 {
                    let here = look(x, y, z);
                    let next = look(x + n.x as i32, y + n.y as i32, z + n.z as i32);
                    let p = VoxelCoord::new(x as i16, y as i16, z as i16);
                    let count = found.iter().filter(|q| q.0 == p && q.1 == n).count();
                    if !here.is_transparent() && next.is_transparent() {
                        assert_eq!(count, 1);
                        let quad = found.iter().find(|q| q.0 == p && q.1 == n).unwrap();
                        assert_eq!(quad.2, here.color());
                        expected += 1;
                    } else {
                        assert_eq!(count, 0);
                    }
                }
            }
        }
    }
    assert!(expected > 1000);
    assert_eq!(found.len(), expected);
}

#[test]
fn mesh_layer_draws_between_two_layers() {
    let mut chunk = Chunk::<TestVoxel>::empty(VoxelCoord::new(0, 0, 0));
    chunk.voxels[3][4][5] = TestVoxel::Rock;
    chunk.voxels[3][4][6] = TestVoxel::Grass;
    chunk.voxels[4][4][6] = TestVoxel::Rock;
    let mut mesh = fresh();
    mesh_layer(&chunk, 3, &chunk, 4, Direction::East, &mut mesh);
    // of the two voxels of layer 3, the one at z = 6 looks onto rock
    assert_eq!(quads(&mesh), vec![(VoxelCoord::new(3, 4, 5), unit(Direction::East), TestVoxel::Rock.color())]);
    // more is added behind what is there
    mesh_layer(&chunk, 3, &chunk, 2, Direction::West, &mut mesh);
    assert_eq!(
        quads(&mesh),
        vec![
            (VoxelCoord::new(3, 4, 5), unit(Direction::East), TestVoxel::Rock.color()),
            (VoxelCoord::new(3, 4, 6), unit(Direction::West), TestVoxel::Grass.color()),
            (VoxelCoord::new(3, 4, 5), unit(Direction::West), TestVoxel::Rock.color()),
        ]
    );
    let mut none = fresh();
    mesh_layer(&chunk, 7, &chunk, 8, Direction::Up, &mut none);
    assert_eq!(none.position.len(), 0);
}

#[test]
fn mesh_layer_walks_rows_along_the_first_tangent() {
    let mut chunk = Chunk::<MorassVoxel>::empty(VoxelCoord::new(0, 0, 0));
    chunk.voxels[0][9][1] = MorassVoxel::Wood;
    chunk.voxels[0][1][9] = MorassVoxel::Stone;
    chunk.voxels[0][1][2] = MorassVoxel::Grass;
    let mut mesh = fresh();
    mesh_layer(&chunk, 0, &chunk, 1, Direction::East, &mut mesh);
    // rows run along y, and within a row the voxels run along z
    let voxels: Vec<VoxelCoord> = quads(&mesh).iter().map(|q| q.0).collect();
    assert_eq!(
        voxels,
        vec![VoxelCoord::new(0, 1, 2), VoxelCoord::new(0, 1, 9), VoxelCoord::new(0, 9, 1)]
    );
    assert_eq!(mesh.color[0], Color { r: 118, g: 166, b: 70, a: 0 });
    assert_eq!(mesh.color[4], Color { r: 132, g: 116, b: 119, a: 0 });
    assert_eq!(mesh.color[8], Color { r: 92, g: 44, b: 29, a: 0 });
}

#[test]
fn neighbor_coord_stops_where_coordinates_end() {
    assert_eq!(
        neighbor_coord(VoxelCoord::new(0, 0, 0), Direction::West),
        Some(VoxelCoord::new(-16, 0, 0))
    );
    assert_eq!(
        neighbor_coord(VoxelCoord::new(32, -16, 48), Direction::North),
        Some(VoxelCoord::new(32, -16, 64))
    );
    assert_eq!(neighbor_coord(VoxelCoord::new(32752, 0, 0), Direction::East), None);
    assert_eq!(neighbor_coord(VoxelCoord::new(0, -32768, 0), Direction::Down), None);
}

#[test]
fn mesher_meshes_what_was_marked() {
    let mut rock = Chunk::<TestVoxel>::empty(VoxelCoord::new(0, 0, 0));
    rock.voxels[8][8][8] = TestVoxel::Rock;
    let (tracker, storage) = world_of(vec![rock, Chunk::<TestVoxel>::empty(VoxelCoord::new(16, 0, 0))]);
    // ten seconds are more than enough for two chunks
    let mut mesher = ChunkMesherSystem::<TestVoxel>::new(10_000_000_000);
    assert!(!mesher.is_dirty(0));
    let done = mesher.run(&tracker, &storage, &vec![1, 0], &vec![], &vec![]);
    assert_eq!(done.len(), 2);
    assert_eq!(done[0].index, 0);
    assert_eq!(done[0].mesh.position.len(), 24);
    assert_eq!(done[1].index, 1);
    assert_eq!(done[1].mesh.position.len(), 0);
    assert!(!mesher.is_dirty(0));
    assert!(!mesher.is_dirty(1));
    // nothing is marked, so nothing is meshed
    assert_eq!(mesher.run(&tracker, &storage, &vec![], &vec![], &vec![]).len(), 0);
    // what was modified is meshed again; what was removed in the same report is not
    let done = mesher.run(&tracker, &storage, &vec![], &vec![0, 1], &vec![1]);
    assert_eq!(done.len(), 1);
    assert_eq!(done[0].index, 0);
}

#[test]
fn mesher_leaves_waiting_what_it_has_no_time_for() {
    let (tracker, storage) = world_of(vec![
        Chunk::<TestVoxel>::empty(VoxelCoord::new(0, 0, 0)),
        Chunk::<TestVoxel>::empty(VoxelCoord::new(16, 0, 0)),
    ]);
    // no time at all
    let mut mesher = ChunkMesherSystem::<TestVoxel>::new(0);
    let done = mesher.run(&tracker, &storage, &vec![0], &vec![1], &vec![]);
    assert_eq!(done.len(), 0);
    assert!(mesher.is_dirty(0));
    assert!(mesher.is_dirty(1));
    assert!(!mesher.is_dirty(2));
    mesher.mark(&vec![], &vec![], &vec![0]);
    assert!(!mesher.is_dirty(0));
    assert!(mesher.is_dirty(1));
}

#[test]
fn mesher_passes_over_what_has_no_chunk() {
    let (tracker, storage) = world_of(vec![Chunk::<TestVoxel>::empty(VoxelCoord::new(0, 0, 0))]);
    let mut mesher = ChunkMesherSystem::<TestVoxel>::new(10_000_000_000);
    // index 5 owns no chunk: it is tried, not meshed, and goes on waiting
    let done = mesher.run(&tracker, &storage, &vec![5, 0], &vec![], &vec![]);
    assert_eq!(done.len(), 1);
    assert_eq!(done[0].index, 0);
    assert!(mesher.is_dirty(5));
    assert!(!mesher.is_dirty(0));
}

#[test]
fn mesher_has_room_for_a_million_indices() {
    assert!(ChunkMesherSystem::<TestVoxel>::capacity() >= 1_048_576);
    let mut mesher = ChunkMesherSystem::<TestVoxel>::new(0);
    let last = ChunkMesherSystem::<TestVoxel>::capacity() - 1;
    mesher.mark(&vec![last, 3], &vec![70_000], &vec![]);
    assert!(mesher.is_dirty(last));
    assert!(mesher.is_dirty(3));
    assert!(mesher.is_dirty(70_000));
    assert!(!mesher.is_dirty(4));
}
