//! Creates meshes from voxels: one quad for every face of an opaque voxel that looks onto a
//! transparent one.
//!
//! Includes a system to automatically track and re-mesh modified chunks.
use vstd::prelude::*;
use crate::soft_time_limit::{
    blended, decayed, measured, started_on_time, time_left, TimeLimiter,
};
use crate::storage::ChunkStorage;
use crate::tracker::{chunk_at, ChunkTracker};
use crate::{in_chunk, Chunk, Color, Voxel, VoxelCoord, CHUNK_EDGE};
use hibitset::{BitSet, BitSetLike};
use std::marker::PhantomData;

verus! {

/// A corner of a quad, in half voxels from the center of the chunk's `[0, 0, 0]` voxel.
#[derive(Clone, Copy, Debug, PartialEq, Eq, Hash, Structural)]
pub struct Position {
    pub x: i16,
    pub y: i16,
    pub z: i16,
}

/// The vertex buffers of a mesh that is being put together: one entry of each per vertex.
pub struct InProgress {
    pub color: Vec<Color>,
    pub position: Vec<Position>,
    pub normal: Vec<VoxelCoord>,
}

#[derive(Clone, Copy, Debug, Hash, PartialEq, Eq, PartialOrd, Ord, Structural)]
pub enum Direction {
    East,
    Up,
    North,
    West,
    Down,
    South,
}

impl Direction {
    pub fn all() -> (a: [Direction; 6])
        ensures
            a@ == all_directions(),
    {
        let a = [
            Direction::East,
            Direction::Up,
            Direction::North,
            Direction::West,
            Direction::Down,
            Direction::South,
        ];
        assert(a@ =~= all_directions());
        a
    }

    /// The unit vector that points in this direction.
    pub open spec fn unit(self) -> VoxelCoord {
        match self {
            Direction::East => VoxelCoord { x: 1, y: 0, z: 0 },
            Direction::Up => VoxelCoord { x: 0, y: 1, z: 0 },
            Direction::North => VoxelCoord { x: 0, y: 0, z: 1 },
            Direction::West => VoxelCoord { x: (-1int) as i16, y: 0, z: 0 },
            Direction::Down => VoxelCoord { x: 0, y: (-1int) as i16, z: 0 },
            Direction::South => VoxelCoord { x: 0, y: 0, z: (-1int) as i16 },
        }
    }

    /// The two unit vectors along which the faces that look in this direction are laid out.
    /// The first crossed with the second is `unit`: a quad that runs from the corner on the
    /// side of both, to the one opposite the first, to the one opposite both, to the one
    /// opposite the second, runs counterclockwise for one who looks at the face from outside.
    pub open spec fn tangents(self) -> (VoxelCoord, VoxelCoord) {
        match self {
            Direction::East => (VoxelCoord { x: 0, y: 1, z: 0 }, VoxelCoord { x: 0, y: 0, z: 1 }),
            Direction::Up => (VoxelCoord { x: 0, y: 0, z: 1 }, VoxelCoord { x: 1, y: 0, z: 0 }),
            Direction::North => (VoxelCoord { x: 1, y: 0, z: 0 }, VoxelCoord { x: 0, y: 1, z: 0 }),
            Direction::West => (VoxelCoord { x: 0, y: 0, z: (-1int) as i16 }, VoxelCoord { x: 0, y: (-1int) as i16, z: 0 }),
            Direction::Down => (VoxelCoord { x: (-1int) as i16, y: 0, z: 0 }, VoxelCoord { x: 0, y: 0, z: (-1int) as i16 }),
            Direction::South => (VoxelCoord { x: 0, y: (-1int) as i16, z: 0 }, VoxelCoord { x: (-1int) as i16, y: 0, z: 0 }),
        }
    }

    /// Whether this direction points down its axis, so that layers are walked from the far
    /// end.
    pub open spec fn backwards(self) -> bool {
        self == Direction::West || self == Direction::Down || self == Direction::South
    }

    pub fn normal(self) -> (n: VoxelCoord)
        ensures
            n == self.unit(),
    {
        match self {
            Direction::East => VoxelCoord { x: 1, y: 0, z: 0 },
            Direction::Up => VoxelCoord { x: 0, y: 1, z: 0 },
            Direction::North => VoxelCoord { x: 0, y: 0, z: 1 },
            Direction::West => VoxelCoord { x: -1, y: 0, z: 0 },
            Direction::Down => VoxelCoord { x: 0, y: -1, z: 0 },
            Direction::South => VoxelCoord { x: 0, y: 0, z: -1 },
        }
    }

    pub fn iters(self) -> (t: (VoxelCoord, VoxelCoord))
        ensures
            t == self.tangents(),
    {
        match self {
            Direction::East => (VoxelCoord { x: 0, y: 1, z: 0 }, VoxelCoord { x: 0, y: 0, z: 1 }),
            Direction::Up => (VoxelCoord { x: 0, y: 0, z: 1 }, VoxelCoord { x: 1, y: 0, z: 0 }),
            Direction::North => (VoxelCoord { x: 1, y: 0, z: 0 }, VoxelCoord { x: 0, y: 1, z: 0 }),
            Direction::West => (VoxelCoord { x: 0, y: 0, z: -1 }, VoxelCoord { x: 0, y: -1, z: 0 }),
            Direction::Down => (VoxelCoord { x: -1, y: 0, z: 0 }, VoxelCoord { x: 0, y: 0, z: -1 }),
            Direction::South => (VoxelCoord { x: 0, y: -1, z: 0 }, VoxelCoord { x: -1, y: 0, z: 0 }),
        }
    }

    pub fn is_backwards(self) -> (b: bool)
        ensures
            b == self.backwards(),
    {
        match self {
            Direction::East | Direction::Up | Direction::North => false,
            Direction::West | Direction::Down | Direction::South => true,
        }
    }
}

/// The six directions, in the order in which a chunk is meshed.
pub open spec fn all_directions() -> Seq<Direction> {
    seq![
        Direction::East,
        Direction::Up,
        Direction::North,
        Direction::West,
        Direction::Down,
        Direction::South,
    ]
}

/// One coordinate of the `n`th voxel along a tangent with component `t`: the voxels are
/// walked from 0 up along a tangent that points up its axis, and from the far end down along
/// one that points down.
pub open spec fn along(t: int, n: int) -> int {
    if t > 0 {
        n
    } else if t < 0 {
        15 - n
    } else {
        0
    }
}

/// The voxel of layer `level` that is `row`th along the first tangent of `direction` and
/// `col`th along the second.
pub open spec fn layer_cell(direction: Direction, level: int, row: int, col: int) -> VoxelCoord {
    let n = direction.unit();
    let (t1, t2) = direction.tangents();
    VoxelCoord {
        x: (if n.x != 0 { level } else { along(t1.x as int, row) + along(t2.x as int, col) }) as i16,
        y: (if n.y != 0 { level } else { along(t1.y as int, row) + along(t2.y as int, col) }) as i16,
        z: (if n.z != 0 { level } else { along(t1.z as int, row) + along(t2.z as int, col) }) as i16,
    }
}

/// A face of a voxel: the voxel, by its offset in its chunk, and the way the face looks.
#[derive(Clone, Copy, Debug, PartialEq, Eq, Structural)]
pub struct Face {
    pub toward: Direction,
    pub at: VoxelCoord,
}

/// The faces in `direction` of the voxels of one layer, in the order in which they are
/// meshed: row by row.
pub open spec fn layer_cells(direction: Direction, level: int) -> Seq<Face> {
    Seq::new(
        256,
        |i: int|
            Face {
                toward: direction,
                at: layer_cell(direction, level, i / 16, i % 16),
            },
    )
}

/// The voxel that lies in layer `to` where `p` lies in layer `from`.
pub open spec fn shifted(direction: Direction, p: VoxelCoord, from: int, to: int) -> VoxelCoord {
    let n = direction.unit();
    VoxelCoord {
        x: (if n.x != 0 { p.x + to - from } else { p.x as int }) as i16,
        y: (if n.y != 0 { p.y + to - from } else { p.y as int }) as i16,
        z: (if n.z != 0 { p.z + to - from } else { p.z as int }) as i16,
    }
}

/// Whether the voxel of `chunk1` whose face it is, in layer `level1`, is opaque and its
/// counterpart in layer `level2` of `chunk2` is transparent: whether the face is to be drawn.
pub open spec fn is_boundary<V: Voxel>(
    chunk1: Chunk<V>,
    level1: int,
    chunk2: Chunk<V>,
    level2: int,
) -> spec_fn(Face) -> bool {
    |f: Face|
        !chunk1.voxel_at(f.at).transparent() && chunk2.voxel_at(
            shifted(f.toward, f.at, level1, level2),
        ).transparent()
}

/// The faces in `direction` of layer `level1` of `chunk1` that are drawn, in the order in
/// which they are meshed.
pub open spec fn layer_faces<V: Voxel>(
    chunk1: Chunk<V>,
    level1: int,
    chunk2: Chunk<V>,
    level2: int,
    direction: Direction,
) -> Seq<Face> {
    layer_cells(direction, level1).filter(is_boundary(chunk1, level1, chunk2, level2))
}

/// `t`, or its opposite.
pub open spec fn side(t: int, same: bool) -> int {
    if same {
        t
    } else {
        -t
    }
}

/// The `k`th corner, of four, of the face in `direction` of the voxel at `p`: the center of
/// the face, half a voxel from the center of the voxel, and from there half a voxel along
/// each tangent, to the side that `k` names.
pub open spec fn corner(p: VoxelCoord, direction: Direction, k: int) -> Position {
    let n = direction.unit();
    let (t1, t2) = direction.tangents();
    let s1 = k == 0 || k == 3;
    let s2 = k == 0 || k == 1;
    Position {
        x: (2 * p.x + n.x + side(t1.x as int, s1) + side(t2.x as int, s2)) as i16,
        y: (2 * p.y + n.y + side(t1.y as int, s1) + side(t2.y as int, s2)) as i16,
        z: (2 * p.z + n.z + side(t1.z as int, s1) + side(t2.z as int, s2)) as i16,
    }
}

/// The positions of the vertices of `faces`: four to the face.
pub open spec fn face_positions(faces: Seq<Face>) -> Seq<Position> {
    Seq::new(4 * faces.len(), |i: int| corner(faces[i / 4].at, faces[i / 4].toward, i % 4))
}

/// The colors of the vertices of `faces`, which are faces of voxels of `chunk`: each has the
/// color of its voxel.
pub open spec fn face_colors<V: Voxel>(chunk: Chunk<V>, faces: Seq<Face>) -> Seq<Color> {
    Seq::new(4 * faces.len(), |i: int| chunk.voxel_at(faces[i / 4].at).tint())
}

/// The normals of the vertices of `faces`: each points the way its face looks.
pub open spec fn face_normals(faces: Seq<Face>) -> Seq<VoxelCoord> {
    Seq::new(4 * faces.len(), |i: int| faces[i / 4].toward.unit())
}

/// For every direction the quad is wound so that it faces outward: its first edge crossed
/// with its second points the way the direction does.
pub proof fn lemma_winding_faces_outward(p: VoxelCoord, direction: Direction)
    requires
        in_chunk(p),
    ensures
        ({
            let a = corner(p, direction, 0);
            let b = corner(p, direction, 1);
            let c = corner(p, direction, 2);
            let n = direction.unit();
            let (ux, uy, uz) = (b.x - a.x, b.y - a.y, b.z - a.z);
            let (vx, vy, vz) = (c.x - b.x, c.y - b.y, c.z - b.z);
            &&& uy * vz - uz * vy == 4 * n.x
            &&& uz * vx - ux * vz == 4 * n.y
            &&& ux * vy - uy * vx == 4 * n.z
        }),
{
    let a = corner(p, direction, 0);
    let b = corner(p, direction, 1);
    let c = corner(p, direction, 2);
    let (t1, t2) = direction.tangents();
    assert(b.x - a.x == -2 * t1.x && b.y - a.y == -2 * t1.y && b.z - a.z == -2 * t1.z);
    assert(c.x - b.x == -2 * t2.x && c.y - b.y == -2 * t2.y && c.z - b.z == -2 * t2.z);
    let (ux, uy, uz) = (b.x - a.x, b.y - a.y, b.z - a.z);
    let (vx, vy, vz) = (c.x - b.x, c.y - b.y, c.z - b.z);
    match direction {
        Direction::East => {
            assert(uy * vz - uz * vy == 4 && uz * vx - ux * vz == 0 && ux * vy - uy * vx == 0)
                by (nonlinear_arith)
                requires
                    ux == 0 && uy == -2 && uz == 0 && vx == 0 && vy == 0 && vz == -2,
            ;
        },
        Direction::Up => {
            assert(uy * vz - uz * vy == 0 && uz * vx - ux * vz == 4 && ux * vy - uy * vx == 0)
                by (nonlinear_arith)
                requires
                    ux == 0 && uy == 0 && uz == -2 && vx == -2 && vy == 0 && vz == 0,
            ;
        },
        Direction::North => {
            assert(uy * vz - uz * vy == 0 && uz * vx - ux * vz == 0 && ux * vy - uy * vx == 4)
                by (nonlinear_arith)
                requires
                    ux == -2 && uy == 0 && uz == 0 && vx == 0 && vy == -2 && vz == 0,
            ;
        },
        Direction::West => {
            assert(uy * vz - uz * vy == -4 && uz * vx - ux * vz == 0 && ux * vy - uy * vx == 0)
                by (nonlinear_arith)
                requires
                    ux == 0 && uy == 0 && uz == 2 && vx == 0 && vy == 2 && vz == 0,
            ;
        },
        Direction::Down => {
            assert(uy * vz - uz * vy == 0 && uz * vx - ux * vz == -4 && ux * vy - uy * vx == 0)
                by (nonlinear_arith)
                requires
                    ux == 2 && uy == 0 && uz == 0 && vx == 0 && vy == 0 && vz == 2,
            ;
        },
        Direction::South => {
            assert(uy * vz - uz * vy == 0 && uz * vx - ux * vz == 0 && ux * vy - uy * vx == -4)
                by (nonlinear_arith)
                requires
                    ux == 0 && uy == 2 && uz == 0 && vx == 2 && vy == 0 && vz == 0,
            ;
        },
    }
}

fn cell_at(direction: Direction, level: i16, row: i16, col: i16) -> (p: VoxelCoord)
    requires
        0 <= level < CHUNK_EDGE,
        0 <= row < CHUNK_EDGE,
        0 <= col < CHUNK_EDGE,
    ensures
        p == layer_cell(direction, level as int, row as int, col as int),
        in_chunk(p),
{
    let last: i16 = CHUNK_EDGE - 1;
    match direction {
        Direction::East => VoxelCoord { x: level, y: row, z: col },
        Direction::Up => VoxelCoord { x: col, y: level, z: row },
        Direction::North => VoxelCoord { x: row, y: col, z: level },
        Direction::West => VoxelCoord { x: level, y: last - col, z: last - row },
        Direction::Down => VoxelCoord { x: last - row, y: level, z: last - col },
        Direction::South => VoxelCoord { x: last - col, y: last - row, z: level },
    }
}

fn corner_at(p: VoxelCoord, direction: Direction, k: u8) -> (c: Position)
    requires
        in_chunk(p),
        k < 4,
    ensures
        c == corner(p, direction, k as int),
{
    let n = direction.normal();
    let (t1, t2) = direction.iters();
    let s1: i16 = if k == 0 || k == 3 { 1 } else { -1 };
    let s2: i16 = if k == 0 || k == 1 { 1 } else { -1 };
    Position {
        x: 2 * p.x + n.x + s1 * t1.x + s2 * t2.x,
        y: 2 * p.y + n.y + s1 * t1.y + s2 * t2.y,
        z: 2 * p.z + n.z + s1 * t1.z + s2 * t2.z,
    }
}

/// The vertices of one more face follow those of the faces before it.
proof fn lemma_one_more_face<V: Voxel>(chunk: Chunk<V>, faces: Seq<Face>, f: Face)
    ensures
        face_positions(faces.push(f)) == face_positions(faces) + seq![
            corner(f.at, f.toward, 0),
            corner(f.at, f.toward, 1),
            corner(f.at, f.toward, 2),
            corner(f.at, f.toward, 3),
        ],
        face_colors(chunk, faces.push(f)) == face_colors(chunk, faces) + seq![
            chunk.voxel_at(f.at).tint(),
            chunk.voxel_at(f.at).tint(),
            chunk.voxel_at(f.at).tint(),
            chunk.voxel_at(f.at).tint(),
        ],
        face_normals(faces.push(f)) == face_normals(faces) + seq![
            f.toward.unit(),
            f.toward.unit(),
            f.toward.unit(),
            f.toward.unit(),
        ],
{
    assert(face_positions(faces.push(f)) =~= face_positions(faces) + seq![
        corner(f.at, f.toward, 0),
        corner(f.at, f.toward, 1),
        corner(f.at, f.toward, 2),
        corner(f.at, f.toward, 3),
    ]);
    assert(face_colors(chunk, faces.push(f)) =~= face_colors(chunk, faces) + seq![
        chunk.voxel_at(f.at).tint(),
        chunk.voxel_at(f.at).tint(),
        chunk.voxel_at(f.at).tint(),
        chunk.voxel_at(f.at).tint(),
    ]);
    assert(face_normals(faces.push(f)) =~= face_normals(faces) + seq![
        f.toward.unit(),
        f.toward.unit(),
        f.toward.unit(),
        f.toward.unit(),
    ]);
}

proof fn lemma_append_twice<A>(a: Seq<A>, b: Seq<A>, c: Seq<A>)
    ensures
        (a + b) + c == a + (b + c),
{
    assert((a + b) + c =~= a + (b + c));
}

/// Adds the four vertices of the face in `direction` of the voxel at `at`.
fn emit_quad(in_progress: &mut InProgress, color: Color, at: VoxelCoord, direction: Direction)
    requires
        in_chunk(at),
    ensures
        final(in_progress).position@ == old(in_progress).position@ + seq![
            corner(at, direction, 0),
            corner(at, direction, 1),
            corner(at, direction, 2),
            corner(at, direction, 3),
        ],
        final(in_progress).color@ == old(in_progress).color@ + seq![color, color, color, color],
        final(in_progress).normal@ == old(in_progress).normal@ + seq![
            direction.unit(),
            direction.unit(),
            direction.unit(),
            direction.unit(),
        ],
{
    let normal = direction.normal();
    let mut k: u8 = 0;
    while k < 4
        invariant
            k <= 4,
            in_chunk(at),
            normal == direction.unit(),
            in_progress.position@ == old(in_progress).position@ + Seq::new(
                k as nat,
                |i: int| corner(at, direction, i),
            ),
            in_progress.color@ == old(in_progress).color@ + Seq::new(k as nat, |i: int| color),
            in_progress.normal@ == old(in_progress).normal@ + Seq::new(k as nat, |i: int| normal),
        decreases 4 - k,
    {
        in_progress.color.push(color);
        in_progress.position.push(corner_at(at, direction, k));
        in_progress.normal.push(normal);
        k = k + 1;
    }
    assert(Seq::new(4, |i: int| corner(at, direction, i)) =~= seq![
        corner(at, direction, 0),
        corner(at, direction, 1),
        corner(at, direction, 2),
        corner(at, direction, 3),
    ]);
    assert(Seq::new(4, |i: int| color) =~= seq![color, color, color, color]);
    assert(Seq::new(4, |i: int| normal) =~= seq![normal, normal, normal, normal]);
}

/// Mesh a single direction of a single layer: the faces between layer `level1` of `chunk1`
/// and layer `level2` of `chunk2`, which lies next to it in `direction`. Every voxel of the
/// first layer that is opaque and looks onto a transparent voxel of the second gets one quad,
/// of four vertices, in the color of the voxel.
pub fn mesh_layer<V: Voxel>(
    chunk1: &Chunk<V>,
    level1: i16,
    chunk2: &Chunk<V>,
    level2: i16,
    direction: Direction,
    in_progress: &mut InProgress,
)
    requires
        0 <= level1 < CHUNK_EDGE,
        0 <= level2 < CHUNK_EDGE,
    ensures
        ({
            let faces = layer_faces(*chunk1, level1 as int, *chunk2, level2 as int, direction);
            &&& final(in_progress).position@ == old(in_progress).position@ + face_positions(faces)
            &&& final(in_progress).color@ == old(in_progress).color@ + face_colors(*chunk1, faces)
            &&& final(in_progress).normal@ == old(in_progress).normal@ + face_normals(faces)
        }),
{
    let ghost cells = layer_cells(direction, level1 as int);
    let ghost wanted = is_boundary(*chunk1, level1 as int, *chunk2, level2 as int);
    let mut i: i16 = 0;
    proof {
        assert(cells.take(0).filter(wanted) =~= Seq::<Face>::empty()) by {
            reveal(Seq::filter);
        }
        assert(in_progress.position@ =~= old(in_progress).position@ + face_positions(
            Seq::<Face>::empty(),
        ));
        assert(in_progress.color@ =~= old(in_progress).color@ + face_colors(
            *chunk1,
            Seq::<Face>::empty(),
        ));
        assert(in_progress.normal@ =~= old(in_progress).normal@ + face_normals(
            Seq::<Face>::empty(),
        ));
    }
    while i < 256
        invariant
            0 <= i <= 256,
            0 <= level1 < CHUNK_EDGE,
            0 <= level2 < CHUNK_EDGE,
            cells == layer_cells(direction, level1 as int),
            wanted == is_boundary(*chunk1, level1 as int, *chunk2, level2 as int),
            in_progress.position@ == old(in_progress).position@ + face_positions(
                cells.take(i as int).filter(wanted),
            ),
            in_progress.color@ == old(in_progress).color@ + face_colors(
                *chunk1,
                cells.take(i as int).filter(wanted),
            ),
            in_progress.normal@ == old(in_progress).normal@ + face_normals(
                cells.take(i as int).filter(wanted),
            ),
        decreases 256 - i,
    {
        let row: i16 = i / CHUNK_EDGE;
        let col: i16 = i % CHUNK_EDGE;
        let loc1 = cell_at(direction, level1, row, col);
        let loc2 = cell_at(direction, level2, row, col);
        assert(loc2 == shifted(direction, loc1, level1 as int, level2 as int));
        let kind1 = chunk1.index_unchecked(loc1);
        let kind2 = chunk2.index_unchecked(loc2);
        let ghost face = Face { toward: direction, at: loc1 };
        let ghost before = cells.take(i as int).filter(wanted);
        proof {
            assert(cells.take(i as int + 1) =~= cells.take(i as int).push(face));
            cells.take(i as int).lemma_filter_push(face, wanted);
            lemma_one_more_face(*chunk1, before, face);
        }
        if !kind1.is_transparent() && kind2.is_transparent() {
            // we have a boundary
            emit_quad(in_progress, kind1.color(), loc1, direction);
            proof {
                lemma_append_twice(old(in_progress).position@, face_positions(before), seq![
                    corner(loc1, direction, 0),
                    corner(loc1, direction, 1),
                    corner(loc1, direction, 2),
                    corner(loc1, direction, 3),
                ]);
                lemma_append_twice(old(in_progress).color@, face_colors(*chunk1, before), seq![
                    chunk1.voxel_at(loc1).tint(),
                    chunk1.voxel_at(loc1).tint(),
                    chunk1.voxel_at(loc1).tint(),
                    chunk1.voxel_at(loc1).tint(),
                ]);
                lemma_append_twice(old(in_progress).normal@, face_normals(before), seq![
                    direction.unit(),
                    direction.unit(),
                    direction.unit(),
                    direction.unit(),
                ]);
            }
        }
        i = i + 1;
    }
    assert(cells.take(256) =~= cells);
}

/// The layer of the chunk whose faces are meshed `j`th, of sixteen, in `direction`: the layers
/// are taken in the order of their partners, and the layer whose partner lies in the next
/// chunk comes last.
pub open spec fn near_level(direction: Direction, j: int) -> int {
    if !direction.backwards() {
        j
    } else if j < 15 {
        j + 1
    } else {
        0
    }
}

/// The layer, of this chunk or the next, onto which the faces of layer `near_level` look.
pub open spec fn far_level(direction: Direction, j: int) -> int {
    if direction.backwards() {
        j
    } else if j < 15 {
        j + 1
    } else {
        0
    }
}

/// Every face of every voxel of a chunk, in the order in which they are meshed: direction by
/// direction, in each direction layer by layer, in each layer row by row.
pub open spec fn chunk_cells() -> Seq<Face> {
    Seq::new(
        24576,
        |i: int|
            {
                let direction = all_directions()[i / 4096];
                let level = near_level(direction, (i % 4096) / 256);
                Face {
                    toward: direction,
                    at: layer_cell(
                        direction,
                        level,
                        (i % 256) / 16,
                        i % 16,
                    ),
                }
            },
    )
}

/// A coordinate one step beyond a chunk, as a coordinate within the next chunk.
pub open spec fn wrapped(c: int) -> int {
    if c < 0 {
        c + 16
    } else if c >= 16 {
        c - 16
    } else {
        c
    }
}

/// The voxel onto which the face `f` of a voxel of `center` looks: the next voxel of
/// `center`, or the voxel of the neighboring chunk that lies against it. Where there is no
/// neighboring chunk, empty space.
pub open spec fn beyond<V: Voxel>(
    center: Chunk<V>,
    around: spec_fn(Direction) -> Option<Chunk<V>>,
    f: Face,
) -> V {
    let n = f.toward.unit();
    let (x, y, z) = (f.at.x + n.x, f.at.y + n.y, f.at.z + n.z);
    let edge = 16int;
    if 0 <= x < edge && 0 <= y < edge && 0 <= z < edge {
        center.voxel_at(VoxelCoord { x: x as i16, y: y as i16, z: z as i16 })
    } else {
        match around(f.toward) {
            Some(next) => next.voxel_at(
                VoxelCoord { x: wrapped(x) as i16, y: wrapped(y) as i16, z: wrapped(z) as i16 },
            ),
            None => V::vacant(),
        }
    }
}

/// Whether the face is to be drawn: its voxel is opaque and looks onto a transparent one.
pub open spec fn is_exposed<V: Voxel>(
    center: Chunk<V>,
    around: spec_fn(Direction) -> Option<Chunk<V>>,
) -> spec_fn(Face) -> bool {
    |f: Face| !center.voxel_at(f.at).transparent() && beyond(center, around, f).transparent()
}

/// The faces of the mesh of `center`, which has the chunks `around` it.
pub open spec fn chunk_faces<V: Voxel>(
    center: Chunk<V>,
    around: spec_fn(Direction) -> Option<Chunk<V>>,
) -> Seq<Face> {
    chunk_cells().filter(is_exposed(center, around))
}

/// The coordinate of the chunk next to the one at `coord` in `direction`, if there is room
/// for one.
pub open spec fn neighbor_of(coord: VoxelCoord, direction: Direction) -> Option<VoxelCoord> {
    let n = direction.unit();
    let (x, y, z) = (
        coord.x + 16 * n.x,
        coord.y + 16 * n.y,
        coord.z + 16 * n.z,
    );
    if i16::MIN <= x <= i16::MAX && i16::MIN <= y <= i16::MAX && i16::MIN <= z <= i16::MAX {
        Some(VoxelCoord { x: x as i16, y: y as i16, z: z as i16 })
    } else {
        None
    }
}

/// The chunks that lie around the one at `coord`, as lookups find them.
pub open spec fn neighbors<V: Voxel>(
    tracker: &ChunkTracker,
    storage: &ChunkStorage<V>,
    coord: VoxelCoord,
) -> spec_fn(Direction) -> Option<Chunk<V>> {
    |d: Direction|
        match neighbor_of(coord, d) {
            Some(c) => chunk_at(tracker, storage, c),
            None => None,
        }
}

pub fn neighbor_coord(coord: VoxelCoord, direction: Direction) -> (c: Option<VoxelCoord>)
    ensures
        c == neighbor_of(coord, direction),
{
    let n = direction.normal();
    let x: i32 = coord.x as i32 + 16 * (n.x as i32);
    let y: i32 = coord.y as i32 + 16 * (n.y as i32);
    let z: i32 = coord.z as i32 + 16 * (n.z as i32);
    if i16::MIN as i32 <= x && x <= i16::MAX as i32 && i16::MIN as i32 <= y && y <= i16::MAX as i32
        && i16::MIN as i32 <= z && z <= i16::MAX as i32 {
        Some(VoxelCoord { x: x as i16, y: y as i16, z: z as i16 })
    } else {
        None
    }
}

/// Two tests that agree on every element of a sequence keep the same elements of it.
proof fn lemma_filter_agree<A>(s: Seq<A>, p: spec_fn(A) -> bool, q: spec_fn(A) -> bool)
    requires
        forall|i: int| 0 <= i < s.len() ==> p(#[trigger] s[i]) == q(s[i]),
    ensures
        s.filter(p) == s.filter(q),
    decreases s.len(),
{
    reveal(Seq::filter);
    if s.len() > 0 {
        lemma_filter_agree(s.drop_last(), p, q);
    }
}

/// The vertices of two runs of faces, one after the other.
proof fn lemma_faces_append<V: Voxel>(chunk: Chunk<V>, a: Seq<Face>, b: Seq<Face>)
    ensures
        face_positions(a + b) == face_positions(a) + face_positions(b),
        face_colors(chunk, a + b) == face_colors(chunk, a) + face_colors(chunk, b),
        face_normals(a + b) == face_normals(a) + face_normals(b),
{
    assert(face_positions(a + b) =~= face_positions(a) + face_positions(b));
    assert(face_colors(chunk, a + b) =~= face_colors(chunk, a) + face_colors(chunk, b));
    assert(face_normals(a + b) =~= face_normals(a) + face_normals(b));
}

/// The faces of the `q`th layer, of 96, stand in the order of the chunk's faces right behind
/// those of the layers before it.
proof fn lemma_layer_segment(q: int)
    requires
        0 <= q < 96,
    ensures
        chunk_cells().take(256 * (q + 1)) == chunk_cells().take(256 * q) + layer_cells(
            all_directions()[q / 16],
            near_level(all_directions()[q / 16], q % 16),
        ),
{
    let direction = all_directions()[q / 16];
    let layer = layer_cells(direction, near_level(direction, q % 16));
    assert forall|i: int| 256 * q <= i < 256 * (q + 1) implies chunk_cells()[i] == layer[i - 256
        * q] by {
        assert(i / 4096 == q / 16);
        assert((i % 4096) / 256 == q % 16);
        assert(i % 256 == i - 256 * q);
        assert((i % 256) % 16 == i % 16);
    }
    assert(chunk_cells().take(256 * (q + 1)) =~= chunk_cells().take(256 * q) + layer);
}

/// Where the voxel lies onto which a face of the `j`th layer in `direction` looks: one step
/// on in this chunk, or, from the last layer, at the near border of the next.
proof fn lemma_far_cell(direction: Direction, j: int, row: int, col: int)
    requires
        0 <= j < 16,
        0 <= row < 16,
        0 <= col < 16,
    ensures
        ({
            let at = layer_cell(direction, near_level(direction, j), row, col);
            let to = shifted(direction, at, near_level(direction, j), far_level(direction, j));
            let n = direction.unit();
            let (x, y, z) = (at.x + n.x, at.y + n.y, at.z + n.z);
            &&& in_chunk(at)
            &&& in_chunk(to)
            &&& j < 15 ==> 0 <= x < 16 && 0 <= y < 16 && 0 <= z < 16
            &&& j == 15 ==> !(0 <= x < 16 && 0 <= y < 16 && 0 <= z < 16)
            &&& to.x == wrapped(x)
            &&& to.y == wrapped(y)
            &&& to.z == wrapped(z)
        }),
{
    match direction {
        Direction::East => {},
        Direction::Up => {},
        Direction::North => {},
        Direction::West => {},
        Direction::Down => {},
        Direction::South => {},
    }
}

/// A face of the `j`th layer in `direction` is drawn in the mesh of the chunk exactly if it
/// is drawn between that layer and the one it looks onto, where `chunk2` is the chunk that
/// holds the latter.
proof fn lemma_layer_agrees<V: Voxel>(
    center: Chunk<V>,
    around: spec_fn(Direction) -> Option<Chunk<V>>,
    chunk2: Chunk<V>,
    direction: Direction,
    j: int,
    k: int,
)
    requires
        0 <= j < 16,
        0 <= k < 256,
        j < 15 ==> chunk2 == center,
        j == 15 ==> match around(direction) {
            Some(next) => chunk2 == next,
            None => forall|p: VoxelCoord| in_chunk(p) ==> #[trigger] chunk2.voxel_at(p) == V::vacant(),
        },
    ensures
        ({
            let f = layer_cells(direction, near_level(direction, j))[k];
            is_exposed(center, around)(f) == is_boundary(
                center,
                near_level(direction, j),
                chunk2,
                far_level(direction, j),
            )(f)
        }),
{
    let level1 = near_level(direction, j);
    let level2 = far_level(direction, j);
    let f = layer_cells(direction, level1)[k];
    let to = shifted(direction, f.at, level1, level2);
    lemma_far_cell(direction, j, k / 16, k % 16);
    let n = direction.unit();
    let (x, y, z) = (f.at.x + n.x, f.at.y + n.y, f.at.z + n.z);
    if j < 15 {
        assert(to == VoxelCoord { x: x as i16, y: y as i16, z: z as i16 });
        assert(beyond(center, around, f) == center.voxel_at(to));
    } else {
        assert(to == VoxelCoord { x: wrapped(x) as i16, y: wrapped(y) as i16, z: wrapped(z) as i16 });
        match around(direction) {
            Some(next) => {
                assert(beyond(center, around, f) == next.voxel_at(to));
            },
            None => {
                assert(beyond(center, around, f) == V::vacant());
                assert(chunk2.voxel_at(to) == V::vacant());
            },
        }
    }
}

/// The faces of the `q`th layer, of 96, follow those of the layers before it in the mesh of
/// the chunk, where `chunk2` is the chunk that holds the layer that they look onto.
proof fn lemma_next_layer<V: Voxel>(
    center: Chunk<V>,
    around: spec_fn(Direction) -> Option<Chunk<V>>,
    chunk2: Chunk<V>,
    q: int,
)
    requires
        0 <= q < 96,
        q % 16 < 15 ==> chunk2 == center,
        q % 16 == 15 ==> match around(all_directions()[q / 16]) {
            Some(next) => chunk2 == next,
            None => forall|p: VoxelCoord| in_chunk(p) ==> #[trigger] chunk2.voxel_at(p) == V::vacant(),
        },
    ensures
        ({
            let direction = all_directions()[q / 16];
            let exposed = is_exposed(center, around);
            chunk_cells().take(256 * (q + 1)).filter(exposed) == chunk_cells().take(256 * q).filter(
                exposed,
            ) + layer_faces(
                center,
                near_level(direction, q % 16),
                chunk2,
                far_level(direction, q % 16),
                direction,
            )
        }),
{
    let direction = all_directions()[q / 16];
    let j = q % 16;
    let level1 = near_level(direction, j);
    let level2 = far_level(direction, j);
    let exposed = is_exposed(center, around);
    let wanted = is_boundary(center, level1, chunk2, level2);
    let layer = layer_cells(direction, level1);
    lemma_layer_segment(q);
    Seq::filter_distributes_over_add(chunk_cells().take(256 * q), layer, exposed);
    assert forall|k: int| 0 <= k < layer.len() implies exposed(#[trigger] layer[k]) == wanted(
        layer[k],
    ) by {
        lemma_layer_agrees(center, around, chunk2, direction, j, k);
    }
    lemma_filter_agree(layer, exposed, wanted);
}

/// The place of a face in the order in which the faces of a chunk are meshed.
pub open spec fn cell_index(f: Face) -> int {
    let (d, level, row, col) = match f.toward {
        Direction::East => (0int, f.at.x as int, f.at.y as int, f.at.z as int),
        Direction::Up => (1int, f.at.y as int, f.at.z as int, f.at.x as int),
        Direction::North => (2int, f.at.z as int, f.at.x as int, f.at.y as int),
        Direction::West => (3int, f.at.x as int, 15 - f.at.z, 15 - f.at.y),
        Direction::Down => (4int, f.at.y as int, 15 - f.at.x, 15 - f.at.z),
        Direction::South => (5int, f.at.z as int, 15 - f.at.y, 15 - f.at.x),
    };
    let j = if !f.toward.backwards() {
        level
    } else if level >= 1 {
        level - 1
    } else {
        15
    };
    4096 * d + 256 * j + 16 * row + col
}

/// A place in the order names its direction, layer, row and column.
proof fn lemma_place(d: int, j: int, row: int, col: int)
    requires
        0 <= d < 6,
        0 <= j < 16,
        0 <= row < 16,
        0 <= col < 16,
    ensures
        ({
            let i = 4096 * d + 256 * j + 16 * row + col;
            &&& 0 <= i < 24576
            &&& i / 4096 == d
            &&& (i % 4096) / 256 == j
            &&& (i % 256) / 16 == row
            &&& i % 16 == col
        }),
{
}

/// Every face of every voxel of the chunk has its place in the order.
proof fn lemma_cell_index(f: Face)
    requires
        in_chunk(f.at),
    ensures
        0 <= cell_index(f) < 24576,
        chunk_cells()[cell_index(f)] == f,
{
    let i = cell_index(f);
    let (d, level, row, col) = match f.toward {
        Direction::East => (0int, f.at.x as int, f.at.y as int, f.at.z as int),
        Direction::Up => (1int, f.at.y as int, f.at.z as int, f.at.x as int),
        Direction::North => (2int, f.at.z as int, f.at.x as int, f.at.y as int),
        Direction::West => (3int, f.at.x as int, 15 - f.at.z, 15 - f.at.y),
        Direction::Down => (4int, f.at.y as int, 15 - f.at.x, 15 - f.at.z),
        Direction::South => (5int, f.at.z as int, 15 - f.at.y, 15 - f.at.x),
    };
    let j = if !f.toward.backwards() {
        level
    } else if level >= 1 {
        level - 1
    } else {
        15
    };
    lemma_place(d, j, row, col);
    assert(all_directions()[d] == f.toward);
    assert(near_level(f.toward, j) == level);
    assert(layer_cell(f.toward, level, row, col) == f.at);
}

/// The face at each place in the order is a face of a voxel of the chunk, and that place is
/// its place.
proof fn lemma_index_of_cell(i: int)
    requires
        0 <= i < 24576,
    ensures
        in_chunk(chunk_cells()[i].at),
        cell_index(chunk_cells()[i]) == i,
{
    let d = i / 4096;
    let j = (i % 4096) / 256;
    let row = (i % 256) / 16;
    let col = i % 16;
    assert(i == 4096 * d + 256 * j + 16 * row + col);
    assert(0 <= d < 6 && 0 <= j < 16 && 0 <= row < 16 && 0 <= col < 16);
    let direction = all_directions()[d];
    let f = chunk_cells()[i];
    assert(f.toward == direction);
    assert(f.at == layer_cell(direction, near_level(direction, j), row, col));
    match direction {
        Direction::East => {},
        Direction::Up => {},
        Direction::North => {},
        Direction::West => {},
        Direction::Down => {},
        Direction::South => {},
    }
}

/// What is kept of a sequence without repeats has no repeats.
proof fn lemma_filter_no_duplicates<A>(s: Seq<A>, p: spec_fn(A) -> bool)
    requires
        s.no_duplicates(),
    ensures
        s.filter(p).no_duplicates(),
    decreases s.len(),
{
    reveal(Seq::filter);
    if s.len() > 0 {
        let rest = s.drop_last();
        lemma_filter_no_duplicates(rest, p);
        if p(s.last()) {
            let kept = rest.filter(p);
            assert forall|i: int| 0 <= i < kept.len() implies kept[i] != s.last() by {
                if kept[i] == s.last() {
                    assert(kept.contains(s.last()));
                    rest.lemma_filter_contains_rev(p, s.last());
                    let k = choose|k: int| 0 <= k < rest.len() && rest[k] == s.last();
                    assert(s[k] == s[s.len() - 1]);
                }
            }
        }
    }
}

/// For every direction and every opaque voxel of the chunk that looks onto a transparent voxel
/// in that direction, the mesh of the chunk holds exactly one quad for that face of that
/// voxel: its four vertices stand together, their normals point in that direction, they have
/// the color of the voxel and lie at the corners of the face.
pub proof fn lemma_one_quad_per_exposed_face<V: Voxel>(
    center: Chunk<V>,
    around: spec_fn(Direction) -> Option<Chunk<V>>,
    direction: Direction,
    p: VoxelCoord,
) -> (i: int)
    requires
        in_chunk(p),
        !center.voxel_at(p).transparent(),
        beyond(center, around, Face { toward: direction, at: p }).transparent(),
    ensures
        ({
            let faces = chunk_faces(center, around);
            let face = Face { toward: direction, at: p };
            &&& 0 <= i < faces.len()
            &&& faces[i] == face
            &&& forall|j: int| 0 <= j < faces.len() && faces[j] == face ==> j == i
            &&& forall|k: int|
                0 <= k < 4 ==> {
                    &&& #[trigger] face_normals(faces)[4 * i + k] == direction.unit()
                    &&& face_colors(center, faces)[4 * i + k] == center.voxel_at(p).tint()
                    &&& face_positions(faces)[4 * i + k] == corner(p, direction, k)
                }
        }),
{
    let exposed = is_exposed(center, around);
    let faces = chunk_faces(center, around);
    let face = Face { toward: direction, at: p };
    lemma_cell_index(face);
    lemma_chunk_cells_distinct();
    lemma_filter_no_duplicates(chunk_cells(), exposed);
    chunk_cells().lemma_filter_contains(exposed, cell_index(face));
    let i = choose|i: int| 0 <= i < faces.len() && faces[i] == face;
    i
}

/// No face stands twice in the order in which the faces of a chunk are meshed.
proof fn lemma_chunk_cells_distinct()
    ensures
        chunk_cells().no_duplicates(),
{
    assert forall|i: int, j: int|
        0 <= i < chunk_cells().len() && 0 <= j < chunk_cells().len() && i != j implies chunk_cells()[i]
        != chunk_cells()[j] by {
        lemma_index_of_cell(i);
        lemma_index_of_cell(j);
    }
}

/// The mesh of a chunk holds a quad only where an opaque voxel looks onto a transparent one.
pub proof fn lemma_only_exposed_faces<V: Voxel>(
    center: Chunk<V>,
    around: spec_fn(Direction) -> Option<Chunk<V>>,
    i: int,
)
    requires
        0 <= i < chunk_faces(center, around).len(),
    ensures
        ({
            let f = chunk_faces(center, around)[i];
            &&& in_chunk(f.at)
            &&& !center.voxel_at(f.at).transparent()
            &&& beyond(center, around, f).transparent()
        }),
{
    let exposed = is_exposed(center, around);
    let f = chunk_faces(center, around)[i];
    chunk_cells().lemma_filter_pred(exposed, i);
    assert(chunk_faces(center, around).contains(f));
    chunk_cells().lemma_filter_contains_rev(exposed, f);
    let k = choose|k: int| 0 <= k < chunk_cells().len() && chunk_cells()[k] == f;
    lemma_index_of_cell(k);
}

/// A chunk that holds no opaque voxel has a mesh without vertices.
pub proof fn lemma_transparent_chunk_has_no_vertices<V: Voxel>(
    center: Chunk<V>,
    around: spec_fn(Direction) -> Option<Chunk<V>>,
)
    requires
        center.all_transparent(),
    ensures
        chunk_faces(center, around).len() == 0,
        face_positions(chunk_faces(center, around)).len() == 0,
        face_colors(center, chunk_faces(center, around)).len() == 0,
        face_normals(chunk_faces(center, around)).len() == 0,
{
    if chunk_faces(center, around).len() > 0 {
        lemma_only_exposed_faces(center, around, 0);
    }
}

/// The mesh of the chunk that holds the voxel at `coord`, which must be a chunk that a lookup
/// finds: for each of the six directions, one quad for every voxel of the chunk that is
/// opaque and looks onto a transparent voxel, of this chunk or of the next. Where there is no
/// next chunk, the voxels at the border look onto empty space.
pub fn mesh_chunk<V: Voxel>(coord: VoxelCoord, tracker: &ChunkTracker, chunks: &ChunkStorage<V>) -> (mesh:
    InProgress)
    requires
        chunk_at(tracker, chunks, coord) is Some,
    ensures
        ({
            let center = chunk_at(tracker, chunks, coord)->0;
            let faces = chunk_faces(center, neighbors(tracker, chunks, center.coord));
            &&& mesh.position@ == face_positions(faces)
            &&& mesh.color@ == face_colors(center, faces)
            &&& mesh.normal@ == face_normals(faces)
        }),
{
    let mut result = InProgress { color: Vec::new(), position: Vec::new(), normal: Vec::new() };
    let center = match tracker.get_chunk(chunks, coord) {
        Some(chunk) => chunk,
        None => {
            assert(false);
            return result;
        },
    };
    let empty = Chunk::<V>::empty(VoxelCoord { x: 0, y: 0, z: 0 });
    let directions = Direction::all();
    let ghost around = neighbors(tracker, chunks, center.coord);
    let ghost exposed = is_exposed(*center, around);
    proof {
        assert(chunk_cells().take(0).filter(exposed) =~= Seq::<Face>::empty()) by {
            reveal(Seq::filter);
        }
        assert(result.position@ =~= face_positions(Seq::<Face>::empty()));
        assert(result.color@ =~= face_colors(*center, Seq::<Face>::empty()));
        assert(result.normal@ =~= face_normals(Seq::<Face>::empty()));
    }
    let mut d: usize = 0;
    while d < 6
        invariant
            d <= 6,
            directions@ == all_directions(),
            around == neighbors(tracker, chunks, center.coord),
            exposed == is_exposed(*center, around),
            forall|p: VoxelCoord| in_chunk(p) ==> #[trigger] empty.voxel_at(p) == V::vacant(),
            result.position@ == face_positions(chunk_cells().take(4096 * d).filter(exposed)),
            result.color@ == face_colors(*center, chunk_cells().take(4096 * d).filter(exposed)),
            result.normal@ == face_normals(chunk_cells().take(4096 * d).filter(exposed)),
        decreases 6 - d,
    {
        let direction = directions[d];
        let backwards = direction.is_backwards();
        // mesh interior faces
        let mut offset: i16 = 0;
        while offset < CHUNK_EDGE - 1
            invariant
                d < 6,
                0 <= offset <= CHUNK_EDGE - 1,
                directions@ == all_directions(),
                direction == all_directions()[d as int],
                backwards == direction.backwards(),
                exposed == is_exposed(*center, around),
                result.position@ == face_positions(
                    chunk_cells().take(256 * (16 * d + offset)).filter(exposed),
                ),
                result.color@ == face_colors(
                    *center,
                    chunk_cells().take(256 * (16 * d + offset)).filter(exposed),
                ),
                result.normal@ == face_normals(
                    chunk_cells().take(256 * (16 * d + offset)).filter(exposed),
                ),
            decreases CHUNK_EDGE - 1 - offset,
        {
            let ghost q = 16 * d + offset;
            let ghost done = chunk_cells().take(256 * q).filter(exposed);
            proof {
                lemma_next_layer(*center, around, *center, q);
                lemma_faces_append(
                    *center,
                    done,
                    layer_faces(
                        *center,
                        near_level(direction, offset as int),
                        *center,
                        far_level(direction, offset as int),
                        direction,
                    ),
                );
            }
            if backwards {
                mesh_layer(center, offset + 1, center, offset, direction, &mut result);
            } else {
                mesh_layer(center, offset, center, offset + 1, direction, &mut result);
            }
            offset = offset + 1;
        }
        let adjacent = match neighbor_coord(center.coord, direction) {
            Some(adjacent_coord) => match tracker.get_chunk(chunks, adjacent_coord) {
                Some(chunk) => chunk,
                None => &empty,
            },
            None => &empty,
        };
        let ghost q = 16 * d + 15;
        let ghost done = chunk_cells().take(256 * q).filter(exposed);
        proof {
            lemma_next_layer(*center, around, *adjacent, q);
            lemma_faces_append(
                *center,
                done,
                layer_faces(*center, near_level(direction, 15), *adjacent, far_level(direction, 15), direction),
            );
        }
        if backwards {
            mesh_layer(center, 0, adjacent, CHUNK_EDGE - 1, direction, &mut result);
        } else {
            mesh_layer(center, CHUNK_EDGE - 1, adjacent, 0, direction, &mut result);
        }
        d = d + 1;
    }
    assert(chunk_cells().take(24576) =~= chunk_cells());
    result
}

/// The bit set of the `hibitset` crate; what is in it has the name `members`.
#[verifier::external_type_specification]
#[verifier::external_body]
pub struct ExBitSet(BitSet);

/// The indices that are in a bit set.
pub uninterp spec fn members(set: BitSet) -> Set<u32>;

/// The least index that a bit set has no room for: the fourth power of the number of bits in
/// a `usize`.
pub open spec fn index_limit() -> int {
    if usize::BITS == 64 {
        16_777_216
    } else {
        1_048_576
    }
}

/// `BitSet::new`: a bit set with nothing in it.
#[verifier::external_body]
fn bitset_new() -> (set: BitSet)
    ensures
        members(set) == Set::<u32>::empty(),
{
    BitSet::new()
}

/// `BitSet::add`: `id` is in the set from now on, and what was in it stays; tells whether
/// `id` was in it already. The set has no room for indices from `index_limit` on.
#[verifier::external_body]
fn bitset_add(set: &mut BitSet, id: u32) -> (was: bool)
    requires
        id < index_limit(),
    ensures
        members(*final(set)) == members(*old(set)).insert(id),
        was == members(*old(set)).contains(id),
{
    set.add(id)
}

/// `BitSet::remove`: `id` is no longer in the set, and what else was in it stays; tells
/// whether `id` was in it.
#[verifier::external_body]
fn bitset_remove(set: &mut BitSet, id: u32) -> (was: bool)
    ensures
        members(*final(set)) == members(*old(set)).remove(id),
        was == members(*old(set)).contains(id),
{
    set.remove(id)
}

/// `BitSet::contains`: whether `id` is in the set.
#[verifier::external_body]
fn bitset_contains(set: &BitSet, id: u32) -> (is: bool)
    ensures
        is == members(*set).contains(id),
{
    set.contains(id)
}

/// `BitSetLike::iter`, collected: the indices that are in the set, each once, from the least
/// to the greatest.
#[verifier::external_body]
fn bitset_list(set: &BitSet) -> (list: Vec<u32>)
    ensures
        ascending(list@),
        list@.to_set() == members(*set),
{
    set.iter().collect()
}

/// Whether each index of the sequence is greater than those before it.
pub open spec fn ascending(list: Seq<u32>) -> bool {
    forall|i: int, j: int| 0 <= i < j < list.len() ==> list[i] < list[j]
}

/// The chunks that await meshing once the host has reported its changes: those that awaited
/// it before and those that were inserted or modified, but for those that were removed.
pub open spec fn marked(
    before: Set<u32>,
    inserted: Seq<u32>,
    modified: Seq<u32>,
    removed: Seq<u32>,
) -> Set<u32> {
    before.union(inserted.to_set()).union(modified.to_set()).difference(removed.to_set())
}

/// The chunk that is meshed for the entity with index `index`: the one that a lookup finds
/// where the chunk of that entity says that it is. None where no entity with that index owns a
/// chunk, or no lookup finds a chunk there.
pub open spec fn mesh_target<V: Voxel>(
    tracker: &ChunkTracker,
    chunks: &ChunkStorage<V>,
    index: u32,
) -> Option<Chunk<V>> {
    match chunks.owner(index) {
        Some(e) => chunk_at(tracker, chunks, chunks.chunks()[e].coord),
        None => None,
    }
}

/// Whether `mesh` is the mesh of `center` among the chunks that a lookup finds around it.
pub open spec fn is_mesh_of<V: Voxel>(
    mesh: InProgress,
    tracker: &ChunkTracker,
    chunks: &ChunkStorage<V>,
    center: Chunk<V>,
) -> bool {
    let faces = chunk_faces(center, neighbors(tracker, chunks, center.coord));
    &&& mesh.position@ == face_positions(faces)
    &&& mesh.color@ == face_colors(center, faces)
    &&& mesh.normal@ == face_normals(faces)
}

/// A mesh that was made, with the index of the entity for whose chunk it was made.
pub struct Meshed {
    pub index: u32,
    pub mesh: InProgress,
}

/// Whether `done` holds the meshes of those of `tried` that have a chunk to mesh, in their
/// order.
pub open spec fn meshes_of<V: Voxel>(
    done: Seq<Meshed>,
    tracker: &ChunkTracker,
    chunks: &ChunkStorage<V>,
    tried: Seq<u32>,
) -> bool {
    &&& done.map_values(|m: Meshed| m.index) == tried.filter(
        |i: u32| mesh_target(tracker, chunks, i) is Some,
    )
    &&& forall|k: int|
        0 <= k < done.len() ==> mesh_target(tracker, chunks, (#[trigger] done[k]).index) is Some
            && is_mesh_of(
            done[k].mesh,
            tracker,
            chunks,
            mesh_target(tracker, chunks, done[k].index)->0,
        )
}

/// Tracks modified chunks and re-meshes them.
///
/// The host says which chunks were inserted, modified and removed; a chunk that it reports as
/// inserted or modified awaits meshing until it has been meshed or is reported as removed.
/// Report a chunk as modified only if you have actually modified it.
/// Otherwise you'll just re-mesh everything.
pub struct ChunkMesherSystem<V: Voxel> {
    time_limiter: TimeLimiter,
    time_limit: u64,
    to_do: BitSet,
    _phantom: PhantomData<V>,
}

impl<V: Voxel> ChunkMesherSystem<V> {
    /// The indices of the entities whose chunks await meshing.
    pub closed spec fn dirty(&self) -> Set<u32> {
        members(self.to_do)
    }

    /// The time that meshing may take in one run, in nanoseconds.
    pub closed spec fn time_limit(&self) -> u64 {
        self.time_limit
    }

    /// The time limiter that paces the meshing, with its estimate of the time that it takes
    /// to mesh one chunk.
    pub closed spec fn limiter(&self) -> TimeLimiter {
        self.time_limiter
    }

    pub open spec fn wf(&self) -> bool {
        self.limiter().wf()
    }

    /// A mesher that gives meshing `time_limit` nanoseconds in each run.
    pub fn new(time_limit: u64) -> (system: Self)
        ensures
            system.wf(),
            system.dirty() == Set::<u32>::empty(),
            system.time_limit() == time_limit,
            system.limiter().time_estimate == 0,
            system.limiter().smoothing == 100_000,
            system.limiter().decay == 990_000,
    {
        ChunkMesherSystem {
            time_limiter: TimeLimiter::new(),
            time_limit,
            to_do: bitset_new(),
            _phantom: PhantomData,
        }
    }

    /// Whether the chunk of the entity with index `index` awaits meshing.
    pub fn is_dirty(&self, index: u32) -> (b: bool)
        ensures
            b == self.dirty().contains(index),
    {
        bitset_contains(&self.to_do, index)
    }

    /// The least index that cannot be marked: see `index_limit`.
    pub fn capacity() -> (limit: u32)
        ensures
            limit == index_limit(),
    {
        if usize::BITS == 64 {
            16_777_216
        } else {
            1_048_576
        }
    }

    /// Takes in what the host reports of its chunks: those inserted and modified await
    /// meshing from now on, those removed no longer do.
    pub fn mark(&mut self, inserted: &Vec<u32>, modified: &Vec<u32>, removed: &Vec<u32>)
        requires
            old(self).wf(),
            forall|i: int| 0 <= i < inserted.len() ==> inserted[i] < index_limit(),
            forall|i: int| 0 <= i < modified.len() ==> modified[i] < index_limit(),
        ensures
            final(self).wf(),
            final(self).time_limit() == old(self).time_limit(),
            final(self).limiter() == old(self).limiter(),
            final(self).dirty() == marked(old(self).dirty(), inserted@, modified@, removed@),
    {
        let ghost before = self.dirty();
        let mut i: usize = 0;
        while i < inserted.len()
            invariant
                i <= inserted.len(),
                self.wf(),
                self.time_limit == old(self).time_limit,
                self.time_limiter == old(self).time_limiter,
                forall|k: int| 0 <= k < inserted.len() ==> inserted[k] < index_limit(),
                members(self.to_do) == before.union(inserted@.take(i as int).to_set()),
            decreases inserted.len() - i,
        {
            bitset_add(&mut self.to_do, inserted[i]);
            proof {
                lemma_take_one_more(inserted@, i as int);
                assert(members(self.to_do) =~= before.union(inserted@.take(i + 1).to_set()));
            }
            i = i + 1;
        }
        assert(inserted@.take(i as int) =~= inserted@);
        let ghost with_inserted = members(self.to_do);
        let mut j: usize = 0;
        while j < modified.len()
            invariant
                j <= modified.len(),
                self.wf(),
                self.time_limit == old(self).time_limit,
                self.time_limiter == old(self).time_limiter,
                forall|k: int| 0 <= k < modified.len() ==> modified[k] < index_limit(),
                members(self.to_do) == with_inserted.union(modified@.take(j as int).to_set()),
            decreases modified.len() - j,
        {
            bitset_add(&mut self.to_do, modified[j]);
            proof {
                lemma_take_one_more(modified@, j as int);
                assert(members(self.to_do) =~= with_inserted.union(modified@.take(j + 1).to_set()));
            }
            j = j + 1;
        }
        assert(modified@.take(j as int) =~= modified@);
        let ghost with_modified = members(self.to_do);
        let mut k: usize = 0;
        while k < removed.len()
            invariant
                k <= removed.len(),
                self.wf(),
                self.time_limit == old(self).time_limit,
                self.time_limiter == old(self).time_limiter,
                members(self.to_do) == with_modified.difference(removed@.take(k as int).to_set()),
            decreases removed.len() - k,
        {
            bitset_remove(&mut self.to_do, removed[k]);
            proof {
                lemma_take_one_more(removed@, k as int);
                assert(members(self.to_do) =~= with_modified.difference(
                    removed@.take(k + 1).to_set(),
                ));
            }
            k = k + 1;
        }
        assert(removed@.take(k as int) =~= removed@);
    }

    /// One run of the mesher. What the host reports is taken in as by `mark`; then the chunks
    /// that await meshing are meshed, from the least index up, one as long as the time limit
    /// is expected to hold; those that were meshed no longer await meshing, the others do.
    /// A chunk that has nothing to mesh is passed over and goes on waiting.
    ///
    /// Each chunk that is tried is one task for the time limiter, and so is the look that
    /// finds no chunk left. How many are tried is for the clock to say: the next is tried
    /// where the clock leaves time for it, and only there, so none is where the estimate
    /// alone takes the time limit.
    #[verifier::loop_isolation(false)]
    pub fn run(
        &mut self,
        tracker: &ChunkTracker,
        chunks: &ChunkStorage<V>,
        inserted: &Vec<u32>,
        modified: &Vec<u32>,
        removed: &Vec<u32>,
    ) -> (done: Vec<Meshed>)
        requires
            old(self).wf(),
            forall|i: int| 0 <= i < inserted.len() ==> inserted[i] < index_limit(),
            forall|i: int| 0 <= i < modified.len() ==> modified[i] < index_limit(),
        ensures
            final(self).wf(),
            final(self).time_limit() == old(self).time_limit(),
            final(self).limiter().smoothing == old(self).limiter().smoothing,
            final(self).limiter().decay == old(self).limiter().decay,
            exists|list: Seq<u32>, tried: int, durations: Seq<u64>, readings: Seq<u64>|
                #![trigger ran(
                    marked(old(self).dirty(), inserted@, modified@, removed@),
                    final(self).dirty(),
                    done@,
                    tracker,
                    chunks,
                    list,
                    tried,
                ), paced(
                    decayed(old(self).limiter().time_estimate, old(self).limiter().decay),
                    old(self).limiter().smoothing,
                    old(self).time_limit(),
                    durations,
                    readings,
                    final(self).limiter().time_estimate,
                    tried,
                    list.len() as int,
                )]
                ran(
                    marked(old(self).dirty(), inserted@, modified@, removed@),
                    final(self).dirty(),
                    done@,
                    tracker,
                    chunks,
                    list,
                    tried,
                ) && paced(
                    decayed(old(self).limiter().time_estimate, old(self).limiter().decay),
                    old(self).limiter().smoothing,
                    old(self).time_limit(),
                    durations,
                    readings,
                    final(self).limiter().time_estimate,
                    tried,
                    list.len() as int,
                ),
            old(self).time_limit() <= decayed(
                old(self).limiter().time_estimate,
                old(self).limiter().decay,
            ) ==> done@.len() == 0 && final(self).dirty() == marked(
                old(self).dirty(),
                inserted@,
                modified@,
                removed@,
            ) && final(self).limiter().time_estimate == decayed(
                old(self).limiter().time_estimate,
                old(self).limiter().decay,
            ),
    {
        self.mark(inserted, modified, removed);
        let ghost waiting = self.dirty();
        let list = bitset_list(&self.to_do);
        let mut done: Vec<Meshed> = Vec::new();
        let mut i: usize = 0;
        let budget = self.time_limit;
        proof {
            lemma_meshes_of_none(tracker, chunks, list@);
        }
        let mut frame = self.time_limiter.frame(budget);
        let ghost promised = *final(frame.limiter);
        let ghost start = frame.estimate();
        let ghost smoothing = frame.smoothing();
        let ghost mut durations: Seq<u64> = Seq::empty();
        let ghost mut readings: Seq<u64> = Seq::empty();
        let mut more = true;
        while more
            invariant
                i <= list.len(),
                frame.wf(),
                frame.budget == budget,
                frame.smoothing() == smoothing,
                frame.decay() == old(self).time_limiter.decay,
                *final(frame.limiter) == promised,
                meshes_of(done@, tracker, chunks, list@.take(i as int)),
                frame.estimate() == measured(start, durations, smoothing),
                started_on_time(start, smoothing, budget, durations, readings),
                i <= durations.len() <= i + 1,
                durations.len() == i + 1 ==> i == list.len(),
                more ==> durations.len() == i && readings.len() == i,
                !more ==> halted(start, smoothing, budget, durations, readings),
                !more && readings.len() == durations.len() ==> durations.len() == i + 1,
            decreases list.len() - i + (if more { 1int } else { 0int }),
        {
            let in_time = frame.have_time();
            proof {
                let reading = choose|elapsed: u64|
                    in_time == #[trigger] time_left(frame.estimate(), elapsed, budget);
                let read = readings.push(reading);
                assert(read.drop_last() =~= readings);
                assert(durations.take(durations.len() as int) =~= durations);
                readings = read;
            }
            if in_time {
                let began = frame.start_task();
                if i < list.len() {
                    let index = list[i];
                    let ghost before = done@;
                    match mesh_for(tracker, chunks, index) {
                        Some(mesh) => {
                            done.push(Meshed { index, mesh });
                            assert(done@.drop_last() =~= before);
                        },
                        None => {},
                    }
                    proof {
                        lemma_meshes_of_more(before, done@, tracker, chunks, list@, i as int);
                    }
                    i = i + 1;
                } else {
                    more = false;
                }
                let ghost estimate = frame.estimate();
                frame.measure(began);
                proof {
                    let duration = choose|duration: u64| #[trigger]
                        blended(estimate, duration, smoothing) == frame.estimate();
                    let longer = durations.push(duration);
                    assert(longer.drop_last() =~= durations);
                    assert forall|j: int| 0 <= j < longer.len() implies time_left(
                        measured(start, longer.take(j), smoothing),
                        #[trigger] readings[j],
                        budget,
                    ) by {
                        if j < durations.len() {
                            assert(longer.take(j) =~= durations.take(j));
                        } else {
                            assert(longer.take(j) =~= durations);
                        }
                    }
                    durations = longer;
                }
            } else {
                more = false;
            }
        }
        let ghost tried = i as int;
        let ghost last = frame.estimate();
        proof {
            if durations.len() > 0 {
                assert(durations.take(0).len() == 0);
                assert(measured(start, durations.take(0), smoothing) == start);
                assert(time_left(start, readings[0], budget));
            }
            assert(paced(
                start,
                smoothing,
                budget,
                durations,
                readings,
                last,
                tried,
                list@.len() as int,
            ));
            if durations.len() == 0 {
                assert(list@.take(0).len() == 0);
                reveal(Seq::filter);
                assert(done@.map_values(|m: Meshed| m.index).len() == 0);
            }
        }
        let mut k: usize = 0;
        while k < done.len()
            invariant
                k <= done.len(),
                self.wf(),
                self.time_limit == old(self).time_limit,
                self.time_limiter.time_estimate == last,
                self.time_limiter.smoothing == smoothing,
                self.time_limiter.decay == old(self).time_limiter.decay,
                members(self.to_do) == waiting.difference(
                    done@.take(k as int).map_values(|m: Meshed| m.index).to_set(),
                ),
            decreases done.len() - k,
        {
            bitset_remove(&mut self.to_do, done[k].index);
            proof {
                let indices = done@.map_values(|m: Meshed| m.index);
                assert(done@.take(k + 1).map_values(|m: Meshed| m.index) =~= indices.take(k + 1));
                assert(done@.take(k as int).map_values(|m: Meshed| m.index) =~= indices.take(
                    k as int,
                ));
                lemma_take_one_more(indices, k as int);
                assert(members(self.to_do) =~= waiting.difference(indices.take(k + 1).to_set()));
            }
            k = k + 1;
        }
        proof {
            assert(done@.take(k as int) =~= done@);
            assert(ran(waiting, self.dirty(), done@, tracker, chunks, list@, tried));
            if done@.len() == 0 {
                assert(done@.map_values(|m: Meshed| m.index).to_set() =~= Set::<u32>::empty());
                assert(self.dirty() =~= waiting);
            }
        }
        done
    }
}

/// Whether a run of the mesher had a reason to start no more tasks than those that took the
/// times `durations`: the clock was read once more and left no time for another, or the last
/// of them was the look that found no chunk left.
pub open spec fn halted(
    estimate: u64,
    smoothing: u32,
    budget: u64,
    durations: Seq<u64>,
    readings: Seq<u64>,
) -> bool {
    readings.len() > durations.len() ==> !time_left(
        measured(estimate, durations, smoothing),
        readings.last(),
        budget,
    )
}

/// Whether a run of the mesher that began with the estimate `estimate`, the estimate decayed
/// already, and had the time limit `budget` can have tried `tried` of `waiting` chunks, its
/// tasks taking the times `durations`, the clock reading `readings` before each, and have
/// ended with the estimate `last`: the estimate is what those times make of it; a task was
/// started where the clock left time for it, so that none is started where the estimate alone
/// takes the time limit; the tasks are the chunks that were tried, and one more at most, which
/// found no chunk left; and the run went on until that one, or until the clock left no time.
pub open spec fn paced(
    estimate: u64,
    smoothing: u32,
    budget: u64,
    durations: Seq<u64>,
    readings: Seq<u64>,
    last: u64,
    tried: int,
    waiting: int,
) -> bool {
    &&& measured(estimate, durations, smoothing) == last
    &&& started_on_time(estimate, smoothing, budget, durations, readings)
    &&& halted(estimate, smoothing, budget, durations, readings)
    &&& budget <= estimate ==> durations.len() == 0
    &&& tried <= durations.len() <= tried + 1
    &&& durations.len() == tried + 1 ==> tried == waiting
    &&& readings.len() == durations.len() ==> durations.len() == tried + 1
}

/// Whether a run of the mesher that found the chunks `waiting` to await meshing, in the order
/// `list`, and tried the first `tried` of them, has made the meshes `done` and left the
/// chunks `after` to await meshing.
pub open spec fn ran<V: Voxel>(
    waiting: Set<u32>,
    after: Set<u32>,
    done: Seq<Meshed>,
    tracker: &ChunkTracker,
    chunks: &ChunkStorage<V>,
    list: Seq<u32>,
    tried: int,
) -> bool {
    &&& ascending(list)
    &&& list.to_set() == waiting
    &&& 0 <= tried <= list.len()
    &&& meshes_of(done, tracker, chunks, list.take(tried))
    &&& after == waiting.difference(done.map_values(|m: Meshed| m.index).to_set())
}

/// The mesh for the entity with index `index`, if there is a chunk to mesh for it.
fn mesh_for<V: Voxel>(tracker: &ChunkTracker, chunks: &ChunkStorage<V>, index: u32) -> (mesh: Option<
    InProgress,
>)
    ensures
        match mesh {
            Some(mesh) => mesh_target(tracker, chunks, index) is Some && is_mesh_of(
                mesh,
                tracker,
                chunks,
                mesh_target(tracker, chunks, index)->0,
            ),
            None => mesh_target(tracker, chunks, index) is None,
        },
{
    proof {
        chunks.lemma_owner(index);
    }
    match chunks.owner_of(index) {
        Some(ent) => match chunks.get(ent) {
            Some(chunk) => {
                if tracker.get_chunk(chunks, chunk.coord).is_some() {
                    Some(mesh_chunk(chunk.coord, tracker, chunks))
                } else {
                    None
                }
            },
            None => None,
        },
        None => None,
    }
}

/// When nothing has been tried, nothing has been meshed.
proof fn lemma_meshes_of_none<V: Voxel>(tracker: &ChunkTracker, chunks: &ChunkStorage<V>, list: Seq<u32>)
    ensures
        meshes_of(Seq::<Meshed>::empty(), tracker, chunks, list.take(0)),
{
    let wanted = |i: u32| mesh_target(tracker, chunks, i) is Some;
    assert(list.take(0).filter(wanted) =~= Seq::<u32>::empty()) by {
        reveal(Seq::filter);
    }
    assert(Seq::<Meshed>::empty().map_values(|m: Meshed| m.index) =~= Seq::<u32>::empty());
}

/// What has been meshed once one more chunk has been tried.
proof fn lemma_meshes_of_more<V: Voxel>(
    before: Seq<Meshed>,
    after: Seq<Meshed>,
    tracker: &ChunkTracker,
    chunks: &ChunkStorage<V>,
    list: Seq<u32>,
    i: int,
)
    requires
        0 <= i < list.len(),
        meshes_of(before, tracker, chunks, list.take(i)),
        mesh_target(tracker, chunks, list[i]) is None ==> after == before,
        mesh_target(tracker, chunks, list[i]) is Some ==> after.len() == before.len() + 1
            && after.drop_last() == before && after.last().index == list[i] && is_mesh_of(
            after.last().mesh,
            tracker,
            chunks,
            mesh_target(tracker, chunks, list[i])->0,
        ),
    ensures
        meshes_of(after, tracker, chunks, list.take(i + 1)),
{
    let wanted = |i: u32| mesh_target(tracker, chunks, i) is Some;
    let index_of = |m: Meshed| m.index;
    assert(list.take(i + 1) =~= list.take(i).push(list[i]));
    list.take(i).lemma_filter_push(list[i], wanted);
    if mesh_target(tracker, chunks, list[i]) is Some {
        assert(after =~= before.push(after.last()));
        assert(after.map_values(index_of) =~= before.map_values(index_of).push(list[i]));
    }
}

/// The first `i + 1` elements of a sequence are its first `i` and the one after them.
proof fn lemma_take_one_more<A>(s: Seq<A>, i: int)
    requires
        0 <= i < s.len(),
    ensures
        s.take(i + 1) == s.take(i).push(s[i]),
        s.take(i + 1).to_set() == s.take(i).to_set().insert(s[i]),
        s.take(0).to_set() == Set::<A>::empty(),
{
    assert(s.take(i + 1) =~= s.take(i).push(s[i]));
    assert(s.take(i + 1).to_set() =~= s.take(i).to_set().insert(s[i])) by {
        assert forall|x: A| s.take(i).to_set().insert(s[i]).contains(x) implies s.take(
            i + 1,
        ).to_set().contains(x) by {
            if x == s[i] {
                assert(s.take(i + 1)[i] == x);
            } else {
                let k = choose|k: int| 0 <= k < s.take(i).len() && s.take(i)[k] == x;
                assert(s.take(i + 1)[k] == x);
            }
        }
        assert forall|x: A| s.take(i + 1).to_set().contains(x) implies s.take(i).to_set().insert(
            s[i],
        ).contains(x) by {
            let longer = s.take(i + 1);
            let k = choose|k: int| 0 <= k < longer.len() && longer[k] == x;
            if k < i {
                assert(s.take(i)[k] == x);
            }
        }
    }
    assert(s.take(0).to_set() =~= Set::<A>::empty());
}

} // verus!
