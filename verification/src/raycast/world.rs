//! Raycast through the chunks of a world: through each chunk that a lookup finds voxel by
//! voxel, and across the chunks that none finds chunk by chunk.
//!
//! The search for the next chunk goes through a coordinate system of its own, in which the
//! chunks are the voxels, since `raycast` always uses a grid size of 1, with faces at one half.
use vstd::prelude::*;
use super::{
    at_limit, cast, cast_from, cast_on, entry_axis, faces_ahead, faces_left, goes_on, heading,
    in_box, limits_ahead, lemma_cast, lemma_cast_from, lemma_how_it_stopped, lemma_sets_out, lemma_stops_once,
    limit, may_visit, may_visit_axis, on_course, previous, raycast, steps_between, stop_in,
    stops_at_beyond, walk, within_voxel, within_voxel_axis, FaceHit, Raycast,
};
use crate::storage::ChunkStorage;
use crate::tracker::{chunk_at, ChunkTracker};
use crate::{
    canonicalize, canonicalize_chunk, chunk_of, chunk_origin, clamp_voxel, nearest_voxel, Chunk,
    Coord, Voxel, VoxelCoord,
};

verus! {

/// The position that stands, in the coordinates in which the chunks are the voxels, for the
/// position `c` along one axis, rounded down. The center of a chunk lies seven and a half
/// voxels, 30720 units, from the center of its first voxel, and a chunk is sixteen voxels wide.
pub open spec fn to_chunk_axis(c: int) -> int {
    (c - 30720) / 16
}

/// The position for which `e` stands, in the coordinates in which the chunks are the voxels.
pub open spec fn from_chunk_axis(e: int) -> int {
    16 * e + 30720
}

/// The point that stands for `c` in the coordinates in which the chunks are the voxels.
pub open spec fn to_chunk_space(c: Coord) -> Coord {
    Coord {
        x: to_chunk_axis(c.x as int) as i32,
        y: to_chunk_axis(c.y as int) as i32,
        z: to_chunk_axis(c.z as int) as i32,
    }
}

/// The point for which `e` stands.
pub open spec fn from_chunk_space(e: Coord) -> Coord {
    Coord {
        x: from_chunk_axis(e.x as int) as i32,
        y: from_chunk_axis(e.y as int) as i32,
        z: from_chunk_axis(e.z as int) as i32,
    }
}

/// The chunk that holds voxel `v`, counted in chunks, along one axis.
#[verifier::opaque]
pub open spec fn chunk_number(v: int) -> int {
    v / 16
}

/// The chunk that holds `v`, counted in chunks.
pub open spec fn chunk_cell(v: VoxelCoord) -> VoxelCoord {
    VoxelCoord {
        x: chunk_number(v.x as int) as i16,
        y: chunk_number(v.y as int) as i16,
        z: chunk_number(v.z as int) as i16,
    }
}

/// The coordinate of the chunk that is counted as `cell`.
pub open spec fn chunk_coord(cell: VoxelCoord) -> VoxelCoord {
    VoxelCoord { x: (16 * cell.x) as i16, y: (16 * cell.y) as i16, z: (16 * cell.z) as i16 }
}

/// The voxel of chunk number `cell` that is nearest to the one in which the position stands
/// for which `e` stands, along one axis: the latter, moved into the chunk where the rounding
/// has put it next to it.
pub open spec fn recovered_axis(e: int, cell: int) -> int {
    let v = nearest_voxel(from_chunk_axis(e));
    if v < 16 * cell {
        16 * cell
    } else if v > 16 * cell + 15 {
        16 * cell + 15
    } else {
        v
    }
}

/// The voxel in which a search for the next chunk has ended, from the point `e` and the chunk
/// number `cell` in which it ended.
pub open spec fn recovered(e: Coord, cell: VoxelCoord) -> VoxelCoord {
    VoxelCoord {
        x: recovered_axis(e.x as int, cell.x as int) as i16,
        y: recovered_axis(e.y as int, cell.y as int) as i16,
        z: recovered_axis(e.z as int, cell.z as int) as i16,
    }
}

/// The first of the voxels that bound the search: the last of the chunk at `min_chunk`.
pub open spec fn search_min(min_chunk: VoxelCoord) -> VoxelCoord {
    VoxelCoord {
        x: (chunk_origin(min_chunk.x as int) + 15) as i16,
        y: (chunk_origin(min_chunk.y as int) + 15) as i16,
        z: (chunk_origin(min_chunk.z as int) + 15) as i16,
    }
}

/// The last of the voxels that bound the search: the first of the chunk at `max_chunk`.
pub open spec fn search_max(max_chunk: VoxelCoord) -> VoxelCoord {
    chunk_of(max_chunk)
}

/// Whether `v` lies between `min` and `max`, neither included, along every axis.
pub open spec fn strictly_inside(v: VoxelCoord, min: VoxelCoord, max: VoxelCoord) -> bool {
    &&& min.x < v.x < max.x
    &&& min.y < v.y < max.y
    &&& min.z < v.z < max.z
}

/// The voxels of `chunk` that stop a ray: the opaque ones, told by their place in the world.
pub open spec fn opaque_in<V: Voxel>(chunk: Chunk<V>) -> spec_fn(VoxelCoord) -> bool {
    |v: VoxelCoord|
        !chunk.voxel_at(
            VoxelCoord {
                x: (v.x - chunk.coord.x) as i16,
                y: (v.y - chunk.coord.y) as i16,
                z: (v.z - chunk.coord.z) as i16,
            },
        ).transparent()
}

/// The chunk numbers at which a lookup finds a chunk.
pub open spec fn populated<V: Voxel>(tracker: &ChunkTracker, storage: &ChunkStorage<V>) -> spec_fn(
    VoxelCoord,
) -> bool {
    |cell: VoxelCoord| chunk_at(tracker, storage, chunk_coord(cell)) is Some
}

/// Where a ray through the world is.
#[derive(Clone, Copy, Debug, PartialEq, Eq, Structural)]
pub struct Course {
    /// The voxel from which the ray is cast through the voxels.
    pub origin_voxel: VoxelCoord,
    /// The point in that voxel from which it is cast: where the ray started, or where it last
    /// came out of a search for the next chunk.
    pub origin: Coord,
    /// The voxel that the ray is in.
    pub voxel: VoxelCoord,
    /// The point at which the ray came into that voxel, rounded towards the origin.
    pub point: Coord,
    /// The face through which it came into it; none where the ray started in it.
    pub face: FaceHit,
}

/// What one stretch of a ray through the world ends in: the ray has stopped, or it goes on.
pub enum Leg {
    Stop(Raycast),
    Continue(Course),
}

/// The course of a ray that starts at `coord`: in the voxel nearest to it.
pub open spec fn sets_out(coord: Coord) -> Course {
    let voxel = VoxelCoord {
        x: clamp_voxel(nearest_voxel(coord.x as int)) as i16,
        y: clamp_voxel(nearest_voxel(coord.y as int)) as i16,
        z: clamp_voxel(nearest_voxel(coord.z as int)) as i16,
    };
    Course { origin_voxel: voxel, origin: coord, voxel, point: coord, face: FaceHit::Contained }
}

/// The first of the voxels around the chunk at `at`.
pub open spec fn around_min(at: VoxelCoord) -> VoxelCoord {
    VoxelCoord { x: (at.x - 1) as i16, y: (at.y - 1) as i16, z: (at.z - 1) as i16 }
}

/// The last of the voxels around the chunk at `at`.
pub open spec fn around_max(at: VoxelCoord) -> VoxelCoord {
    VoxelCoord { x: (at.x + 16) as i16, y: (at.y + 16) as i16, z: (at.z + 16) as i16 }
}

/// A stretch of a ray through `chunk`, which holds the voxel that the ray is in.
///
/// If that voxel is opaque the ray stops in it: it is told to have hit it where it came
/// into it. Else the ray is taken on through the chunk, up to the voxels that lie around it.
/// It stops at an opaque voxel and where it comes to lie on the bounds of the search; else it
/// goes on from the voxel next to the chunk in which it ended.
pub open spec fn leg_within<V: Voxel>(
    chunk: Chunk<V>,
    course: Course,
    direction: Coord,
    min_chunk: VoxelCoord,
    max_chunk: VoxelCoord,
) -> Leg {
    if opaque_in(chunk)(course.voxel) {
        Leg::Stop(
            Raycast {
                face_hit: course.face,
                end: course.point,
                end_voxel: course.voxel,
                hit_interesting: true,
            },
        )
    } else {
        let hit = cast_from(
            opaque_in(chunk),
            course.origin_voxel,
            course.origin,
            direction,
            around_min(chunk.coord),
            around_max(chunk.coord),
            steps_between(course.origin_voxel, course.voxel),
        );
        if hit.hit_interesting || !strictly_inside(
            hit.end_voxel,
            search_min(min_chunk),
            search_max(max_chunk),
        ) {
            Leg::Stop(hit)
        } else {
            Leg::Continue(
                Course { voxel: hit.end_voxel, point: hit.end, face: hit.face_hit, ..course },
            )
        }
    }
}

/// A stretch of a ray from a voxel whose chunk no lookup finds: the ray is cast through the
/// chunks as through voxels, from the point at which it came into its voxel, up to the chunks
/// that bound the search. It stops at the bound; else it goes on, cast anew, from where it
/// came into a chunk that a lookup finds.
pub open spec fn leg_across<V: Voxel>(
    tracker: &ChunkTracker,
    storage: &ChunkStorage<V>,
    course: Course,
    direction: Coord,
    min_chunk: VoxelCoord,
    max_chunk: VoxelCoord,
) -> Leg {
    let hit = cast(
        populated(tracker, storage),
        chunk_cell(course.voxel),
        to_chunk_space(course.point),
        direction,
        chunk_cell(min_chunk),
        chunk_cell(max_chunk),
    );
    let end = from_chunk_space(hit.end);
    let end_voxel = recovered(hit.end, hit.end_voxel);
    if hit.hit_interesting {
        Leg::Continue(
            Course {
                origin_voxel: end_voxel,
                origin: end,
                voxel: end_voxel,
                point: end,
                face: hit.face_hit,
            },
        )
    } else {
        Leg::Stop(Raycast { face_hit: hit.face_hit, end, end_voxel, hit_interesting: false })
    }
}

/// One stretch of a ray through the world: through the chunk of the voxel that it is in where
/// a lookup finds it, across the chunks where none does.
pub open spec fn leg<V: Voxel>(
    tracker: &ChunkTracker,
    storage: &ChunkStorage<V>,
    course: Course,
    direction: Coord,
    min_chunk: VoxelCoord,
    max_chunk: VoxelCoord,
) -> Leg {
    match chunk_at(tracker, storage, course.voxel) {
        Some(chunk) => leg_within(chunk, course, direction, min_chunk, max_chunk),
        None => leg_across(tracker, storage, course, direction, min_chunk, max_chunk),
    }
}

/// Whether `hit` is the result of casting a ray through the world: the ray starts at `coord`
/// in the voxel that holds it, goes stretch by stretch through the courses of `path`, and
/// stops in the stretch from the last of them.
pub open spec fn follows<V: Voxel>(
    tracker: &ChunkTracker,
    storage: &ChunkStorage<V>,
    coord: Coord,
    direction: Coord,
    min_chunk: VoxelCoord,
    max_chunk: VoxelCoord,
    path: Seq<Course>,
    hit: Raycast,
) -> bool {
    &&& path.len() >= 1
    &&& path[0] == sets_out(coord)
    &&& forall|i: int|
        0 <= i < path.len() - 1 ==> #[trigger] leg(
            tracker,
            storage,
            path[i],
            direction,
            min_chunk,
            max_chunk,
        ) == Leg::Continue(path[i + 1])
    &&& leg(tracker, storage, path.last(), direction, min_chunk, max_chunk) == Leg::Stop(hit)
}

/// Along one axis: where the chunk of a voxel begins and ends, and its number.
proof fn lemma_chunk_range(v: int)
    requires
        i16::MIN <= v <= i16::MAX,
    ensures
        i16::MIN <= chunk_origin(v) <= v <= chunk_origin(v) + 15 <= i16::MAX,
        chunk_origin(v) == 16 * chunk_number(v),
        -2048 <= chunk_number(v) <= 2047,
        chunk_origin(chunk_origin(v)) == chunk_origin(v),
{
    reveal(chunk_origin);
    reveal(chunk_number);
}

/// The chunk of a voxel, its number and the bounds that it sets to a search, axis by axis.
proof fn lemma_chunk_parts(v: VoxelCoord)
    ensures
        chunk_of(v).x == chunk_origin(v.x as int),
        chunk_of(v).y == chunk_origin(v.y as int),
        chunk_of(v).z == chunk_origin(v.z as int),
        chunk_cell(v).x == chunk_number(v.x as int),
        chunk_cell(v).y == chunk_number(v.y as int),
        chunk_cell(v).z == chunk_number(v.z as int),
        search_min(v).x == chunk_origin(v.x as int) + 15,
        search_min(v).y == chunk_origin(v.y as int) + 15,
        search_min(v).z == chunk_origin(v.z as int) + 15,
        search_max(v) == chunk_of(v),
        chunk_coord(chunk_cell(v)) == chunk_of(v),
        chunk_of(chunk_of(v)) == chunk_of(v),
        -2048 <= chunk_cell(v).x <= 2047,
        -2048 <= chunk_cell(v).y <= 2047,
        -2048 <= chunk_cell(v).z <= 2047,
        chunk_of(v).x <= v.x <= chunk_of(v).x + 15,
        chunk_of(v).y <= v.y <= chunk_of(v).y + 15,
        chunk_of(v).z <= v.z <= chunk_of(v).z + 15,
{
    lemma_chunk_range(v.x as int);
    lemma_chunk_range(v.y as int);
    lemma_chunk_range(v.z as int);
}

fn to_chunk(c: i32) -> (e: i32)
    ensures
        e == to_chunk_axis(c as int),
{
    let n: i64 = c as i64 - 30720;
    let q: i64 = n / 16;
    let r: i64 = n % 16;
    if r < 0 {
        (q - 1) as i32
    } else {
        q as i32
    }
}

fn from_chunk(e: i32) -> (c: i32)
    requires
        -0x0800_0000 <= e <= 0x0800_0000 - 30720,
    ensures
        c == from_chunk_axis(e as int),
{
    16 * e + 30720
}

/// Along one axis: a position that lies in a chunk, as its voxels count it, lies in that
/// chunk as the chunks count it, and back; and the voxel that is recovered from it holds it.
proof fn lemma_chunk_space(c: int, v: int, e: int, cell: int)
    requires
        i16::MIN <= v <= i16::MAX,
    ensures
        within_voxel_axis(c, v) ==> within_voxel_axis(to_chunk_axis(c), chunk_number(v)),
        within_voxel_axis(e, cell) ==> within_voxel_axis(
            from_chunk_axis(e),
            recovered_axis(e, cell),
        ),
        within_voxel_axis(e, cell) ==> 16 * cell <= recovered_axis(e, cell) <= 16 * cell + 15,
        within_voxel_axis(e, cell) ==> -1 <= recovered_axis(e, cell) - nearest_voxel(
            from_chunk_axis(e),
        ) <= 1,
        -2048 <= cell <= 2047 ==> chunk_number(recovered_axis(e, cell)) == cell,
{
    reveal(chunk_origin);
    reveal(chunk_number);
}

/// Where the search for the next chunk has ended in the chunk with number `cell`, at the point
/// for which `e` stands, the voxel that is recovered from the point is a voxel of that chunk,
/// holds the point, and lies no more than one voxel along each axis from the voxel nearest to
/// the point.
pub proof fn lemma_recovered_is_near(e: Coord, cell: VoxelCoord)
    requires
        within_voxel(e, cell),
        -2048 <= cell.x <= 2047,
        -2048 <= cell.y <= 2047,
        -2048 <= cell.z <= 2047,
    ensures
        ({
            let v = recovered(e, cell);
            let point = from_chunk_space(e);
            &&& chunk_cell(v) == cell
            &&& within_voxel(point, v)
            &&& -1 <= v.x - nearest_voxel(point.x as int) <= 1
            &&& -1 <= v.y - nearest_voxel(point.y as int) <= 1
            &&& -1 <= v.z - nearest_voxel(point.z as int) <= 1
        }),
{
    lemma_chunk_space(0, 0, e.x as int, cell.x as int);
    lemma_chunk_space(0, 0, e.y as int, cell.y as int);
    lemma_chunk_space(0, 0, e.z as int, cell.z as int);
    lemma_chunk_parts(recovered(e, cell));
}

/// The number of the chunk that holds `v`.
fn chunk_cell_of(v: VoxelCoord) -> (cell: VoxelCoord)
    ensures
        cell == chunk_cell(v),
        -2048 <= cell.x <= 2047,
        -2048 <= cell.y <= 2047,
        -2048 <= cell.z <= 2047,
{
    reveal(chunk_origin);
    reveal(chunk_number);
    let at = canonicalize_chunk(v);
    proof {
        lemma_chunk_parts(v);
        lemma_chunk_range(v.x as int);
        lemma_chunk_range(v.y as int);
        lemma_chunk_range(v.z as int);
    }
    VoxelCoord { x: at.x / 16, y: at.y / 16, z: at.z / 16 }
}

/// The voxel of the chunk with number `cell` in which the point stands for which `e` stands:
/// the voxel nearest to the point, moved into the chunk where the rounding has put it next
/// to it.
fn recover(e: Coord, cell: VoxelCoord) -> (r: (VoxelCoord, Coord))
    requires
        within_voxel(e, cell),
        -2048 <= cell.x <= 2047,
        -2048 <= cell.y <= 2047,
        -2048 <= cell.z <= 2047,
    ensures
        r.0 == recovered(e, cell),
        r.1 == from_chunk_space(e),
        within_voxel(r.1, r.0),
        chunk_cell(r.0) == cell,
{
    proof {
        lemma_chunk_space(0, 0, e.x as int, cell.x as int);
        lemma_chunk_space(0, 0, e.y as int, cell.y as int);
        lemma_chunk_space(0, 0, e.z as int, cell.z as int);
    }
    let end = Coord { x: from_chunk(e.x), y: from_chunk(e.y), z: from_chunk(e.z) };
    let near = canonicalize(end);
    let first = VoxelCoord { x: 16 * cell.x, y: 16 * cell.y, z: 16 * cell.z };
    let voxel = VoxelCoord {
        x: if near.x < first.x { first.x } else if near.x > first.x + 15 { first.x + 15 } else { near.x },
        y: if near.y < first.y { first.y } else if near.y > first.y + 15 { first.y + 15 } else { near.y },
        z: if near.z < first.z { first.z } else if near.z > first.z + 15 { first.z + 15 } else { near.z },
    };
    proof {
        lemma_chunk_parts(voxel);
    }
    (voxel, end)
}

/// Whether the ray can go on from `voxel`: it lies within the bounds of the search, and within
/// it lies the point at which the ray is.
pub open spec fn under_way(
    voxel: VoxelCoord,
    coord: Coord,
    min_chunk: VoxelCoord,
    max_chunk: VoxelCoord,
) -> bool {
    &&& strictly_inside(voxel, search_min(min_chunk), search_max(max_chunk))
    &&& within_voxel(coord, voxel)
}

/// How many chunks a ray in voxel `voxel` has yet to cross before it is in a chunk that bounds
/// the search along every axis along which it moves.
pub open spec fn chunks_ahead(
    voxel: VoxelCoord,
    direction: Coord,
    min_chunk: VoxelCoord,
    max_chunk: VoxelCoord,
) -> int {
    faces_ahead(chunk_cell(voxel), direction, chunk_cell(min_chunk), chunk_cell(max_chunk))
}

/// Whether the ray can go on along `course`, on which it has crossed `k` faces since its
/// origin: it is in a voxel strictly within the bounds of the search, where its course from
/// its origin has it.
pub open spec fn on_its_way(
    course: Course,
    direction: Coord,
    min_chunk: VoxelCoord,
    max_chunk: VoxelCoord,
    k: nat,
) -> bool {
    &&& under_way(course.voxel, course.point, min_chunk, max_chunk)
    &&& within_voxel(course.origin, course.origin_voxel)
    &&& on_course(course.origin_voxel, course.origin, direction, course.voxel, k)
}

/// Takes the ray on through the chunk `chunk`, which holds the voxel that it is in.
fn cast_through_chunk<V: Voxel>(
    chunk: &Chunk<V>,
    course: Course,
    direction: Coord,
    Ghost(k): Ghost<nat>,
) -> (r: (Raycast, Ghost<nat>))
    requires
        within_voxel(course.origin, course.origin_voxel),
        on_course(course.origin_voxel, course.origin, direction, course.voxel, k),
        chunk.coord == chunk_of(course.voxel),
        i16::MIN < chunk.coord.x && chunk.coord.x + 16 <= i16::MAX,
        i16::MIN < chunk.coord.y && chunk.coord.y + 16 <= i16::MAX,
        i16::MIN < chunk.coord.z && chunk.coord.z + 16 <= i16::MAX,
        direction.x != 0 || direction.y != 0 || direction.z != 0,
    ensures
        ({
            let hit = r.0;
            let min = around_min(chunk.coord);
            let max = around_max(chunk.coord);
            &&& hit == cast_from(
                opaque_in(*chunk),
                course.origin_voxel,
                course.origin,
                direction,
                min,
                max,
                k,
            )
            &&& stops_at_beyond(
                opaque_in(*chunk),
                course.origin_voxel,
                course.origin,
                direction,
                min,
                max,
                k,
                r.1@,
            )
            &&& hit == stop_in(course.origin_voxel, course.origin, direction, min, max, r.1@)
            &&& forall|j: nat|
                k <= j < r.1@ ==> may_visit(
                    #[trigger] walk(course.origin_voxel, course.origin, direction, j),
                    course.voxel,
                    direction,
                    min,
                    max,
                )
            &&& on_course(course.origin_voxel, course.origin, direction, hit.end_voxel, r.1@)
            &&& in_box(hit.end_voxel, min, max)
            &&& within_voxel(hit.end, hit.end_voxel)
            &&& hit.face_hit != FaceHit::Contained
            &&& may_visit(
                previous(hit.end_voxel, hit.face_hit, direction),
                course.voxel,
                direction,
                min,
                max,
            )
            &&& hit.hit_interesting ==> may_visit(hit.end_voxel, course.voxel, direction, min, max)
                && opaque_in(*chunk)(hit.end_voxel)
            &&& !hit.hit_interesting ==> at_limit(hit.end_voxel, hit.face_hit, direction, min, max)
        }),
{
    let at = chunk.coord;
    let min = VoxelCoord { x: at.x - 1, y: at.y - 1, z: at.z - 1 };
    let max = VoxelCoord { x: at.x + 16, y: at.y + 16, z: at.z + 16 };
    proof {
        lemma_chunk_parts(course.voxel);
        lemma_chunk_range(course.voxel.x as int);
        lemma_chunk_range(course.voxel.y as int);
        lemma_chunk_range(course.voxel.z as int);
    }
    let is_opaque = |v: VoxelCoord| -> (b: bool)
        requires
            at.x <= v.x < at.x + 16,
            at.y <= v.y < at.y + 16,
            at.z <= v.z < at.z + 16,
        ensures
            b == opaque_in(*chunk)(v),
        { !chunk.index(VoxelCoord { x: v.x - at.x, y: v.y - at.y, z: v.z - at.z }).is_transparent() };
    let (hit, Ghost(found)) = cast_on(
        course.origin_voxel,
        course.origin,
        direction,
        course.voxel,
        min,
        max,
        is_opaque,
        Ghost(k),
    );
    proof {
        lemma_cast_from(
            is_opaque,
            opaque_in(*chunk),
            course.origin_voxel,
            course.origin,
            direction,
            min,
            max,
            k,
            found,
            hit,
        );
    }
    (hit, Ghost(found))
}

/// Casts the ray through the chunks as through voxels, from the chunk that holds `voxel`.
fn cast_through_chunks<V: Voxel>(
    tracker: &ChunkTracker,
    storage: &ChunkStorage<V>,
    voxel: VoxelCoord,
    coord: Coord,
    direction: Coord,
    min_chunk: VoxelCoord,
    max_chunk: VoxelCoord,
) -> (hit: Raycast)
    requires
        under_way(voxel, coord, min_chunk, max_chunk),
        direction.x != 0 || direction.y != 0 || direction.z != 0,
    ensures
        ({
            let min = chunk_cell(min_chunk);
            let max = chunk_cell(max_chunk);
            &&& hit == cast(
                populated(tracker, storage),
                chunk_cell(voxel),
                to_chunk_space(coord),
                direction,
                min,
                max,
            )
            &&& in_box(hit.end_voxel, min, max)
            &&& within_voxel(hit.end, hit.end_voxel)
            &&& hit.face_hit != FaceHit::Contained ==> faces_ahead(hit.end_voxel, direction, min, max)
                < faces_ahead(chunk_cell(voxel), direction, min, max)
            &&& may_visit(previous(hit.end_voxel, hit.face_hit, direction), chunk_cell(voxel), direction, min, max)
            &&& within_voxel(hit.end, previous(hit.end_voxel, hit.face_hit, direction))
            &&& hit.hit_interesting ==> may_visit(hit.end_voxel, chunk_cell(voxel), direction, min, max)
                && populated(tracker, storage)(hit.end_voxel)
            &&& !hit.hit_interesting ==> hit.face_hit != FaceHit::Contained && at_limit(
                hit.end_voxel,
                hit.face_hit,
                direction,
                min,
                max,
            )
        }),
{
    let cell = chunk_cell_of(voxel);
    let min = chunk_cell_of(min_chunk);
    let max = chunk_cell_of(max_chunk);
    let start = Coord { x: to_chunk(coord.x), y: to_chunk(coord.y), z: to_chunk(coord.z) };
    proof {
        lemma_chunk_parts(voxel);
        lemma_chunk_parts(min_chunk);
        lemma_chunk_parts(max_chunk);
        lemma_chunk_space(coord.x as int, voxel.x as int, 0, 0);
        lemma_chunk_space(coord.y as int, voxel.y as int, 0, 0);
        lemma_chunk_space(coord.z as int, voxel.z as int, 0, 0);
        lemma_cell_in_search(voxel.x as int, min_chunk.x as int, max_chunk.x as int);
        lemma_cell_in_search(voxel.y as int, min_chunk.y as int, max_chunk.y as int);
        lemma_cell_in_search(voxel.z as int, min_chunk.z as int, max_chunk.z as int);
    }
    let is_populated = |v: VoxelCoord| -> (b: bool)
        requires
            -2048 <= v.x <= 2047,
            -2048 <= v.y <= 2047,
            -2048 <= v.z <= 2047,
        ensures
            b == populated(tracker, storage)(v),
        { tracker.get_chunk(storage, VoxelCoord { x: 16 * v.x, y: 16 * v.y, z: 16 * v.z }).is_some() };
    let hit = raycast(cell, start, direction, min, max, is_populated);
    proof {
        lemma_cast(is_populated, populated(tracker, storage), cell, start, direction, min, max, hit);
        lemma_how_it_stopped(
            is_populated,
            populated(tracker, storage),
            cell,
            start,
            direction,
            min,
            max,
            hit,
        );
    }
    hit
}

/// Whether the ray stops at the voxel at `v`: whether a lookup finds a chunk that holds it,
/// and it is opaque there.
pub open spec fn opaque_at<V: Voxel>(
    tracker: &ChunkTracker,
    storage: &ChunkStorage<V>,
    v: VoxelCoord,
) -> bool {
    match chunk_at(tracker, storage, v) {
        Some(chunk) => opaque_in(chunk)(v),
        None => false,
    }
}

/// What a ray that has stopped tells of the world: it is told to have hit an interesting voxel
/// only where it has ended in an opaque voxel, and else it has ended on the bounds of the
/// search.
pub open spec fn stopped_well<V: Voxel>(
    tracker: &ChunkTracker,
    storage: &ChunkStorage<V>,
    min_chunk: VoxelCoord,
    max_chunk: VoxelCoord,
    hit: Raycast,
) -> bool {
    &&& hit.hit_interesting ==> opaque_at(tracker, storage, hit.end_voxel)
    &&& !hit.hit_interesting ==> !strictly_inside(
        hit.end_voxel,
        search_min(min_chunk),
        search_max(max_chunk),
    )
}

/// The voxels of the world that stop a ray: those that are opaque in a chunk that a lookup
/// finds.
pub open spec fn opaque_world<V: Voxel>(tracker: &ChunkTracker, storage: &ChunkStorage<V>) -> spec_fn(
    VoxelCoord,
) -> bool {
    |v: VoxelCoord| opaque_at(tracker, storage, v)
}

/// Whether a lookup finds a chunk for every voxel that lies strictly within the bounds of the
/// search.
pub open spec fn all_found<V: Voxel>(
    tracker: &ChunkTracker,
    storage: &ChunkStorage<V>,
    min_chunk: VoxelCoord,
    max_chunk: VoxelCoord,
) -> bool {
    forall|v: VoxelCoord|
        strictly_inside(v, search_min(min_chunk), search_max(max_chunk)) ==> #[trigger] chunk_at(
            tracker,
            storage,
            v,
        ) is Some
}

/// Whether a ray that goes through the world chunk by chunk is, on `course`, where one cast
/// from `coord` through the whole of the search at once would be after it has crossed `k`
/// faces: it was never cast anew, it has gone on through every voxel before the one that it is
/// in, and it has come into that one where the one cast comes into it.
pub open spec fn keeps_pace(
    world: spec_fn(VoxelCoord) -> bool,
    coord: Coord,
    direction: Coord,
    min: VoxelCoord,
    max: VoxelCoord,
    course: Course,
    k: nat,
) -> bool {
    let start = sets_out(coord).voxel;
    &&& course.origin_voxel == start
    &&& course.origin == coord
    &&& forall|j: nat|
        1 <= j < k ==> #[trigger] goes_on(world, start, coord, direction, min, max, j)
    &&& k == 0 ==> course == sets_out(coord)
    &&& k >= 1 ==> {
        &&& !world(start)
        &&& !at_limit(course.voxel, course.face, direction, min, max)
        &&& (Raycast {
            face_hit: course.face,
            end: course.point,
            end_voxel: course.voxel,
            hit_interesting: true,
        }) == stop_in(start, coord, direction, min, max, k)
    }
}

/// What a stretch of a ray that keeps pace with one cast through the whole of the search ends
/// in: where it stops, the one cast stops too, and tells the same; where it goes on, it keeps
/// pace.
pub open spec fn leg_keeps_pace(
    world: spec_fn(VoxelCoord) -> bool,
    coord: Coord,
    direction: Coord,
    min: VoxelCoord,
    max: VoxelCoord,
    l: Leg,
    k: nat,
) -> bool {
    match l {
        Leg::Stop(hit) => hit == cast(world, sets_out(coord).voxel, coord, direction, min, max),
        Leg::Continue(course) => keeps_pace(world, coord, direction, min, max, course, k),
    }
}

/// What holds of where a stretch of the ray from voxel `voxel` has ended, and of the course
/// on which the ray goes on, on which it has crossed `k` faces since its origin.
pub open spec fn leg_ends_well(
    l: Leg,
    voxel: VoxelCoord,
    direction: Coord,
    min_chunk: VoxelCoord,
    max_chunk: VoxelCoord,
    k: nat,
) -> bool {
    match l {
        Leg::Continue(course) => on_its_way(course, direction, min_chunk, max_chunk, k) && 0
            <= chunks_ahead(course.voxel, direction, min_chunk, max_chunk) < chunks_ahead(
            voxel,
            direction,
            min_chunk,
            max_chunk,
        ),
        Leg::Stop(hit) => within_voxel(hit.end, hit.end_voxel) && in_box(
            hit.end_voxel,
            search_min(min_chunk),
            search_max(max_chunk),
        ),
    }
}

/// Along one axis: the chunk of a voxel that lies strictly within the bounds of the search
/// lies within them with the voxels on either side of it, and its number lies strictly
/// between the numbers of the chunks that bound the search.
proof fn lemma_cell_in_search(v: int, min: int, max: int)
    requires
        i16::MIN <= v <= i16::MAX,
        i16::MIN <= min <= i16::MAX,
        i16::MIN <= max <= i16::MAX,
        chunk_origin(min) + 15 < v < chunk_origin(max),
    ensures
        chunk_number(min) < chunk_number(v) < chunk_number(max),
        chunk_origin(min) + 15 <= chunk_origin(v) - 1,
        chunk_origin(v) + 16 <= chunk_origin(max),
        chunk_origin(v) <= v <= chunk_origin(v) + 15,
        chunk_origin(v) == 16 * chunk_number(v),
{
    reveal(chunk_origin);
    reveal(chunk_number);
}

/// Along one axis: where the search for the next chunk has ended, as a voxel. In a chunk
/// strictly between those that bound the search, it lies strictly within the bounds of the
/// search; at the face through which the ray came into a chunk that bounds the search, it
/// is the voxel that bounds the search.
proof fn lemma_recovered_in_search(e: int, cell: int, from: int, min: int, max: int)
    requires
        -2048 <= cell <= 2047,
        -2048 <= from <= 2047,
        i16::MIN <= min <= i16::MAX,
        i16::MIN <= max <= i16::MAX,
        within_voxel_axis(e, cell),
        within_voxel_axis(e, from),
        from == cell || from == cell - 1 || from == cell + 1,
        chunk_number(min) < from < chunk_number(max),
        chunk_number(min) <= cell <= chunk_number(max),
    ensures
        chunk_origin(min) + 15 <= recovered_axis(e, cell) <= chunk_origin(max),
        chunk_number(min) < cell < chunk_number(max) ==> chunk_origin(min) + 15 < recovered_axis(
            e,
            cell,
        ) < chunk_origin(max),
        chunk_number(recovered_axis(e, cell)) == cell,
{
    reveal(chunk_origin);
    reveal(chunk_number);
}

/// Where a stretch through the chunk of `voxel` has ended lies within the bounds of the
/// search; where the ray goes on from there, it has fewer chunks ahead of it.
proof fn lemma_within_ends_well(
    voxel: VoxelCoord,
    direction: Coord,
    min_chunk: VoxelCoord,
    max_chunk: VoxelCoord,
    hit: Raycast,
)
    requires
        strictly_inside(voxel, search_min(min_chunk), search_max(max_chunk)),
        ({
            let at = chunk_of(voxel);
            let min = VoxelCoord { x: (at.x - 1) as i16, y: (at.y - 1) as i16, z: (at.z - 1) as i16 };
            let max = VoxelCoord { x: (at.x + 16) as i16, y: (at.y + 16) as i16, z: (at.z + 16) as i16 };
            &&& in_box(hit.end_voxel, min, max)
            &&& may_visit(previous(hit.end_voxel, hit.face_hit, direction), voxel, direction, min, max)
            &&& !hit.hit_interesting ==> hit.face_hit != FaceHit::Contained && at_limit(
                hit.end_voxel,
                hit.face_hit,
                direction,
                min,
                max,
            )
        }),
    ensures
        in_box(hit.end_voxel, search_min(min_chunk), search_max(max_chunk)),
        !hit.hit_interesting && strictly_inside(
            hit.end_voxel,
            search_min(min_chunk),
            search_max(max_chunk),
        ) ==> 0 <= chunks_ahead(hit.end_voxel, direction, min_chunk, max_chunk) < chunks_ahead(
            voxel,
            direction,
            min_chunk,
            max_chunk,
        ),
{
    lemma_chunk_parts(voxel);
    lemma_chunk_parts(min_chunk);
    lemma_chunk_parts(max_chunk);
    lemma_chunk_parts(hit.end_voxel);
    lemma_cell_in_search(voxel.x as int, min_chunk.x as int, max_chunk.x as int);
    lemma_cell_in_search(voxel.y as int, min_chunk.y as int, max_chunk.y as int);
    lemma_cell_in_search(voxel.z as int, min_chunk.z as int, max_chunk.z as int);
    if !hit.hit_interesting && strictly_inside(
        hit.end_voxel,
        search_min(min_chunk),
        search_max(max_chunk),
    ) {
        lemma_leaves_chunk(
            voxel,
            previous(hit.end_voxel, hit.face_hit, direction),
            hit.end_voxel,
            hit.face_hit,
            direction,
            min_chunk,
            max_chunk,
        );
    }
}

/// The chunk of a voxel that lies strictly within the bounds of the search has room around
/// it for the voxels that lie around it.
proof fn lemma_room_around(voxel: VoxelCoord, min_chunk: VoxelCoord, max_chunk: VoxelCoord)
    requires
        strictly_inside(voxel, search_min(min_chunk), search_max(max_chunk)),
    ensures
        i16::MIN < chunk_of(voxel).x && chunk_of(voxel).x + 16 <= i16::MAX,
        i16::MIN < chunk_of(voxel).y && chunk_of(voxel).y + 16 <= i16::MAX,
        i16::MIN < chunk_of(voxel).z && chunk_of(voxel).z + 16 <= i16::MAX,
{
    lemma_chunk_parts(voxel);
    lemma_chunk_parts(min_chunk);
    lemma_chunk_parts(max_chunk);
    lemma_cell_in_search(voxel.x as int, min_chunk.x as int, max_chunk.x as int);
    lemma_cell_in_search(voxel.y as int, min_chunk.y as int, max_chunk.y as int);
    lemma_cell_in_search(voxel.z as int, min_chunk.z as int, max_chunk.z as int);
}

/// A voxel that lies in the chunk of another has the same chunk.
proof fn lemma_same_chunk(voxel: VoxelCoord, other: VoxelCoord)
    requires
        chunk_of(voxel).x <= other.x <= chunk_of(voxel).x + 15,
        chunk_of(voxel).y <= other.y <= chunk_of(voxel).y + 15,
        chunk_of(voxel).z <= other.z <= chunk_of(voxel).z + 15,
    ensures
        chunk_of(other) == chunk_of(voxel),
{
    reveal(chunk_origin);
}

/// A ray that keeps pace with the one cast and has come into an opaque voxel stops where the
/// one cast stops, and tells the same.
proof fn lemma_stops_in_pace(
    world: spec_fn(VoxelCoord) -> bool,
    coord: Coord,
    direction: Coord,
    min: VoxelCoord,
    max: VoxelCoord,
    course: Course,
    k: nat,
)
    requires
        keeps_pace(world, coord, direction, min, max, course, k),
        on_course(course.origin_voxel, course.origin, direction, course.voxel, k),
        world(course.voxel),
    ensures
        (Raycast {
            face_hit: course.face,
            end: course.point,
            end_voxel: course.voxel,
            hit_interesting: true,
        }) == cast(world, sets_out(coord).voxel, coord, direction, min, max),
{
    if k == 0 {
        reveal(cast);
    } else {
        lemma_stops_once(world, sets_out(coord).voxel, coord, direction, min, max, k);
    }
}

/// A voxel of the chunk of a voxel that lies strictly within the bounds of the search lies
/// strictly within them.
proof fn lemma_chunk_inside(voxel: VoxelCoord, v: VoxelCoord, min_chunk: VoxelCoord, max_chunk: VoxelCoord)
    requires
        strictly_inside(voxel, search_min(min_chunk), search_max(max_chunk)),
        chunk_of(voxel).x <= v.x <= chunk_of(voxel).x + 15,
        chunk_of(voxel).y <= v.y <= chunk_of(voxel).y + 15,
        chunk_of(voxel).z <= v.z <= chunk_of(voxel).z + 15,
    ensures
        strictly_inside(v, search_min(min_chunk), search_max(max_chunk)),
        chunk_of(v) == chunk_of(voxel),
{
    lemma_chunk_parts(voxel);
    lemma_chunk_parts(min_chunk);
    lemma_chunk_parts(max_chunk);
    lemma_cell_in_search(voxel.x as int, min_chunk.x as int, max_chunk.x as int);
    lemma_cell_in_search(voxel.y as int, min_chunk.y as int, max_chunk.y as int);
    lemma_cell_in_search(voxel.z as int, min_chunk.z as int, max_chunk.z as int);
    lemma_same_chunk(voxel, v);
}

/// A voxel strictly within a box is not on the side of the box that a ray is heading for.
proof fn lemma_inside_is_off_limit(
    v: VoxelCoord,
    axis: FaceHit,
    direction: Coord,
    min: VoxelCoord,
    max: VoxelCoord,
)
    requires
        strictly_inside(v, min, max),
    ensures
        !at_limit(v, axis, direction, min, max),
{
}

/// A voxel that a ray can visit on its way through the chunk of `voxel`, which lies strictly
/// within the bounds of the search, is a voxel of that chunk, and lies strictly within them.
proof fn lemma_visits_chunk(
    voxel: VoxelCoord,
    v: VoxelCoord,
    direction: Coord,
    min_chunk: VoxelCoord,
    max_chunk: VoxelCoord,
)
    requires
        strictly_inside(voxel, search_min(min_chunk), search_max(max_chunk)),
        may_visit(
            v,
            voxel,
            direction,
            around_min(chunk_of(voxel)),
            around_max(chunk_of(voxel)),
        ),
    ensures
        strictly_inside(v, search_min(min_chunk), search_max(max_chunk)),
        chunk_of(v) == chunk_of(voxel),
{
    lemma_room_around(voxel, min_chunk, max_chunk);
    lemma_chunk_parts(voxel);
    lemma_chunk_inside(voxel, v, min_chunk, max_chunk);
}

/// A ray that has come, from a voxel of the chunk of `voxel`, onto the voxels around that
/// chunk and does not lie strictly within the bounds of the search there lies on the side of
/// them that it is heading for.
proof fn lemma_onto_the_bounds(
    voxel: VoxelCoord,
    to: VoxelCoord,
    axis: FaceHit,
    direction: Coord,
    min_chunk: VoxelCoord,
    max_chunk: VoxelCoord,
)
    requires
        axis != FaceHit::Contained,
        strictly_inside(voxel, search_min(min_chunk), search_max(max_chunk)),
        in_box(to, search_min(min_chunk), search_max(max_chunk)),
        !strictly_inside(to, search_min(min_chunk), search_max(max_chunk)),
        at_limit(to, axis, direction, around_min(chunk_of(voxel)), around_max(chunk_of(voxel))),
        may_visit(
            previous(to, axis, direction),
            voxel,
            direction,
            around_min(chunk_of(voxel)),
            around_max(chunk_of(voxel)),
        ),
    ensures
        at_limit(to, axis, direction, search_min(min_chunk), search_max(max_chunk)),
{
    lemma_visits_chunk(voxel, previous(to, axis, direction), direction, min_chunk, max_chunk);
    lemma_room_around(voxel, min_chunk, max_chunk);
    lemma_chunk_parts(voxel);
    lemma_chunk_parts(min_chunk);
    lemma_chunk_parts(max_chunk);
    lemma_cell_in_search(voxel.x as int, min_chunk.x as int, max_chunk.x as int);
    lemma_cell_in_search(voxel.y as int, min_chunk.y as int, max_chunk.y as int);
    lemma_cell_in_search(voxel.z as int, min_chunk.z as int, max_chunk.z as int);
}

/// In the one cast the ray goes on through every voxel of a stretch through a chunk before
/// the one in which the stretch ends.
proof fn lemma_goes_on_in_pace<V: Voxel>(
    world: spec_fn(VoxelCoord) -> bool,
    chunk: Chunk<V>,
    coord: Coord,
    course: Course,
    direction: Coord,
    min_chunk: VoxelCoord,
    max_chunk: VoxelCoord,
    k: nat,
    found: nat,
    j: nat,
)
    requires
        1 <= j < found,
        strictly_inside(course.voxel, search_min(min_chunk), search_max(max_chunk)),
        course.voxel == walk(course.origin_voxel, course.origin, direction, k),
        chunk.coord == chunk_of(course.voxel),
        forall|v: VoxelCoord| chunk_of(v) == chunk.coord ==> #[trigger] world(v) == opaque_in(chunk)(v),
        keeps_pace(world, coord, direction, search_min(min_chunk), search_max(max_chunk), course, k),
        !opaque_in(chunk)(course.voxel),
        j > k ==> goes_on(
            opaque_in(chunk),
            course.origin_voxel,
            course.origin,
            direction,
            around_min(chunk.coord),
            around_max(chunk.coord),
            j,
        ),
        j >= k ==> may_visit(
            walk(course.origin_voxel, course.origin, direction, j),
            course.voxel,
            direction,
            around_min(chunk.coord),
            around_max(chunk.coord),
        ),
    ensures
        goes_on(
            world,
            sets_out(coord).voxel,
            coord,
            direction,
            search_min(min_chunk),
            search_max(max_chunk),
            j,
        ),
{
    let start = sets_out(coord).voxel;
    if j >= k {
        let v = walk(start, coord, direction, j);
        lemma_visits_chunk(course.voxel, v, direction, min_chunk, max_chunk);
        lemma_inside_is_off_limit(
            v,
            entry_axis(start, coord, direction, j),
            direction,
            search_min(min_chunk),
            search_max(max_chunk),
        );
        assert(world(v) == opaque_in(chunk)(v));
    }
}

/// A stretch through a chunk of a ray that keeps pace with the one cast ends as `leg_keeps_pace`
/// says.
proof fn lemma_leg_keeps_pace<V: Voxel>(
    world: spec_fn(VoxelCoord) -> bool,
    chunk: Chunk<V>,
    coord: Coord,
    course: Course,
    direction: Coord,
    min_chunk: VoxelCoord,
    max_chunk: VoxelCoord,
    k: nat,
    hit: Raycast,
    found: nat,
)
    requires
        on_its_way(course, direction, min_chunk, max_chunk, k),
        chunk.coord == chunk_of(course.voxel),
        forall|v: VoxelCoord| chunk_of(v) == chunk.coord ==> #[trigger] world(v) == opaque_in(chunk)(v),
        keeps_pace(world, coord, direction, search_min(min_chunk), search_max(max_chunk), course, k),
        !opaque_in(chunk)(course.voxel),
        stops_at_beyond(
            opaque_in(chunk),
            course.origin_voxel,
            course.origin,
            direction,
            around_min(chunk.coord),
            around_max(chunk.coord),
            k,
            found,
        ),
        hit == stop_in(
            course.origin_voxel,
            course.origin,
            direction,
            around_min(chunk.coord),
            around_max(chunk.coord),
            found,
        ),
        forall|j: nat|
            k <= j < found ==> may_visit(
                #[trigger] walk(course.origin_voxel, course.origin, direction, j),
                course.voxel,
                direction,
                around_min(chunk.coord),
                around_max(chunk.coord),
            ),
        hit.face_hit != FaceHit::Contained,
        in_box(hit.end_voxel, search_min(min_chunk), search_max(max_chunk)),
        may_visit(
            previous(hit.end_voxel, hit.face_hit, direction),
            course.voxel,
            direction,
            around_min(chunk.coord),
            around_max(chunk.coord),
        ),
        hit.hit_interesting ==> may_visit(
            hit.end_voxel,
            course.voxel,
            direction,
            around_min(chunk.coord),
            around_max(chunk.coord),
        ) && opaque_in(chunk)(hit.end_voxel),
        !hit.hit_interesting ==> at_limit(
            hit.end_voxel,
            hit.face_hit,
            direction,
            around_min(chunk.coord),
            around_max(chunk.coord),
        ),
    ensures
        leg_keeps_pace(
            world,
            coord,
            direction,
            search_min(min_chunk),
            search_max(max_chunk),
            if hit.hit_interesting || !strictly_inside(
                hit.end_voxel,
                search_min(min_chunk),
                search_max(max_chunk),
            ) {
                Leg::Stop(hit)
            } else {
                Leg::Continue(
                    Course { voxel: hit.end_voxel, point: hit.end, face: hit.face_hit, ..course },
                )
            },
            found,
        ),
{
    let start = sets_out(coord).voxel;
    let lo = search_min(min_chunk);
    let hi = search_max(max_chunk);
    assert forall|j: nat| 1 <= j < found implies #[trigger] goes_on(
        world,
        start,
        coord,
        direction,
        lo,
        hi,
        j,
    ) by {
        lemma_goes_on_in_pace(
            world,
            chunk,
            coord,
            course,
            direction,
            min_chunk,
            max_chunk,
            k,
            found,
            j,
        );
    }
    assert(!world(start)) by {
        if k == 0 {
            lemma_chunk_parts(course.voxel);
            assert(world(start) == opaque_in(chunk)(start));
        }
    }
    if hit.hit_interesting {
        lemma_visits_chunk(course.voxel, hit.end_voxel, direction, min_chunk, max_chunk);
        lemma_inside_is_off_limit(hit.end_voxel, hit.face_hit, direction, lo, hi);
        assert(world(hit.end_voxel) == opaque_in(chunk)(hit.end_voxel));
        lemma_stops_once(world, start, coord, direction, lo, hi, found);
    } else if !strictly_inside(hit.end_voxel, lo, hi) {
        lemma_onto_the_bounds(
            course.voxel,
            hit.end_voxel,
            hit.face_hit,
            direction,
            min_chunk,
            max_chunk,
        );
        lemma_stops_once(world, start, coord, direction, lo, hi, found);
    } else {
        lemma_inside_is_off_limit(hit.end_voxel, hit.face_hit, direction, lo, hi);
    }
}

/// A stretch of the ray through a chunk: see `leg_within`.
fn next_leg_within<V: Voxel>(
    chunk: &Chunk<V>,
    course: Course,
    direction: Coord,
    min_chunk: VoxelCoord,
    max_chunk: VoxelCoord,
    Ghost(k): Ghost<nat>,
    Ghost(world): Ghost<spec_fn(VoxelCoord) -> bool>,
    Ghost(coord): Ghost<Coord>,
) -> (r: (Leg, Ghost<nat>))
    requires
        on_its_way(course, direction, min_chunk, max_chunk, k),
        chunk.coord == chunk_of(course.voxel),
        direction.x != 0 || direction.y != 0 || direction.z != 0,
        forall|v: VoxelCoord| chunk_of(v) == chunk.coord ==> #[trigger] world(v) == opaque_in(*chunk)(v),
    ensures
        r.0 == leg_within(*chunk, course, direction, min_chunk, max_chunk),
        leg_ends_well(r.0, course.voxel, direction, min_chunk, max_chunk, r.1@),
        keeps_pace(world, coord, direction, search_min(min_chunk), search_max(max_chunk), course, k)
            ==> leg_keeps_pace(
            world,
            coord,
            direction,
            search_min(min_chunk),
            search_max(max_chunk),
            r.0,
            r.1@,
        ),
        r.0 matches Leg::Stop(hit) ==> {
            &&& hit.hit_interesting ==> chunk_of(hit.end_voxel) == chunk_of(course.voxel)
                && opaque_in(*chunk)(hit.end_voxel)
            &&& !hit.hit_interesting ==> !strictly_inside(
                hit.end_voxel,
                search_min(min_chunk),
                search_max(max_chunk),
            )
        },
{
    let low = canonicalize_chunk(min_chunk);
    proof {
        lemma_chunk_parts(course.voxel);
        lemma_chunk_parts(min_chunk);
        lemma_chunk_parts(max_chunk);
        lemma_room_around(course.voxel, min_chunk, max_chunk);
    }
    let min = VoxelCoord { x: low.x + 15, y: low.y + 15, z: low.z + 15 };
    let max = canonicalize_chunk(max_chunk);
    assert(min == search_min(min_chunk) && max == search_max(max_chunk));
    let at = chunk.coord;
    let here = VoxelCoord {
        x: course.voxel.x - at.x,
        y: course.voxel.y - at.y,
        z: course.voxel.z - at.z,
    };
    if !chunk.index(here).is_transparent() {
        // the ray has come into an opaque voxel
        let hit = Raycast {
            face_hit: course.face,
            end: course.point,
            end_voxel: course.voxel,
            hit_interesting: true,
        };
        proof {
            if keeps_pace(world, coord, direction, min, max, course, k) {
                lemma_stops_in_pace(world, coord, direction, min, max, course, k);
            }
        }
        return (Leg::Stop(hit), Ghost(k));
    }
    // raycast through voxel space
    let (hit, Ghost(found)) = cast_through_chunk(chunk, course, direction, Ghost(k));
    proof {
        lemma_within_ends_well(course.voxel, direction, min_chunk, max_chunk, hit);
        if hit.hit_interesting {
            lemma_same_chunk(course.voxel, hit.end_voxel);
        }
        if keeps_pace(world, coord, direction, min, max, course, k) {
            lemma_leg_keeps_pace(
                world,
                *chunk,
                coord,
                course,
                direction,
                min_chunk,
                max_chunk,
                k,
                hit,
                found,
            );
        }
    }
    let inside = min.x < hit.end_voxel.x && hit.end_voxel.x < max.x && min.y < hit.end_voxel.y
        && hit.end_voxel.y < max.y && min.z < hit.end_voxel.z && hit.end_voxel.z < max.z;
    assert(inside == strictly_inside(hit.end_voxel, search_min(min_chunk), search_max(max_chunk)));
    if hit.hit_interesting || !inside {
        // did we hit an interesting voxel, or the edge of our search?
        // if so, we're done.
        (Leg::Stop(hit), Ghost(found))
    } else {
        // we hit the border of the chunk
        // go again, look for more chunks
        (
            Leg::Continue(
                Course { voxel: hit.end_voxel, point: hit.end, face: hit.face_hit, ..course },
            ),
            Ghost(found),
        )
    }
}

/// Along one axis: how the number of the chunk changes where a ray goes from a voxel of
/// the chunk of `v` to the next voxel.
proof fn lemma_chunk_step(v: int, from: int, to: int)
    requires
        i16::MIN <= v <= i16::MAX,
        chunk_origin(v) <= from <= chunk_origin(v) + 15,
    ensures
        chunk_number(from) == chunk_number(v),
        to == chunk_origin(v) + 16 ==> chunk_number(to) == chunk_number(v) + 1,
        to == chunk_origin(v) - 1 ==> chunk_number(to) == chunk_number(v) - 1,
{
    reveal(chunk_origin);
    reveal(chunk_number);
}

/// How many chunks are ahead along one axis.
pub open spec fn chunks_left(at: int, d: int, min: int, max: int) -> int {
    faces_left(chunk_number(at), d, chunk_number(min), chunk_number(max))
}

/// The number of chunks ahead is the sum of those ahead along each axis.
proof fn lemma_chunks_ahead(v: VoxelCoord, direction: Coord, min_chunk: VoxelCoord, max_chunk: VoxelCoord)
    ensures
        chunks_ahead(v, direction, min_chunk, max_chunk) == chunks_left(
            v.x as int,
            direction.x as int,
            min_chunk.x as int,
            max_chunk.x as int,
        ) + chunks_left(v.y as int, direction.y as int, min_chunk.y as int, max_chunk.y as int)
            + chunks_left(v.z as int, direction.z as int, min_chunk.z as int, max_chunk.z as int),
{
    lemma_chunk_parts(v);
    lemma_chunk_parts(min_chunk);
    lemma_chunk_parts(max_chunk);
}

/// Along one axis: what a stretch through a chunk does to the number of chunks ahead.
proof fn lemma_leaves_chunk_axis(v: int, from: int, to: int, d: int, min: int, max: int, stepped: bool)
    requires
        i16::MIN <= v <= i16::MAX,
        i16::MIN <= min <= i16::MAX,
        i16::MIN <= max <= i16::MAX,
        chunk_origin(min) + 15 < v < chunk_origin(max),
        chunk_origin(min) + 15 < to < chunk_origin(max),
        may_visit_axis(from, v, d, chunk_origin(v) - 1, chunk_origin(v) + 16),
        stepped ==> d != 0 && to == from + heading(d) && to == limit(
            d,
            chunk_origin(v) - 1,
            chunk_origin(v) + 16,
        ),
        !stepped ==> to == from,
    ensures
        0 <= chunks_left(to, d, min, max),
        stepped ==> chunks_left(to, d, min, max) == chunks_left(v, d, min, max) - 1,
        !stepped ==> chunks_left(to, d, min, max) == chunks_left(v, d, min, max),
{
    lemma_chunk_range(min);
    lemma_chunk_range(max);
    lemma_cell_in_search(v, min, max);
    lemma_cell_in_search(to, min, max);
    lemma_chunk_step(v, from, to);
}

/// Along one axis: what it is for a voxel to have come onto the border around a chunk from
/// a voxel of the chunk.
proof fn lemma_border_axis(
    voxel: VoxelCoord,
    from: VoxelCoord,
    to: VoxelCoord,
    axis: FaceHit,
    direction: Coord,
    min_chunk: VoxelCoord,
    max_chunk: VoxelCoord,
)
    requires
        axis != FaceHit::Contained,
        from == previous(to, axis, direction),
        strictly_inside(voxel, search_min(min_chunk), search_max(max_chunk)),
        strictly_inside(to, search_min(min_chunk), search_max(max_chunk)),
        ({
            let at = chunk_of(voxel);
            let min = VoxelCoord { x: (at.x - 1) as i16, y: (at.y - 1) as i16, z: (at.z - 1) as i16 };
            let max = VoxelCoord { x: (at.x + 16) as i16, y: (at.y + 16) as i16, z: (at.z + 16) as i16 };
            may_visit(from, voxel, direction, min, max) && at_limit(to, axis, direction, min, max)
        }),
    ensures
        may_visit_axis(
            from.x as int,
            voxel.x as int,
            direction.x as int,
            chunk_origin(voxel.x as int) - 1,
            chunk_origin(voxel.x as int) + 16,
        ),
        may_visit_axis(
            from.y as int,
            voxel.y as int,
            direction.y as int,
            chunk_origin(voxel.y as int) - 1,
            chunk_origin(voxel.y as int) + 16,
        ),
        may_visit_axis(
            from.z as int,
            voxel.z as int,
            direction.z as int,
            chunk_origin(voxel.z as int) - 1,
            chunk_origin(voxel.z as int) + 16,
        ),
        axis == FaceHit::X ==> direction.x != 0 && to.x == from.x + heading(direction.x as int)
            && to.x == limit(
            direction.x as int,
            chunk_origin(voxel.x as int) - 1,
            chunk_origin(voxel.x as int) + 16,
        ),
        axis == FaceHit::Y ==> direction.y != 0 && to.y == from.y + heading(direction.y as int)
            && to.y == limit(
            direction.y as int,
            chunk_origin(voxel.y as int) - 1,
            chunk_origin(voxel.y as int) + 16,
        ),
        axis == FaceHit::Z ==> direction.z != 0 && to.z == from.z + heading(direction.z as int)
            && to.z == limit(
            direction.z as int,
            chunk_origin(voxel.z as int) - 1,
            chunk_origin(voxel.z as int) + 16,
        ),
        axis != FaceHit::X ==> to.x == from.x,
        axis != FaceHit::Y ==> to.y == from.y,
        axis != FaceHit::Z ==> to.z == from.z,
{
    lemma_chunk_parts(voxel);
    lemma_chunk_parts(min_chunk);
    lemma_chunk_parts(max_chunk);
    lemma_chunk_parts(to);
    lemma_chunk_parts(from);
    lemma_room_around(voxel, min_chunk, max_chunk);
}

/// A ray that has come onto the border around its chunk, strictly within the bounds of the
/// search, has one chunk less ahead of it.
proof fn lemma_leaves_chunk(
    voxel: VoxelCoord,
    from: VoxelCoord,
    to: VoxelCoord,
    axis: FaceHit,
    direction: Coord,
    min_chunk: VoxelCoord,
    max_chunk: VoxelCoord,
)
    requires
        axis != FaceHit::Contained,
        from == previous(to, axis, direction),
        strictly_inside(voxel, search_min(min_chunk), search_max(max_chunk)),
        strictly_inside(to, search_min(min_chunk), search_max(max_chunk)),
        ({
            let at = chunk_of(voxel);
            let min = VoxelCoord { x: (at.x - 1) as i16, y: (at.y - 1) as i16, z: (at.z - 1) as i16 };
            let max = VoxelCoord { x: (at.x + 16) as i16, y: (at.y + 16) as i16, z: (at.z + 16) as i16 };
            may_visit(from, voxel, direction, min, max) && at_limit(to, axis, direction, min, max)
        }),
    ensures
        0 <= chunks_ahead(to, direction, min_chunk, max_chunk) < chunks_ahead(
            voxel,
            direction,
            min_chunk,
            max_chunk,
        ),
{
    lemma_chunk_parts(voxel);
    lemma_chunk_parts(min_chunk);
    lemma_chunk_parts(max_chunk);
    lemma_chunk_parts(to);
    lemma_chunk_parts(from);
    lemma_border_axis(voxel, from, to, axis, direction, min_chunk, max_chunk);
    lemma_chunks_ahead(voxel, direction, min_chunk, max_chunk);
    lemma_chunks_ahead(to, direction, min_chunk, max_chunk);
    lemma_leaves_chunk_axis(
        voxel.x as int,
        from.x as int,
        to.x as int,
        direction.x as int,
        min_chunk.x as int,
        max_chunk.x as int,
        axis == FaceHit::X,
    );
    lemma_leaves_chunk_axis(
        voxel.y as int,
        from.y as int,
        to.y as int,
        direction.y as int,
        min_chunk.y as int,
        max_chunk.y as int,
        axis == FaceHit::Y,
    );
    lemma_leaves_chunk_axis(
        voxel.z as int,
        from.z as int,
        to.z as int,
        direction.z as int,
        min_chunk.z as int,
        max_chunk.z as int,
        axis == FaceHit::Z,
    );
}

/// Along one axis: where a stretch across the chunks has ended.
proof fn lemma_across_axis(
    v: int,
    e: int,
    cell: int,
    from: int,
    d: int,
    min: int,
    max: int,
    entered: bool,
)
    requires
        i16::MIN <= v <= i16::MAX,
        i16::MIN <= min <= i16::MAX,
        i16::MIN <= max <= i16::MAX,
        -2048 <= cell <= 2047,
        chunk_origin(min) + 15 < v < chunk_origin(max),
        within_voxel_axis(e, cell),
        within_voxel_axis(e, from),
        from == cell || from == cell - heading(d),
        may_visit_axis(from, chunk_number(v), d, chunk_number(min), chunk_number(max)),
        chunk_number(min) <= cell <= chunk_number(max),
        entered ==> may_visit_axis(cell, chunk_number(v), d, chunk_number(min), chunk_number(max)),
    ensures
        chunk_origin(min) + 15 <= recovered_axis(e, cell) <= chunk_origin(max),
        entered ==> chunk_origin(min) + 15 < recovered_axis(e, cell) < chunk_origin(max),
        chunk_number(recovered_axis(e, cell)) == cell,
        i16::MIN <= recovered_axis(e, cell) <= i16::MAX,
{
    lemma_cell_in_search(v, min, max);
    lemma_recovered_in_search(e, cell, from, min, max);
}

/// Where a stretch across the chunks has ended lies within the bounds of the search, and
/// strictly within them where the ray goes on.
proof fn lemma_across_ends_well(
    voxel: VoxelCoord,
    direction: Coord,
    min_chunk: VoxelCoord,
    max_chunk: VoxelCoord,
    hit: Raycast,
)
    requires
        strictly_inside(voxel, search_min(min_chunk), search_max(max_chunk)),
        in_box(hit.end_voxel, chunk_cell(min_chunk), chunk_cell(max_chunk)),
        within_voxel(hit.end, hit.end_voxel),
        within_voxel(hit.end, previous(hit.end_voxel, hit.face_hit, direction)),
        may_visit(
            previous(hit.end_voxel, hit.face_hit, direction),
            chunk_cell(voxel),
            direction,
            chunk_cell(min_chunk),
            chunk_cell(max_chunk),
        ),
        hit.hit_interesting ==> may_visit(
            hit.end_voxel,
            chunk_cell(voxel),
            direction,
            chunk_cell(min_chunk),
            chunk_cell(max_chunk),
        ),
    ensures
        in_box(recovered(hit.end, hit.end_voxel), search_min(min_chunk), search_max(max_chunk)),
        hit.hit_interesting ==> strictly_inside(
            recovered(hit.end, hit.end_voxel),
            search_min(min_chunk),
            search_max(max_chunk),
        ),
        chunk_cell(recovered(hit.end, hit.end_voxel)) == hit.end_voxel,
{
    lemma_chunk_parts(voxel);
    lemma_chunk_parts(min_chunk);
    lemma_chunk_parts(max_chunk);
    lemma_chunk_parts(recovered(hit.end, hit.end_voxel));
    let from = previous(hit.end_voxel, hit.face_hit, direction);
    lemma_across_axis(
        voxel.x as int,
        hit.end.x as int,
        hit.end_voxel.x as int,
        from.x as int,
        direction.x as int,
        min_chunk.x as int,
        max_chunk.x as int,
        hit.hit_interesting,
    );
    lemma_across_axis(
        voxel.y as int,
        hit.end.y as int,
        hit.end_voxel.y as int,
        from.y as int,
        direction.y as int,
        min_chunk.y as int,
        max_chunk.y as int,
        hit.hit_interesting,
    );
    lemma_across_axis(
        voxel.z as int,
        hit.end.z as int,
        hit.end_voxel.z as int,
        from.z as int,
        direction.z as int,
        min_chunk.z as int,
        max_chunk.z as int,
        hit.hit_interesting,
    );
}

/// A ray that has found a chunk from a voxel whose chunk no lookup finds has crossed into
/// another chunk, and has fewer chunks ahead of it there.
proof fn lemma_goes_ahead<V: Voxel>(
    hit: Raycast,
    voxel: VoxelCoord,
    tracker: &ChunkTracker,
    storage: &ChunkStorage<V>,
    direction: Coord,
    min_chunk: VoxelCoord,
    max_chunk: VoxelCoord,
)
    requires
        strictly_inside(voxel, search_min(min_chunk), search_max(max_chunk)),
        chunk_at(tracker, storage, voxel) is None,
        hit.hit_interesting ==> may_visit(
            hit.end_voxel,
            chunk_cell(voxel),
            direction,
            chunk_cell(min_chunk),
            chunk_cell(max_chunk),
        ) && populated(tracker, storage)(hit.end_voxel),
    ensures
        hit.hit_interesting ==> 0 <= faces_ahead(
            hit.end_voxel,
            direction,
            chunk_cell(min_chunk),
            chunk_cell(max_chunk),
        ) < chunks_ahead(voxel, direction, min_chunk, max_chunk),
{
    lemma_chunk_parts(voxel);
    lemma_chunk_parts(min_chunk);
    lemma_chunk_parts(max_chunk);
    lemma_cell_in_search(voxel.x as int, min_chunk.x as int, max_chunk.x as int);
    lemma_cell_in_search(voxel.y as int, min_chunk.y as int, max_chunk.y as int);
    lemma_cell_in_search(voxel.z as int, min_chunk.z as int, max_chunk.z as int);
    assert(chunk_coord(chunk_cell(voxel)) == chunk_of(voxel));
    assert(chunk_of(chunk_of(voxel)) == chunk_of(voxel));
    assert(!populated(tracker, storage)(chunk_cell(voxel)));
}

/// A search for the next chunk that has ended in a chunk that bounds the search has ended in
/// a voxel that is not strictly within the bounds of the search.
proof fn lemma_on_the_bounds(hit: Raycast, direction: Coord, min_chunk: VoxelCoord, max_chunk: VoxelCoord)
    requires
        hit.face_hit != FaceHit::Contained,
        at_limit(hit.end_voxel, hit.face_hit, direction, chunk_cell(min_chunk), chunk_cell(max_chunk)),
        chunk_cell(recovered(hit.end, hit.end_voxel)) == hit.end_voxel,
    ensures
        !strictly_inside(
            recovered(hit.end, hit.end_voxel),
            search_min(min_chunk),
            search_max(max_chunk),
        ),
{
    let v = recovered(hit.end, hit.end_voxel);
    lemma_chunk_parts(v);
    lemma_chunk_parts(min_chunk);
    lemma_chunk_parts(max_chunk);
    lemma_chunk_range(v.x as int);
    lemma_chunk_range(v.y as int);
    lemma_chunk_range(v.z as int);
    lemma_chunk_range(min_chunk.x as int);
    lemma_chunk_range(min_chunk.y as int);
    lemma_chunk_range(min_chunk.z as int);
    lemma_chunk_range(max_chunk.x as int);
    lemma_chunk_range(max_chunk.y as int);
    lemma_chunk_range(max_chunk.z as int);
}

/// A stretch of the ray across the chunks: see `leg_across`.
fn next_leg_across<V: Voxel>(
    tracker: &ChunkTracker,
    storage: &ChunkStorage<V>,
    course: Course,
    direction: Coord,
    min_chunk: VoxelCoord,
    max_chunk: VoxelCoord,
) -> (l: Leg)
    requires
        under_way(course.voxel, course.point, min_chunk, max_chunk),
        chunk_at(tracker, storage, course.voxel) is None,
        direction.x != 0 || direction.y != 0 || direction.z != 0,
    ensures
        l == leg_across(tracker, storage, course, direction, min_chunk, max_chunk),
        leg_ends_well(l, course.voxel, direction, min_chunk, max_chunk, 0),
        l matches Leg::Stop(hit) ==> !hit.hit_interesting && !strictly_inside(
            hit.end_voxel,
            search_min(min_chunk),
            search_max(max_chunk),
        ),
{
    // we're outside of loaded chunks
    let hit = cast_through_chunks(
        tracker,
        storage,
        course.voxel,
        course.point,
        direction,
        min_chunk,
        max_chunk,
    );
    proof {
        lemma_chunk_parts(course.voxel);
        lemma_chunk_parts(min_chunk);
        lemma_chunk_parts(max_chunk);
    }
    // finicky: have to recover integer voxel from coordinate hit
    let (end_voxel, end) = recover(hit.end, hit.end_voxel);
    proof {
        lemma_across_ends_well(course.voxel, direction, min_chunk, max_chunk, hit);
        lemma_goes_ahead(hit, course.voxel, tracker, storage, direction, min_chunk, max_chunk);
        if !hit.hit_interesting {
            lemma_on_the_bounds(hit, direction, min_chunk, max_chunk);
        } else {
            lemma_sets_out(end_voxel, end, direction);
        }
    }
    if hit.hit_interesting {
        Leg::Continue(
            Course {
                origin_voxel: end_voxel,
                origin: end,
                voxel: end_voxel,
                point: end,
                face: hit.face_hit,
            },
        )
    } else {
        Leg::Stop(Raycast { face_hit: hit.face_hit, end, end_voxel, hit_interesting: false })
    }
}

/// One stretch of the ray: see `leg`.
fn next_leg<V: Voxel>(
    tracker: &ChunkTracker,
    storage: &ChunkStorage<V>,
    course: Course,
    direction: Coord,
    min_chunk: VoxelCoord,
    max_chunk: VoxelCoord,
    Ghost(k): Ghost<nat>,
    Ghost(coord): Ghost<Coord>,
) -> (r: (Leg, Ghost<nat>))
    requires
        on_its_way(course, direction, min_chunk, max_chunk, k),
        direction.x != 0 || direction.y != 0 || direction.z != 0,
    ensures
        r.0 == leg(tracker, storage, course, direction, min_chunk, max_chunk),
        leg_ends_well(r.0, course.voxel, direction, min_chunk, max_chunk, r.1@),
        r.0 matches Leg::Stop(hit) ==> stopped_well(tracker, storage, min_chunk, max_chunk, hit),
        all_found(tracker, storage, min_chunk, max_chunk) && keeps_pace(
            opaque_world(tracker, storage),
            coord,
            direction,
            search_min(min_chunk),
            search_max(max_chunk),
            course,
            k,
        ) ==> leg_keeps_pace(
            opaque_world(tracker, storage),
            coord,
            direction,
            search_min(min_chunk),
            search_max(max_chunk),
            r.0,
            r.1@,
        ),
{
    match tracker.get_chunk(storage, course.voxel) {
        Some(chunk) => next_leg_within(
            chunk,
            course,
            direction,
            min_chunk,
            max_chunk,
            Ghost(k),
            Ghost(opaque_world(tracker, storage)),
            Ghost(coord),
        ),
        None => (
            next_leg_across(tracker, storage, course, direction, min_chunk, max_chunk),
            Ghost(0),
        ),
    }
}

/// Casts a ray that starts strictly within the bounds of the search through the world, chunk
/// by chunk: see `voxel_raycast`.
fn cast_chunk_by_chunk<V: Voxel>(
    tracker: &ChunkTracker,
    storage: &ChunkStorage<V>,
    coord: Coord,
    direction: Coord,
    min_chunk: VoxelCoord,
    max_chunk: VoxelCoord,
) -> (hit: Raycast)
    requires
        strictly_inside(sets_out(coord).voxel, search_min(min_chunk), search_max(max_chunk)),
        direction.x != 0 || direction.y != 0 || direction.z != 0,
    ensures
        exists|path: Seq<Course>| #[trigger]
            follows(tracker, storage, coord, direction, min_chunk, max_chunk, path, hit),
        in_box(hit.end_voxel, search_min(min_chunk), search_max(max_chunk)),
        within_voxel(hit.end, hit.end_voxel),
        stopped_well(tracker, storage, min_chunk, max_chunk, hit),
        all_found(tracker, storage, min_chunk, max_chunk) ==> hit == cast(
            opaque_world(tracker, storage),
            sets_out(coord).voxel,
            coord,
            direction,
            search_min(min_chunk),
            search_max(max_chunk),
        ),
{
    let start_voxel = canonicalize(coord);
    let mut course = Course {
        origin_voxel: start_voxel,
        origin: coord,
        voxel: start_voxel,
        point: coord,
        face: FaceHit::Contained,
    };
    let ghost mut k: nat = 0;
    let ghost mut path: Seq<Course> = seq![course];
    proof {
        lemma_sets_out(start_voxel, coord, direction);
    }
    loop
        invariant
            direction.x != 0 || direction.y != 0 || direction.z != 0,
            on_its_way(course, direction, min_chunk, max_chunk, k),
            all_found(tracker, storage, min_chunk, max_chunk) ==> keeps_pace(
                opaque_world(tracker, storage),
                coord,
                direction,
                search_min(min_chunk),
                search_max(max_chunk),
                course,
                k,
            ),
            path.len() >= 1,
            path[0] == sets_out(coord),
            path.last() == course,
            forall|i: int|
                0 <= i < path.len() - 1 ==> #[trigger] leg(
                    tracker,
                    storage,
                    path[i],
                    direction,
                    min_chunk,
                    max_chunk,
                ) == Leg::Continue(path[i + 1]),
        decreases chunks_ahead(course.voxel, direction, min_chunk, max_chunk),
    {
        let ghost here = course.voxel;
        let (next, Ghost(crossed)) = next_leg(
            tracker,
            storage,
            course,
            direction,
            min_chunk,
            max_chunk,
            Ghost(k),
            Ghost(coord),
        );
        assert(leg_ends_well(next, here, direction, min_chunk, max_chunk, crossed));
        match next {
            Leg::Stop(hit) => {
                assert(follows(tracker, storage, coord, direction, min_chunk, max_chunk, path, hit));
                return hit;
            },
            Leg::Continue(onward) => {
                proof {
                    path = path.push(onward);
                    k = crossed;
                }
                course = onward;
            },
        }
    }
}

/// Whether the voxel at `v` stops a ray: whether a lookup finds a chunk that holds it, and it
/// is opaque there.
pub fn is_opaque_at<V: Voxel>(tracker: &ChunkTracker, storage: &ChunkStorage<V>, v: VoxelCoord) -> (b: bool)
    ensures
        b == opaque_at(tracker, storage, v),
{
    match tracker.get_chunk(storage, v) {
        Some(chunk) => {
            proof {
                lemma_chunk_parts(v);
            }
            let at = chunk.coord;
            !chunk.index(VoxelCoord { x: v.x - at.x, y: v.y - at.y, z: v.z - at.z }).is_transparent()
        },
        None => false,
    }
}

/// A point whose nearest voxel lies within the bounds of a search lies in that voxel.
proof fn lemma_starts_within(coord: Coord, min_chunk: VoxelCoord, max_chunk: VoxelCoord)
    requires
        in_box(sets_out(coord).voxel, search_min(min_chunk), search_max(max_chunk)),
    ensures
        within_voxel(coord, sets_out(coord).voxel),
        sets_out(coord).voxel.x == nearest_voxel(coord.x as int),
        sets_out(coord).voxel.y == nearest_voxel(coord.y as int),
        sets_out(coord).voxel.z == nearest_voxel(coord.z as int),
{
    lemma_chunk_parts(min_chunk);
    lemma_chunk_parts(max_chunk);
    lemma_chunk_range(min_chunk.x as int);
    lemma_chunk_range(min_chunk.y as int);
    lemma_chunk_range(min_chunk.z as int);
    lemma_chunk_range(max_chunk.x as int);
    lemma_chunk_range(max_chunk.y as int);
    lemma_chunk_range(max_chunk.z as int);
}

/// A voxel that lies on the side of a box that a ray is heading for does not lie strictly
/// within the box.
proof fn lemma_limit_is_not_inside(
    v: VoxelCoord,
    axis: FaceHit,
    direction: Coord,
    min: VoxelCoord,
    max: VoxelCoord,
)
    requires
        axis != FaceHit::Contained,
        at_limit(v, axis, direction, min, max),
    ensures
        !strictly_inside(v, min, max),
{
}

/// Raycast through a voxel world looking for a non-empty voxel.
///
/// The search is bounded by the chunks at `min_chunk` and `max_chunk`, the bounds of the
/// search being the layers of those two chunks that face each other: a ray that heads down an
/// axis stops where it comes into the last layer of the chunk at `min_chunk`, the voxels at
/// `min_chunk + 15` along that axis, and a ray that heads up an axis where it comes into the
/// first layer of the chunk at `max_chunk`; as `raycast` stops on the border of its box, which
/// here is the box from `search_min(min_chunk)` to `search_max(max_chunk)`.
///
/// The ray must start within those bounds. A ray that starts in an opaque voxel goes nowhere,
/// whatever its direction. Any other ray must move, and must not start on a bound that it is
/// heading for.
///
/// algorithm: raycast through chunks until we find a non-empty one;
/// then, raycast through voxels until we find a non-empty one or leave the chunk;
/// repeat. Chunks that a lookup does not find are empty space.
///
/// Through the chunks that lookups find, one after the other, the ray goes as one `raycast`
/// from its start would: where a lookup finds a chunk for every voxel strictly within the
/// bounds of the search, the result is that of one such cast through the whole of the search,
/// with the opaque voxels for the interesting ones. Where the ray has to search for the next
/// chunk, it is cast anew from where it came into that chunk, rounded.
///
/// A ray that starts on one of the bounds, in a chunk that bounds the search, is not cast
/// across the chunks at all: it is cast as that one `raycast`, voxel by voxel.
pub fn voxel_raycast<V: Voxel>(
    tracker: &ChunkTracker,
    storage: &ChunkStorage<V>,
    coord: Coord,
    direction: Coord,
    min_chunk: VoxelCoord,
    max_chunk: VoxelCoord,
) -> (hit: Raycast)
    requires
        in_box(sets_out(coord).voxel, search_min(min_chunk), search_max(max_chunk)),
        !opaque_at(tracker, storage, sets_out(coord).voxel) ==> {
            &&& direction.x != 0 || direction.y != 0 || direction.z != 0
            &&& limits_ahead(
                sets_out(coord).voxel,
                direction,
                search_min(min_chunk),
                search_max(max_chunk),
            )
        },
    ensures
        opaque_at(tracker, storage, sets_out(coord).voxel) ==> hit == (Raycast {
            face_hit: FaceHit::Contained,
            end: coord,
            end_voxel: sets_out(coord).voxel,
            hit_interesting: true,
        }),
        strictly_inside(sets_out(coord).voxel, search_min(min_chunk), search_max(max_chunk))
            ==> exists|path: Seq<Course>| #[trigger]
            follows(tracker, storage, coord, direction, min_chunk, max_chunk, path, hit),
        !strictly_inside(sets_out(coord).voxel, search_min(min_chunk), search_max(max_chunk))
            || all_found(tracker, storage, min_chunk, max_chunk) ==> hit == cast(
            opaque_world(tracker, storage),
            sets_out(coord).voxel,
            coord,
            direction,
            search_min(min_chunk),
            search_max(max_chunk),
        ),
        in_box(hit.end_voxel, search_min(min_chunk), search_max(max_chunk)),
        within_voxel(hit.end, hit.end_voxel),
        stopped_well(tracker, storage, min_chunk, max_chunk, hit),
{
    let start_voxel = canonicalize(coord);
    let low = canonicalize_chunk(min_chunk);
    proof {
        lemma_starts_within(coord, min_chunk, max_chunk);
        lemma_chunk_parts(min_chunk);
        lemma_chunk_parts(max_chunk);
    }
    let min = VoxelCoord { x: low.x + 15, y: low.y + 15, z: low.z + 15 };
    let max = canonicalize_chunk(max_chunk);
    assert(min == search_min(min_chunk) && max == search_max(max_chunk));
    assert(start_voxel == sets_out(coord).voxel);
    if is_opaque_at(tracker, storage, start_voxel) {
        // if we're in a target block, return immediately
        let hit = Raycast {
            face_hit: FaceHit::Contained,
            end: coord,
            end_voxel: start_voxel,
            hit_interesting: true,
        };
        proof {
            reveal(cast);
            let path = seq![sets_out(coord)];
            assert(follows(tracker, storage, coord, direction, min_chunk, max_chunk, path, hit));
        }
        return hit;
    }
    let inside = min.x < start_voxel.x && start_voxel.x < max.x && min.y < start_voxel.y
        && start_voxel.y < max.y && min.z < start_voxel.z && start_voxel.z < max.z;
    if inside {
        cast_chunk_by_chunk(tracker, storage, coord, direction, min_chunk, max_chunk)
    } else {
        let is_opaque = |v: VoxelCoord| -> (b: bool)
            ensures
                b == opaque_world(tracker, storage)(v),
            { is_opaque_at(tracker, storage, v) };
        let hit = raycast(start_voxel, coord, direction, min, max, is_opaque);
        proof {
            lemma_cast(
                is_opaque,
                opaque_world(tracker, storage),
                start_voxel,
                coord,
                direction,
                min,
                max,
                hit,
            );
            lemma_how_it_stopped(
                is_opaque,
                opaque_world(tracker, storage),
                start_voxel,
                coord,
                direction,
                min,
                max,
                hit,
            );
            if !hit.hit_interesting {
                lemma_limit_is_not_inside(hit.end_voxel, hit.face_hit, direction, min, max);
            }
        }
        hit
    }
}

} // verus!
