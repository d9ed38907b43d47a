//! This module implements the fast voxel traversal algorithm from:
//! "A Fast Voxel Traversal Algorithm for Ray Tracing", John Amanatides, Andrew Woo, 1987
//!
//! All distances along the ray are kept as exact fractions: the distance to the far face of a
//! voxel along one axis is `reach / magnitude`, the first counted in units of a `Coord`, the
//! second the size of the direction along that axis. An axis along which the ray does not move
//! has magnitude zero and is never chosen.
use vstd::prelude::*;
use crate::{Coord, VoxelCoord, VOXEL_UNITS};

pub mod world;

pub use world::{voxel_raycast, Course, Leg};

verus! {

/// The face a raycasting operation hit.
#[derive(Clone, Copy, Debug, PartialEq, Eq, Structural)]
pub enum FaceHit {
    X,
    Y,
    Z,
    Contained,
}

/// Information about a cast ray.
#[derive(Clone, Copy, Debug, PartialEq, Eq, Structural)]
pub struct Raycast {
    /// The face the ray hit.
    pub face_hit: FaceHit,
    /// The ending point of the ray: where it entered `end_voxel`, rounded towards its start;
    /// the start itself where the ray went nowhere.
    pub end: Coord,
    /// The voxel the ray ended on.
    pub end_voxel: VoxelCoord,
    /// Whether the voxel we hit was "interesting", i.e.
    /// if this is false, we hit the border of the search box.
    pub hit_interesting: bool,
}

/// The size of a direction component.
pub open spec fn magnitude(d: int) -> int {
    if d < 0 {
        -d
    } else {
        d
    }
}

/// The step that a ray with direction component `d` takes from voxel to voxel: 1, -1 or 0.
pub open spec fn heading(d: int) -> int {
    if d > 0 {
        1
    } else if d < 0 {
        -1
    } else {
        0
    }
}

/// The position of the center of voxel `v` along one axis: `VOXEL_UNITS` to the voxel.
pub open spec fn voxel_center(v: int) -> int {
    v * 4096
}

/// Whether position `c` lies in voxel `v` along one axis, faces included: no further than
/// `HALF_VOXEL` from its center.
pub open spec fn within_voxel_axis(c: int, v: int) -> bool {
    voxel_center(v) - 2048 <= c <= voxel_center(v) + 2048
}

/// Whether the point `c` lies in the cube of voxel `v`, faces included.
pub open spec fn within_voxel(c: Coord, v: VoxelCoord) -> bool {
    &&& within_voxel_axis(c.x as int, v.x as int)
    &&& within_voxel_axis(c.y as int, v.y as int)
    &&& within_voxel_axis(c.z as int, v.z as int)
}

/// How far it is along one axis from the start `c` of a ray with direction component `d` to
/// the face through which the ray leaves voxel `v`.
pub open spec fn reach(v: int, c: int, d: int) -> int {
    if d > 0 {
        voxel_center(v) + 2048 - c
    } else if d < 0 {
        c - (voxel_center(v) - 2048)
    } else {
        0
    }
}

/// Whether the fraction `na / ma` is at most `nb / mb`, where a magnitude of zero stands for a
/// face that is never reached.
pub open spec fn no_later(na: int, ma: int, nb: int, mb: int) -> bool {
    if ma == 0 {
        mb == 0
    } else if mb == 0 {
        true
    } else {
        na * mb <= nb * ma
    }
}

/// The axis along which a ray from `start` that is in voxel `v` leaves it: the one whose far
/// face is nearest, X before Y before Z where two are equally near.
pub open spec fn next_axis(v: VoxelCoord, start: Coord, direction: Coord) -> FaceHit {
    let nx = reach(v.x as int, start.x as int, direction.x as int);
    let ny = reach(v.y as int, start.y as int, direction.y as int);
    let nz = reach(v.z as int, start.z as int, direction.z as int);
    let mx = magnitude(direction.x as int);
    let my = magnitude(direction.y as int);
    let mz = magnitude(direction.z as int);
    if no_later(nx, mx, ny, my) && no_later(nx, mx, nz, mz) {
        FaceHit::X
    } else if !no_later(nx, mx, ny, my) && no_later(ny, my, nz, mz) {
        FaceHit::Y
    } else {
        FaceHit::Z
    }
}

/// The voxel next to `v` along `axis`, in the direction of the ray.
pub open spec fn step(v: VoxelCoord, axis: FaceHit, direction: Coord) -> VoxelCoord {
    match axis {
        FaceHit::X => VoxelCoord { x: (v.x + heading(direction.x as int)) as i16, ..v },
        FaceHit::Y => VoxelCoord { y: (v.y + heading(direction.y as int)) as i16, ..v },
        FaceHit::Z => VoxelCoord { z: (v.z + heading(direction.z as int)) as i16, ..v },
        FaceHit::Contained => v,
    }
}

/// The voxel from which a ray came into `v` along `axis`.
pub open spec fn previous(v: VoxelCoord, axis: FaceHit, direction: Coord) -> VoxelCoord {
    match axis {
        FaceHit::X => VoxelCoord { x: (v.x - heading(direction.x as int)) as i16, ..v },
        FaceHit::Y => VoxelCoord { y: (v.y - heading(direction.y as int)) as i16, ..v },
        FaceHit::Z => VoxelCoord { z: (v.z - heading(direction.z as int)) as i16, ..v },
        FaceHit::Contained => v,
    }
}

/// The voxel that the ray is in after it has crossed `k` faces.
pub open spec fn walk(start_voxel: VoxelCoord, start: Coord, direction: Coord, k: nat) -> VoxelCoord
    decreases k,
{
    if k == 0 {
        start_voxel
    } else {
        let before = walk(start_voxel, start, direction, (k - 1) as nat);
        step(before, next_axis(before, start, direction), direction)
    }
}

/// The axis of the `k`th face that the ray crosses, for `k` from 1.
pub open spec fn entry_axis(start_voxel: VoxelCoord, start: Coord, direction: Coord, k: nat) -> FaceHit {
    next_axis(walk(start_voxel, start, direction, (k - 1) as nat), start, direction)
}

/// Where a ray from `c` with direction component `d` stands along one axis after the fraction
/// `num / den` of its direction, rounded towards `c`.
pub open spec fn travel(c: int, d: int, num: int, den: int) -> int {
    if d > 0 {
        c + (num * d) / den
    } else if d < 0 {
        c - (num * (-d)) / den
    } else {
        c
    }
}

/// The point at which the ray leaves voxel `from` through its face along `axis`.
pub open spec fn exit_point(from: VoxelCoord, axis: FaceHit, start: Coord, direction: Coord) -> Coord {
    let (num, den) = match axis {
        FaceHit::X => (
            reach(from.x as int, start.x as int, direction.x as int),
            magnitude(direction.x as int),
        ),
        FaceHit::Y => (
            reach(from.y as int, start.y as int, direction.y as int),
            magnitude(direction.y as int),
        ),
        FaceHit::Z => (
            reach(from.z as int, start.z as int, direction.z as int),
            magnitude(direction.z as int),
        ),
        FaceHit::Contained => (0, 1),
    };
    Coord {
        x: travel(start.x as int, direction.x as int, num, den) as i32,
        y: travel(start.y as int, direction.y as int, num, den) as i32,
        z: travel(start.z as int, direction.z as int, num, den) as i32,
    }
}

/// Whether `v` lies in the box from `min` to `max`, both included.
pub open spec fn in_box(v: VoxelCoord, min: VoxelCoord, max: VoxelCoord) -> bool {
    &&& min.x <= v.x <= max.x
    &&& min.y <= v.y <= max.y
    &&& min.z <= v.z <= max.z
}

/// The side of the box along one axis that a ray with direction component `d` is heading for.
pub open spec fn limit(d: int, min: int, max: int) -> int {
    if d > 0 {
        max
    } else {
        min
    }
}

/// Whether `v`, entered along `axis`, lies on the side of the box that the ray is heading for
/// along that axis.
pub open spec fn at_limit(
    v: VoxelCoord,
    axis: FaceHit,
    direction: Coord,
    min: VoxelCoord,
    max: VoxelCoord,
) -> bool {
    match axis {
        FaceHit::X => v.x == limit(direction.x as int, min.x as int, max.x as int),
        FaceHit::Y => v.y == limit(direction.y as int, min.y as int, max.y as int),
        FaceHit::Z => v.z == limit(direction.z as int, min.z as int, max.z as int),
        FaceHit::Contained => false,
    }
}

/// Whether a ray with direction component `d` that starts in voxel `v` has the side of the box
/// that it is heading for still ahead of it along one axis.
pub open spec fn limit_ahead(v: int, d: int, min: int, max: int) -> bool {
    &&& d > 0 ==> v < max
    &&& d < 0 ==> min < v
}

/// Whether the ray has every side of the box that it is heading for still ahead of it.
pub open spec fn limits_ahead(v: VoxelCoord, direction: Coord, min: VoxelCoord, max: VoxelCoord) -> bool {
    &&& limit_ahead(v.x as int, direction.x as int, min.x as int, max.x as int)
    &&& limit_ahead(v.y as int, direction.y as int, min.y as int, max.y as int)
    &&& limit_ahead(v.z as int, direction.z as int, min.z as int, max.z as int)
}

/// Whether the ray can be in a voxel with coordinate `v` along one axis before it has reached
/// the side of the box that it is heading for.
pub open spec fn may_visit_axis(v: int, from: int, d: int, min: int, max: int) -> bool {
    if d > 0 {
        from <= v < max
    } else if d < 0 {
        min < v <= from
    } else {
        v == from
    }
}

/// The voxels on which a ray cast from `start_voxel` may ask whether they are interesting.
pub open spec fn may_visit(
    v: VoxelCoord,
    start_voxel: VoxelCoord,
    direction: Coord,
    min: VoxelCoord,
    max: VoxelCoord,
) -> bool {
    &&& may_visit_axis(v.x as int, start_voxel.x as int, direction.x as int, min.x as int, max.x as int)
    &&& may_visit_axis(v.y as int, start_voxel.y as int, direction.y as int, min.y as int, max.y as int)
    &&& may_visit_axis(v.z as int, start_voxel.z as int, direction.z as int, min.z as int, max.z as int)
}

/// Whether the ray went on through the `j`th voxel that it entered: that voxel was not on the
/// border, and was found not to be interesting.
pub open spec fn passes<F: FnMut(VoxelCoord) -> bool>(
    is_interesting: F,
    start_voxel: VoxelCoord,
    start: Coord,
    direction: Coord,
    min: VoxelCoord,
    max: VoxelCoord,
    j: nat,
) -> bool {
    let v = walk(start_voxel, start, direction, j);
    &&& !at_limit(v, entry_axis(start_voxel, start, direction, j), direction, min, max)
    &&& call_ensures(is_interesting, (v,), false)
}

/// Whether `hit` describes a ray that stopped in the `k`th voxel that it entered, having gone
/// on through all those before it.
pub open spec fn stops_after<F: FnMut(VoxelCoord) -> bool>(
    is_interesting: F,
    start_voxel: VoxelCoord,
    start: Coord,
    direction: Coord,
    min: VoxelCoord,
    max: VoxelCoord,
    k: nat,
    hit: Raycast,
) -> bool {
    let before = walk(start_voxel, start, direction, (k - 1) as nat);
    let v = walk(start_voxel, start, direction, k);
    let axis = entry_axis(start_voxel, start, direction, k);
    &&& k >= 1
    &&& forall|j: nat|
        1 <= j < k ==> #[trigger] passes(is_interesting, start_voxel, start, direction, min, max, j)
    &&& hit.face_hit == axis
    &&& hit.end_voxel == v
    &&& hit.end == exit_point(before, axis, start, direction)
    &&& hit.hit_interesting == !at_limit(v, axis, direction, min, max)
    &&& hit.hit_interesting ==> call_ensures(is_interesting, (v,), true)
}

/// Whether `hit` is a result of casting the ray: either the start voxel was found interesting
/// and the ray went nowhere, or it was not and the ray stopped in a later voxel, the first
/// that lies on the border or was found interesting.
pub open spec fn ray_stops<F: FnMut(VoxelCoord) -> bool>(
    is_interesting: F,
    start_voxel: VoxelCoord,
    start: Coord,
    direction: Coord,
    min: VoxelCoord,
    max: VoxelCoord,
    hit: Raycast,
) -> bool {
    if hit.face_hit == FaceHit::Contained {
        &&& call_ensures(is_interesting, (start_voxel,), true)
        &&& hit.end == start
        &&& hit.end_voxel == start_voxel
        &&& hit.hit_interesting
    } else {
        &&& call_ensures(is_interesting, (start_voxel,), false)
        &&& exists|k: nat|
            #[trigger] stops_after(is_interesting, start_voxel, start, direction, min, max, k, hit)
    }
}

/// Whether the face through which the ray came into its voxel along one axis, a whole voxel
/// before the face at `nc / mc`, was not crossed later than the face at `na / ma` will be.
pub open spec fn entered_by(nc: int, mc: int, na: int, ma: int) -> bool {
    mc != 0 && ma != 0 ==> (nc - VOXEL_UNITS) * ma <= na * mc
}

/// How many faces a ray in voxel `v` has yet to cross along one axis before it is on the side
/// of the box that it is heading for.
pub open spec fn faces_left(v: int, d: int, min: int, max: int) -> int {
    if d > 0 {
        max - v
    } else if d < 0 {
        v - min
    } else {
        0
    }
}

/// A face that is no later than a second, which is no later than a third, is no later than
/// the third.
proof fn lemma_no_later_transitive(na: int, ma: int, nb: int, mb: int, nc: int, mc: int)
    requires
        0 <= ma,
        0 <= mb,
        0 <= mc,
        0 <= na,
        0 <= nb,
        0 <= nc,
        no_later(na, ma, nb, mb),
        no_later(nb, mb, nc, mc),
    ensures
        no_later(na, ma, nc, mc),
{
    if ma != 0 && mb != 0 && mc != 0 {
        assert(na * mc <= nc * ma) by (nonlinear_arith)
            requires
                na * mb <= nb * ma,
                nb * mc <= nc * mb,
                0 < ma,
                0 < mb,
                0 < mc,
                0 <= na,
                0 <= nb,
                0 <= nc,
        {
            assert((na * mb) * mc <= (nb * ma) * mc);
            assert((nb * mc) * ma <= (nc * mb) * ma);
            assert((na * mc) * mb <= (nc * ma) * mb);
        }
    }
}

/// The axis that `next_axis` picks is one along which the ray moves, and no face is nearer
/// than the one along it.
proof fn lemma_nearest(nx: int, mx: int, ny: int, my: int, nz: int, mz: int)
    requires
        0 <= mx,
        0 <= my,
        0 <= mz,
        0 <= nx,
        0 <= ny,
        0 <= nz,
        mx != 0 || my != 0 || mz != 0,
    ensures
        ({
            let x_first = no_later(nx, mx, ny, my) && no_later(nx, mx, nz, mz);
            let y_first = !x_first && !no_later(nx, mx, ny, my) && no_later(ny, my, nz, mz);
            &&& x_first ==> mx != 0
            &&& y_first ==> my != 0 && no_later(ny, my, nx, mx)
            &&& !x_first && !y_first ==> mz != 0 && no_later(nz, mz, nx, mx) && no_later(
                nz,
                mz,
                ny,
                my,
            )
        }),
{
    let x_first = no_later(nx, mx, ny, my) && no_later(nx, mx, nz, mz);
    let y_first = !x_first && !no_later(nx, mx, ny, my) && no_later(ny, my, nz, mz);
    if !x_first && !y_first {
        if no_later(nx, mx, ny, my) {
            // z is nearer than x, and x no further than y
            assert(no_later(nz, mz, nx, mx));
            lemma_no_later_transitive(nz, mz, nx, mx, ny, my);
        } else {
            // y is nearer than x, and z nearer than y
            assert(no_later(nz, mz, ny, my));
            assert(no_later(ny, my, nx, mx));
            lemma_no_later_transitive(nz, mz, ny, my, nx, mx);
        }
    }
}

/// Between the face through which the ray came into its voxel along an axis and the face
/// through which it will leave it, the ray has moved no further along that axis than from the
/// one to the other.
proof fn lemma_travel_bounds(nc: int, mc: int, na: int, ma: int)
    requires
        0 < ma,
        0 < mc,
        0 <= na,
        0 <= nc,
        na * mc <= nc * ma,
        (nc - VOXEL_UNITS) * ma <= na * mc,
    ensures
        nc - VOXEL_UNITS <= (na * mc) / ma <= nc,
        0 <= (na * mc) / ma,
{
    let p = na * mc;
    let q = p / ma;
    assert(0 <= p) by (nonlinear_arith)
        requires
            0 <= na,
            0 < mc,
            p == na * mc,
    ;
    vstd::arithmetic::div_mod::lemma_fundamental_div_mod(p, ma);
    vstd::arithmetic::div_mod::lemma_mod_bound(p, ma);
    assert(p == ma * q + p % ma);
    assert(q <= nc) by (nonlinear_arith)
        requires
            ma * q <= p,
            p <= nc * ma,
            0 < ma,
    ;
    assert(nc - VOXEL_UNITS <= q) by (nonlinear_arith)
        requires
            p < ma * q + ma,
            (nc - VOXEL_UNITS) * ma <= p,
            0 < ma,
    ;
    assert(0 <= q) by (nonlinear_arith)
        requires
            0 <= p,
            p < ma * q + ma,
            0 < ma,
    ;
}

/// Along the axis of the face that it crosses, the ray has moved the whole reach.
proof fn lemma_travel_whole(n: int, m: int)
    requires
        0 < m,
    ensures
        (n * m) / m == n,
{
    vstd::arithmetic::div_mod::lemma_div_multiples_vanish(n, m);
    assert(n * m == m * n) by (nonlinear_arith);
}

/// The largest reach that a ray inside the range of voxel coordinates can have.
const MAX_REACH: i64 = 0x1000_0000;

/// For one axis: how far it is from the start of the ray to the far face of its voxel, and
/// the size of the direction along that axis.
fn init(v_c: i16, c: i32, dc: i32) -> (r: (i64, i64))
    ensures
        r.0 == reach(v_c as int, c as int, dc as int),
        r.1 == magnitude(dc as int),
{
    let center: i64 = v_c as i64 * 4096;
    let half: i64 = 2048;
    if dc > 0 {
        (center + half - c as i64, dc as i64)
    } else if dc < 0 {
        (c as i64 - (center - half), -(dc as i64))
    } else {
        (0, 0)
    }
}

/// Whether the face at `na / ma` is reached no later than the one at `nb / mb`.
fn reached_no_later(na: i64, ma: i64, nb: i64, mb: i64) -> (b: bool)
    requires
        0 <= na <= MAX_REACH,
        0 <= nb <= MAX_REACH,
        0 <= ma <= 0x8000_0000,
        0 <= mb <= 0x8000_0000,
    ensures
        b == no_later(na as int, ma as int, nb as int, mb as int),
{
    if ma == 0 {
        mb == 0
    } else if mb == 0 {
        true
    } else {
        assert(na * mb <= 0x1000_0000 * 0x8000_0000) by (nonlinear_arith)
            requires
                0 <= na <= 0x1000_0000,
                0 <= mb <= 0x8000_0000,
        ;
        assert(nb * ma <= 0x1000_0000 * 0x8000_0000) by (nonlinear_arith)
            requires
                0 <= nb <= 0x1000_0000,
                0 <= ma <= 0x8000_0000,
        ;
        assert(0 <= na * mb) by (nonlinear_arith)
            requires
                0 <= na,
                0 <= mb,
        ;
        assert(0 <= nb * ma) by (nonlinear_arith)
            requires
                0 <= nb,
                0 <= ma,
        ;
        na * mb <= nb * ma
    }
}

/// Where the ray stands along one axis when it crosses the face at `num / den` along another,
/// or the same, axis.
fn travel_along(c: i32, d: i32, num: i64, den: i64) -> (e: i32)
    requires
        0 <= num <= MAX_REACH,
        0 < den,
        i32::MIN <= travel(c as int, d as int, num as int, den as int) <= i32::MAX,
    ensures
        e == travel(c as int, d as int, num as int, den as int),
{
    if d == 0 {
        c
    } else {
        let m: i64 = if d > 0 {
            d as i64
        } else {
            -(d as i64)
        };
        assert(0 <= num * m <= 0x1000_0000 * 0x8000_0000) by (nonlinear_arith)
            requires
                0 <= num <= 0x1000_0000,
                0 <= m <= 0x8000_0000,
        ;
        let q: i64 = (num * m) / den;
        if d > 0 {
            (c as i64 + q) as i32
        } else {
            (c as i64 - q) as i32
        }
    }
}

/// Whether the face at `num / den`, along `axis`, is the nearest of the faces of voxel `from`
/// and was not passed before the ray came into `from`.
spec fn leaves_by(
    from: VoxelCoord,
    axis: FaceHit,
    start: Coord,
    direction: Coord,
    num: int,
    den: int,
) -> bool {
    let nx = reach(from.x as int, start.x as int, direction.x as int);
    let ny = reach(from.y as int, start.y as int, direction.y as int);
    let nz = reach(from.z as int, start.z as int, direction.z as int);
    let mx = magnitude(direction.x as int);
    let my = magnitude(direction.y as int);
    let mz = magnitude(direction.z as int);
    &&& axis != FaceHit::Contained
    &&& axis == FaceHit::X ==> num == nx && den == mx
    &&& axis == FaceHit::Y ==> num == ny && den == my
    &&& axis == FaceHit::Z ==> num == nz && den == mz
    &&& den > 0
    &&& 0 <= num <= MAX_REACH
    &&& 0 <= nx
    &&& 0 <= ny
    &&& 0 <= nz
    &&& no_later(num, den, nx, mx)
    &&& no_later(num, den, ny, my)
    &&& no_later(num, den, nz, mz)
    &&& entered_by(nx, mx, num, den)
    &&& entered_by(ny, my, num, den)
    &&& entered_by(nz, mz, num, den)
}

/// Along one axis, the ray is still in voxel `v` when it crosses the face at `na / ma`.
proof fn lemma_stays_within(v: int, c: int, d: int, na: int, ma: int)
    requires
        0 < ma,
        0 <= na,
        0 <= reach(v, c, d),
        no_later(na, ma, reach(v, c, d), magnitude(d)),
        entered_by(reach(v, c, d), magnitude(d), na, ma),
        d == 0 ==> within_voxel_axis(c, v),
    ensures
        within_voxel_axis(travel(c, d, na, ma), v),
{
    if d != 0 {
        lemma_travel_bounds(reach(v, c, d), magnitude(d), na, ma);
    }
}

/// The point at which the ray leaves voxel `from` by the face along `axis`: it lies in `from`
/// and in the voxel beyond that face.
fn leave(from: VoxelCoord, axis: FaceHit, start: Coord, direction: Coord, num: i64, den: i64) -> (end:
    Coord)
    requires
        leaves_by(from, axis, start, direction, num as int, den as int),
        direction.x == 0 ==> within_voxel_axis(start.x as int, from.x as int),
        direction.y == 0 ==> within_voxel_axis(start.y as int, from.y as int),
        direction.z == 0 ==> within_voxel_axis(start.z as int, from.z as int),
        i16::MIN <= from.x + heading(direction.x as int) <= i16::MAX,
        i16::MIN <= from.y + heading(direction.y as int) <= i16::MAX,
        i16::MIN <= from.z + heading(direction.z as int) <= i16::MAX,
    ensures
        end == exit_point(from, axis, start, direction),
        within_voxel(end, from),
        within_voxel(end, step(from, axis, direction)),
{
    proof {
        lemma_stays_within(from.x as int, start.x as int, direction.x as int, num as int, den as int);
        lemma_stays_within(from.y as int, start.y as int, direction.y as int, num as int, den as int);
        lemma_stays_within(from.z as int, start.z as int, direction.z as int, num as int, den as int);
        lemma_travel_whole(num as int, den as int);
    }
    Coord {
        x: travel_along(start.x, direction.x, num, den),
        y: travel_along(start.y, direction.y, num, den),
        z: travel_along(start.z, direction.z, num, den),
    }
}

/// A ray that starts inside its voxel came into it, along every axis, before it crosses any
/// face.
proof fn lemma_first_face(nc: int, mc: int, na: int, ma: int)
    requires
        0 <= ma,
        0 <= mc,
        0 <= na,
        nc <= VOXEL_UNITS,
    ensures
        entered_by(nc, mc, na, ma),
{
    assert((nc - VOXEL_UNITS) * ma <= 0 <= na * mc) by (nonlinear_arith)
        requires
            0 <= ma,
            0 <= mc,
            0 <= na,
            nc - VOXEL_UNITS <= 0,
    ;
}

/// The ray comes into a voxel along an axis before it leaves it along that axis.
proof fn lemma_own_face(n: int, m: int)
    requires
        0 <= m,
    ensures
        entered_by(n, m, n, m),
{
    assert((n - VOXEL_UNITS) * m <= n * m) by (nonlinear_arith)
        requires
            0 <= m,
    ;
}

/// Once the ray has crossed the face at `na / ma`, the next face along that axis is a whole
/// voxel further, and what held of the order of the faces before holds after.
proof fn lemma_next_face(na: int, ma: int, nc: int, mc: int)
    requires
        0 <= ma,
        0 <= mc,
        ma != 0,
        no_later(na, ma, nc, mc),
        entered_by(nc, mc, na, ma),
    ensures
        entered_by(nc, mc, na + VOXEL_UNITS, ma),
        entered_by(na + VOXEL_UNITS, ma, nc, mc),
{
    if mc != 0 {
        assert((na + VOXEL_UNITS) * mc == na * mc + VOXEL_UNITS * mc) by (nonlinear_arith);
        assert(0 <= VOXEL_UNITS * mc) by (nonlinear_arith)
            requires
                0 <= mc,
        ;
        assert((na + VOXEL_UNITS - VOXEL_UNITS) * mc == na * mc);
    }
}

/// How many faces a ray in voxel `v` has yet to cross before it is on a side of the box
/// that it is heading for along every axis.
pub open spec fn faces_ahead(v: VoxelCoord, direction: Coord, min: VoxelCoord, max: VoxelCoord) -> int {
    faces_left(v.x as int, direction.x as int, min.x as int, max.x as int) + faces_left(
        v.y as int,
        direction.y as int,
        min.y as int,
        max.y as int,
    ) + faces_left(v.z as int, direction.z as int, min.z as int, max.z as int)
}

/// Whether `v` lies no further back than `from` along one axis, for a ray with direction
/// component `d`.
pub open spec fn ahead_axis(v: int, from: int, d: int) -> bool {
    if d > 0 {
        from <= v
    } else if d < 0 {
        v <= from
    } else {
        v == from
    }
}

/// Whether a ray that was in voxel `from` can be in voxel `v` later.
pub open spec fn ahead(v: VoxelCoord, from: VoxelCoord, direction: Coord) -> bool {
    &&& ahead_axis(v.x as int, from.x as int, direction.x as int)
    &&& ahead_axis(v.y as int, from.y as int, direction.y as int)
    &&& ahead_axis(v.z as int, from.z as int, direction.z as int)
}

/// Whether the faces of voxel `v` stand in the order in which a ray from `start` that has come
/// into `v` finds them: along no axis did it come into `v` later than it will leave it along
/// any axis.
pub open spec fn in_order(v: VoxelCoord, start: Coord, direction: Coord) -> bool {
    let nx = reach(v.x as int, start.x as int, direction.x as int);
    let ny = reach(v.y as int, start.y as int, direction.y as int);
    let nz = reach(v.z as int, start.z as int, direction.z as int);
    let mx = magnitude(direction.x as int);
    let my = magnitude(direction.y as int);
    let mz = magnitude(direction.z as int);
    &&& entered_by(nx, mx, ny, my)
    &&& entered_by(nx, mx, nz, mz)
    &&& entered_by(ny, my, nx, mx)
    &&& entered_by(ny, my, nz, mz)
    &&& entered_by(nz, mz, nx, mx)
    &&& entered_by(nz, mz, ny, my)
}

/// How many faces lie between two voxels for a ray that never turns back.
pub open spec fn steps_between(from: VoxelCoord, to: VoxelCoord) -> nat {
    (magnitude(to.x - from.x) + magnitude(to.y - from.y) + magnitude(to.z - from.z)) as nat
}

/// Whether `v` is the voxel in which a ray from `start` in `start_voxel` is after it has
/// crossed `k` faces.
pub open spec fn on_course(
    start_voxel: VoxelCoord,
    start: Coord,
    direction: Coord,
    v: VoxelCoord,
    k: nat,
) -> bool {
    &&& v == walk(start_voxel, start, direction, k)
    &&& ahead(v, start_voxel, direction)
    &&& in_order(v, start, direction)
    &&& steps_between(start_voxel, v) == k
}

/// Whether `hit` describes a ray that, having crossed `k0` faces, went on and stopped in the
/// `k`th voxel that it entered, having gone on through all those between.
pub open spec fn stops_beyond<F: FnMut(VoxelCoord) -> bool>(
    is_interesting: F,
    start_voxel: VoxelCoord,
    start: Coord,
    direction: Coord,
    min: VoxelCoord,
    max: VoxelCoord,
    k0: nat,
    k: nat,
    hit: Raycast,
) -> bool {
    let before = walk(start_voxel, start, direction, (k - 1) as nat);
    let v = walk(start_voxel, start, direction, k);
    let axis = entry_axis(start_voxel, start, direction, k);
    &&& k > k0
    &&& forall|j: nat|
        k0 < j < k ==> #[trigger] passes(is_interesting, start_voxel, start, direction, min, max, j)
    &&& hit.face_hit == axis
    &&& hit.end_voxel == v
    &&& hit.end == exit_point(before, axis, start, direction)
    &&& hit.hit_interesting == !at_limit(v, axis, direction, min, max)
    &&& hit.hit_interesting ==> call_ensures(is_interesting, (v,), true)
}

/// A ray that starts inside its voxel is on its course there.
proof fn lemma_sets_out(start_voxel: VoxelCoord, start: Coord, direction: Coord)
    requires
        within_voxel(start, start_voxel),
    ensures
        on_course(start_voxel, start, direction, start_voxel, 0),
{
    let nx = reach(start_voxel.x as int, start.x as int, direction.x as int);
    let ny = reach(start_voxel.y as int, start.y as int, direction.y as int);
    let nz = reach(start_voxel.z as int, start.z as int, direction.z as int);
    let mx = magnitude(direction.x as int);
    let my = magnitude(direction.y as int);
    let mz = magnitude(direction.z as int);
    lemma_first_face(nx, mx, ny, my);
    lemma_first_face(nx, mx, nz, mz);
    lemma_first_face(ny, my, nx, mx);
    lemma_first_face(ny, my, nz, mz);
    lemma_first_face(nz, mz, nx, mx);
    lemma_first_face(nz, mz, ny, my);
}

/// Takes a ray that is on its course in voxel `from`, having crossed `k0` faces, on from
/// there: through the voxels that it comes into, until it comes to lie on the side of the box
/// that it is heading for or comes into a voxel that is found interesting. Tells where it
/// stopped, and how many faces it has crossed by then.
///
/// `from` itself is not asked about.
#[verifier::spinoff_prover]
#[verifier::rlimit(60)]
fn cast_on<F: FnMut(VoxelCoord) -> bool>(
    start_voxel: VoxelCoord,
    start: Coord,
    direction: Coord,
    from: VoxelCoord,
    min: VoxelCoord,
    max: VoxelCoord,
    is_interesting: F,
    Ghost(k0): Ghost<nat>,
) -> (r: (Raycast, Ghost<nat>))
    requires
        within_voxel(start, start_voxel),
        direction.x != 0 || direction.y != 0 || direction.z != 0,
        on_course(start_voxel, start, direction, from, k0),
        in_box(from, min, max),
        limits_ahead(from, direction, min, max),
        forall|v: VoxelCoord| #[trigger]
            may_visit(v, from, direction, min, max) ==> call_requires(is_interesting, (v,)),
    ensures
        stops_beyond(is_interesting, start_voxel, start, direction, min, max, k0, r.1@, r.0),
        forall|j: nat|
            k0 <= j < r.1@ ==> may_visit(
                #[trigger] walk(start_voxel, start, direction, j),
                from,
                direction,
                min,
                max,
            ),
        on_course(start_voxel, start, direction, r.0.end_voxel, r.1@),
        in_box(r.0.end_voxel, min, max),
        within_voxel(r.0.end, r.0.end_voxel),
        within_voxel(r.0.end, previous(r.0.end_voxel, r.0.face_hit, direction)),
        r.0.face_hit != FaceHit::Contained,
        may_visit(previous(r.0.end_voxel, r.0.face_hit, direction), from, direction, min, max),
        r.0.hit_interesting ==> may_visit(r.0.end_voxel, from, direction, min, max),
        faces_ahead(r.0.end_voxel, direction, min, max) < faces_ahead(from, direction, min, max),
{
    // integer coordinates of the center of our voxel
    let mut x: i16 = from.x;
    let mut y: i16 = from.y;
    let mut z: i16 = from.z;
    let step_x: i16 = if direction.x > 0 { 1 } else if direction.x < 0 { -1 } else { 0 };
    let step_y: i16 = if direction.y > 0 { 1 } else if direction.y < 0 { -1 } else { 0 };
    let step_z: i16 = if direction.z > 0 { 1 } else if direction.z < 0 { -1 } else { 0 };

    // box defining stopping voxels
    let lim_x: i16 = if direction.x > 0 { max.x } else { min.x };
    let lim_y: i16 = if direction.y > 0 { max.y } else { min.y };
    let lim_z: i16 = if direction.z > 0 { max.z } else { min.z };

    // reach_c / size_c: multiple of direction to get to that face of the voxel
    let (mut reach_x, size_x) = init(from.x, start.x, direction.x);
    let (mut reach_y, size_y) = init(from.y, start.y, direction.y);
    let (mut reach_z, size_z) = init(from.z, start.z, direction.z);
    let ghost mut k: nat = k0;
    let mut ask = is_interesting;

    loop
        invariant
            ask == is_interesting,
            within_voxel(start, start_voxel),
            ahead(from, start_voxel, direction),
            in_box(from, min, max),
            direction.x != 0 || direction.y != 0 || direction.z != 0,
            forall|v: VoxelCoord| #[trigger]
                may_visit(v, from, direction, min, max) ==> call_requires(is_interesting, (v,)),
            step_x == heading(direction.x as int),
            step_y == heading(direction.y as int),
            step_z == heading(direction.z as int),
            lim_x == limit(direction.x as int, min.x as int, max.x as int),
            lim_y == limit(direction.y as int, min.y as int, max.y as int),
            lim_z == limit(direction.z as int, min.z as int, max.z as int),
            size_x == magnitude(direction.x as int),
            size_y == magnitude(direction.y as int),
            size_z == magnitude(direction.z as int),
            reach_x == reach(x as int, start.x as int, direction.x as int),
            reach_y == reach(y as int, start.y as int, direction.y as int),
            reach_z == reach(z as int, start.z as int, direction.z as int),
            k0 <= k,
            (VoxelCoord { x, y, z }) == walk(start_voxel, start, direction, k),
            steps_between(start_voxel, VoxelCoord { x, y, z }) == k,
            may_visit(VoxelCoord { x, y, z }, from, direction, min, max),
            forall|j: nat|
                k0 < j <= k ==> #[trigger] passes(
                    is_interesting,
                    start_voxel,
                    start,
                    direction,
                    min,
                    max,
                    j,
                ),
            forall|j: nat|
                k0 <= j <= k ==> may_visit(
                    #[trigger] walk(start_voxel, start, direction, j),
                    from,
                    direction,
                    min,
                    max,
                ),
            in_order(VoxelCoord { x, y, z }, start, direction),
        decreases faces_ahead(VoxelCoord { x, y, z }, direction, min, max),
    {
        let ghost before = VoxelCoord { x, y, z };
        proof {
            lemma_nearest(
                reach_x as int,
                size_x as int,
                reach_y as int,
                size_y as int,
                reach_z as int,
                size_z as int,
            );
        }
        let x_by_y = reached_no_later(reach_x, size_x, reach_y, size_y);
        if x_by_y && reached_no_later(reach_x, size_x, reach_z, size_z) {
            assert(next_axis(before, start, direction) == FaceHit::X);
            let out_of = VoxelCoord { x, y, z };
            x = x + step_x;
            let cur = VoxelCoord { x, y, z };
            proof {
                k = k + 1;
                assert(cur == walk(start_voxel, start, direction, k));
                lemma_own_face(reach_x as int, size_x as int);
                lemma_next_face(reach_x as int, size_x as int, reach_y as int, size_y as int);
                lemma_next_face(reach_x as int, size_x as int, reach_z as int, size_z as int);
            }
            let hit_border = x == lim_x;
            assert(!hit_border ==> may_visit(cur, from, direction, min, max));
            // note: evaluation order is important here:
            // we don't want to evaluate the predicate on border voxels
            if hit_border || ask(cur) {
                let end = leave(out_of, FaceHit::X, start, direction, reach_x, size_x);
                let hit = Raycast {
                    face_hit: FaceHit::X,
                    end,
                    end_voxel: cur,
                    // if we hit the border, it can't be interesting;
                    // if we hit interesting, it can't be border
                    hit_interesting: !hit_border,
                };
                assert(stops_beyond(is_interesting, start_voxel, start, direction, min, max, k0, k, hit));
                return (hit, Ghost(k));
            }
            assert(passes(is_interesting, start_voxel, start, direction, min, max, k));
            reach_x = reach_x + VOXEL_UNITS as i64;
        } else if !x_by_y && reached_no_later(reach_y, size_y, reach_z, size_z) {
            assert(next_axis(before, start, direction) == FaceHit::Y);
            let out_of = VoxelCoord { x, y, z };
            y = y + step_y;
            let cur = VoxelCoord { x, y, z };
            proof {
                k = k + 1;
                assert(cur == walk(start_voxel, start, direction, k));
                lemma_own_face(reach_y as int, size_y as int);
                lemma_next_face(reach_y as int, size_y as int, reach_x as int, size_x as int);
                lemma_next_face(reach_y as int, size_y as int, reach_z as int, size_z as int);
            }
            let hit_border = y == lim_y;
            assert(!hit_border ==> may_visit(cur, from, direction, min, max));
            // note: evaluation order is important here:
            // we don't want to evaluate the predicate on border voxels
            if hit_border || ask(cur) {
                let end = leave(out_of, FaceHit::Y, start, direction, reach_y, size_y);
                let hit = Raycast {
                    face_hit: FaceHit::Y,
                    end,
                    end_voxel: cur,
                    // if we hit the border, it can't be interesting;
                    // if we hit interesting, it can't be border
                    hit_interesting: !hit_border,
                };
                assert(stops_beyond(is_interesting, start_voxel, start, direction, min, max, k0, k, hit));
                return (hit, Ghost(k));
            }
            assert(passes(is_interesting, start_voxel, start, direction, min, max, k));
            reach_y = reach_y + VOXEL_UNITS as i64;
        } else {
            assert(next_axis(before, start, direction) == FaceHit::Z);
            let out_of = VoxelCoord { x, y, z };
            z = z + step_z;
            let cur = VoxelCoord { x, y, z };
            proof {
                k = k + 1;
                assert(cur == walk(start_voxel, start, direction, k));
                lemma_own_face(reach_z as int, size_z as int);
                lemma_next_face(reach_z as int, size_z as int, reach_x as int, size_x as int);
                lemma_next_face(reach_z as int, size_z as int, reach_y as int, size_y as int);
            }
            let hit_border = z == lim_z;
            assert(!hit_border ==> may_visit(cur, from, direction, min, max));
            // note: evaluation order is important here:
            // we don't want to evaluate the predicate on border voxels
            if hit_border || ask(cur) {
                let end = leave(out_of, FaceHit::Z, start, direction, reach_z, size_z);
                let hit = Raycast {
                    face_hit: FaceHit::Z,
                    end,
                    end_voxel: cur,
                    // if we hit the border, it can't be interesting;
                    // if we hit interesting, it can't be border
                    hit_interesting: !hit_border,
                };
                assert(stops_beyond(is_interesting, start_voxel, start, direction, min, max, k0, k, hit));
                return (hit, Ghost(k));
            }
            assert(passes(is_interesting, start_voxel, start, direction, min, max, k));
            reach_z = reach_z + VOXEL_UNITS as i64;
        }
    }
}

/// What is asked of a ray that is to go on from its start voxel: it starts within that voxel,
/// it moves, no side of the box that it is heading for is reached yet, and whether a voxel is
/// interesting can be asked of every voxel that it may come into.
pub open spec fn sets_off<F: FnMut(VoxelCoord) -> bool>(
    is_interesting: F,
    start_voxel: VoxelCoord,
    start: Coord,
    direction: Coord,
    min: VoxelCoord,
    max: VoxelCoord,
) -> bool {
    &&& within_voxel(start, start_voxel)
    &&& direction.x != 0 || direction.y != 0 || direction.z != 0
    &&& limits_ahead(start_voxel, direction, min, max)
    &&& forall|v: VoxelCoord| #[trigger]
        may_visit(v, start_voxel, direction, min, max) ==> call_requires(is_interesting, (v,))
}

/// Starting at "start_voxel" / "start", walk through grid squares
/// until the current voxel reaches a side of the cube defined by:
///  (min.x, max.x) x (min.y, max.y) x (min.z, max.z)
/// (that is, inclusive)
///
/// `start_voxel` and `start` are redundant:
/// this is to allow starting coordinates on the edge of a voxel
/// to work correctly.
///
/// is_interesting should return "true" to signal that the raycast should stop.
/// it will not be evaluated for border voxels, that is, voxels where x == min.x and so on
/// for the side that the ray is heading for.
///
/// `start_voxel` must lie in the box. A ray whose start voxel is interesting goes nowhere,
/// whatever its start and direction. Any other ray must start within `start_voxel`, faces
/// included, must move, and must not start on a side of the box that it is heading for: such
/// a ray has left the box already. See `sets_off`.
///
/// Returns the point at which the ray entered the voxel that stopped it, and the coordinate of
/// that voxel.
///
/// Note that voxels are centered at integer coordinates.
pub fn raycast<F: FnMut(VoxelCoord) -> bool>(
    start_voxel: VoxelCoord,
    start: Coord,
    direction: Coord,
    min: VoxelCoord,
    max: VoxelCoord,
    is_interesting: F,
) -> (hit: Raycast)
    requires
        in_box(start_voxel, min, max),
        call_requires(is_interesting, (start_voxel,)),
        call_ensures(is_interesting, (start_voxel,), false) ==> sets_off(
            is_interesting,
            start_voxel,
            start,
            direction,
            min,
            max,
        ),
    ensures
        ray_stops(is_interesting, start_voxel, start, direction, min, max, hit),
        in_box(hit.end_voxel, min, max),
        hit.face_hit != FaceHit::Contained ==> {
            &&& within_voxel(hit.end, hit.end_voxel)
            &&& within_voxel(hit.end, previous(hit.end_voxel, hit.face_hit, direction))
            &&& faces_ahead(hit.end_voxel, direction, min, max) < faces_ahead(
                start_voxel,
                direction,
                min,
                max,
            )
            &&& may_visit(
                previous(hit.end_voxel, hit.face_hit, direction),
                start_voxel,
                direction,
                min,
                max,
            )
            &&& hit.hit_interesting ==> may_visit(hit.end_voxel, start_voxel, direction, min, max)
        },
{
    // if we're in a target block, return immediately
    let mut ask = is_interesting;
    if ask(start_voxel) {
        return Raycast {
            face_hit: FaceHit::Contained,
            end: start,
            end_voxel: start_voxel,
            hit_interesting: true,
        };
    }
    proof {
        lemma_sets_out(start_voxel, start, direction);
    }
    let (hit, Ghost(k)) = cast_on(
        start_voxel,
        start,
        direction,
        start_voxel,
        min,
        max,
        ask,
        Ghost(0),
    );
    assert(stops_after(is_interesting, start_voxel, start, direction, min, max, k, hit));
    hit
}

/// Whether a ray that finds interesting exactly the voxels that `interesting` holds of goes
/// on through the `j`th voxel that it enters.
pub open spec fn goes_on(
    interesting: spec_fn(VoxelCoord) -> bool,
    start_voxel: VoxelCoord,
    start: Coord,
    direction: Coord,
    min: VoxelCoord,
    max: VoxelCoord,
    j: nat,
) -> bool {
    let v = walk(start_voxel, start, direction, j);
    !at_limit(v, entry_axis(start_voxel, start, direction, j), direction, min, max) && !interesting(v)
}

/// Whether such a ray stops in the `k`th voxel that it enters.
pub open spec fn stops_at(
    interesting: spec_fn(VoxelCoord) -> bool,
    start_voxel: VoxelCoord,
    start: Coord,
    direction: Coord,
    min: VoxelCoord,
    max: VoxelCoord,
    k: nat,
) -> bool {
    &&& k >= 1
    &&& forall|j: nat|
        1 <= j < k ==> #[trigger] goes_on(interesting, start_voxel, start, direction, min, max, j)
    &&& !goes_on(interesting, start_voxel, start, direction, min, max, k)
}

/// What is told of a ray that stops in the `k`th voxel that it enters.
pub open spec fn stop_in(
    start_voxel: VoxelCoord,
    start: Coord,
    direction: Coord,
    min: VoxelCoord,
    max: VoxelCoord,
    k: nat,
) -> Raycast {
    let before = walk(start_voxel, start, direction, (k - 1) as nat);
    let v = walk(start_voxel, start, direction, k);
    let axis = entry_axis(start_voxel, start, direction, k);
    Raycast {
        face_hit: axis,
        end: exit_point(before, axis, start, direction),
        end_voxel: v,
        hit_interesting: !at_limit(v, axis, direction, min, max),
    }
}

/// The one result of casting a ray that finds interesting exactly the voxels that
/// `interesting` holds of.
#[verifier::opaque]
pub open spec fn cast(
    interesting: spec_fn(VoxelCoord) -> bool,
    start_voxel: VoxelCoord,
    start: Coord,
    direction: Coord,
    min: VoxelCoord,
    max: VoxelCoord,
) -> Raycast {
    if interesting(start_voxel) {
        Raycast { face_hit: FaceHit::Contained, end: start, end_voxel: start_voxel, hit_interesting: true }
    } else {
        stop_in(
            start_voxel,
            start,
            direction,
            min,
            max,
            choose|k: nat| stops_at(interesting, start_voxel, start, direction, min, max, k),
        )
    }
}

/// Whether a ray that finds interesting exactly the voxels that `interesting` holds of, having
/// crossed `k0` faces, goes on and stops in the `k`th voxel that it enters.
pub open spec fn stops_at_beyond(
    interesting: spec_fn(VoxelCoord) -> bool,
    start_voxel: VoxelCoord,
    start: Coord,
    direction: Coord,
    min: VoxelCoord,
    max: VoxelCoord,
    k0: nat,
    k: nat,
) -> bool {
    &&& k > k0
    &&& forall|j: nat|
        k0 < j < k ==> #[trigger] goes_on(interesting, start_voxel, start, direction, min, max, j)
    &&& !goes_on(interesting, start_voxel, start, direction, min, max, k)
}

/// The one result of taking such a ray on from the voxel in which it is after it has crossed
/// `k0` faces. That voxel itself is not asked about.
#[verifier::opaque]
pub open spec fn cast_from(
    interesting: spec_fn(VoxelCoord) -> bool,
    start_voxel: VoxelCoord,
    start: Coord,
    direction: Coord,
    min: VoxelCoord,
    max: VoxelCoord,
    k0: nat,
) -> Raycast {
    stop_in(
        start_voxel,
        start,
        direction,
        min,
        max,
        choose|k: nat| stops_at_beyond(interesting, start_voxel, start, direction, min, max, k0, k),
    )
}

/// Whether `is_interesting` answers as `interesting` says, whenever it answers.
pub open spec fn decides<F: FnMut(VoxelCoord) -> bool>(
    is_interesting: F,
    interesting: spec_fn(VoxelCoord) -> bool,
) -> bool {
    forall|v: VoxelCoord, b: bool| #[trigger]
        call_ensures(is_interesting, (v,), b) ==> b == interesting(v)
}

/// A ray whose test always answers the same for the same voxel has one result only.
pub proof fn lemma_cast<F: FnMut(VoxelCoord) -> bool>(
    is_interesting: F,
    interesting: spec_fn(VoxelCoord) -> bool,
    start_voxel: VoxelCoord,
    start: Coord,
    direction: Coord,
    min: VoxelCoord,
    max: VoxelCoord,
    hit: Raycast,
)
    requires
        ray_stops(is_interesting, start_voxel, start, direction, min, max, hit),
        decides(is_interesting, interesting),
    ensures
        hit == cast(interesting, start_voxel, start, direction, min, max),
{
    reveal(cast);
    if hit.face_hit != FaceHit::Contained {
        let found = choose|k: nat| #[trigger]
            stops_after(is_interesting, start_voxel, start, direction, min, max, k, hit);
        assert forall|j: nat| 1 <= j < found implies #[trigger] goes_on(
            interesting,
            start_voxel,
            start,
            direction,
            min,
            max,
            j,
        ) by {
            assert(passes(is_interesting, start_voxel, start, direction, min, max, j));
        }
        assert(stops_at(interesting, start_voxel, start, direction, min, max, found));
        let k = choose|k: nat| stops_at(interesting, start_voxel, start, direction, min, max, k);
        if k < found {
            assert(goes_on(interesting, start_voxel, start, direction, min, max, k));
        }
        if found < k {
            assert(goes_on(interesting, start_voxel, start, direction, min, max, found));
        }
    }
}

/// A ray that is taken on has one result only, if its test always answers the same for the
/// same voxel.
proof fn lemma_cast_from<F: FnMut(VoxelCoord) -> bool>(
    is_interesting: F,
    interesting: spec_fn(VoxelCoord) -> bool,
    start_voxel: VoxelCoord,
    start: Coord,
    direction: Coord,
    min: VoxelCoord,
    max: VoxelCoord,
    k0: nat,
    found: nat,
    hit: Raycast,
)
    requires
        stops_beyond(is_interesting, start_voxel, start, direction, min, max, k0, found, hit),
        decides(is_interesting, interesting),
    ensures
        hit == cast_from(interesting, start_voxel, start, direction, min, max, k0),
        stops_at_beyond(interesting, start_voxel, start, direction, min, max, k0, found),
        hit == stop_in(start_voxel, start, direction, min, max, found),
        hit.hit_interesting ==> interesting(hit.end_voxel),
        !hit.hit_interesting ==> at_limit(hit.end_voxel, hit.face_hit, direction, min, max),
{
    reveal(cast_from);
    assert forall|j: nat| k0 < j < found implies #[trigger] goes_on(
        interesting,
        start_voxel,
        start,
        direction,
        min,
        max,
        j,
    ) by {
        assert(passes(is_interesting, start_voxel, start, direction, min, max, j));
    }
    assert(stops_at_beyond(interesting, start_voxel, start, direction, min, max, k0, found));
    let k = choose|k: nat|
        stops_at_beyond(interesting, start_voxel, start, direction, min, max, k0, k);
    if k < found {
        assert(goes_on(interesting, start_voxel, start, direction, min, max, k));
    }
    if found < k {
        assert(goes_on(interesting, start_voxel, start, direction, min, max, found));
    }
}

/// Where a ray stops is settled by where it goes on and where it does not: whatever other
/// stop is told of a ray that goes on through the voxels before the `found`th and not
/// through that one, it is this one.
proof fn lemma_stops_once(
    interesting: spec_fn(VoxelCoord) -> bool,
    start_voxel: VoxelCoord,
    start: Coord,
    direction: Coord,
    min: VoxelCoord,
    max: VoxelCoord,
    found: nat,
)
    requires
        !interesting(start_voxel),
        stops_at(interesting, start_voxel, start, direction, min, max, found),
    ensures
        cast(interesting, start_voxel, start, direction, min, max) == stop_in(
            start_voxel,
            start,
            direction,
            min,
            max,
            found,
        ),
{
    reveal(cast);
    let k = choose|k: nat| stops_at(interesting, start_voxel, start, direction, min, max, k);
    if k < found {
        assert(goes_on(interesting, start_voxel, start, direction, min, max, k));
    }
    if found < k {
        assert(goes_on(interesting, start_voxel, start, direction, min, max, found));
    }
}

/// A ray whose start voxel is interesting goes nowhere: it ends where it started, in the
/// voxel in which it started, and is told as contained.
pub proof fn lemma_start_interesting<F: FnMut(VoxelCoord) -> bool>(
    is_interesting: F,
    start_voxel: VoxelCoord,
    start: Coord,
    direction: Coord,
    min: VoxelCoord,
    max: VoxelCoord,
    hit: Raycast,
)
    requires
        ray_stops(is_interesting, start_voxel, start, direction, min, max, hit),
        forall|b: bool| call_ensures(is_interesting, (start_voxel,), b) ==> b,
    ensures
        hit.face_hit == FaceHit::Contained,
        hit.end == start,
        hit.end_voxel == start_voxel,
        hit.hit_interesting,
{
}

/// A ray that is told to have stopped at an interesting voxel has stopped at one, and one that
/// is not has stopped on the border.
pub proof fn lemma_how_it_stopped<F: FnMut(VoxelCoord) -> bool>(
    is_interesting: F,
    interesting: spec_fn(VoxelCoord) -> bool,
    start_voxel: VoxelCoord,
    start: Coord,
    direction: Coord,
    min: VoxelCoord,
    max: VoxelCoord,
    hit: Raycast,
)
    requires
        ray_stops(is_interesting, start_voxel, start, direction, min, max, hit),
        decides(is_interesting, interesting),
    ensures
        hit.hit_interesting ==> interesting(hit.end_voxel),
        !hit.hit_interesting ==> hit.face_hit != FaceHit::Contained && at_limit(
            hit.end_voxel,
            hit.face_hit,
            direction,
            min,
            max,
        ),
{
    if hit.face_hit != FaceHit::Contained {
        let found = choose|k: nat| #[trigger]
            stops_after(is_interesting, start_voxel, start, direction, min, max, k, hit);
    }
}

} // verus!
