//! A queue to apply changes to voxel chunks at one time in each tick, whoever asked for them
//! and when.
use vstd::prelude::*;
use crate::storage::ChunkStorage;
use crate::tracker::{chunk_entity_at, ChunkTracker, Entity};
use crate::{canonicalize_chunk, chunk_of, in_chunk, Voxel, VoxelCoord};
use parking_lot::lock_api::Mutex;
use parking_lot::{MutexGuard, RawMutex};
use std::marker::PhantomData;

verus! {

/// The lock of the `parking_lot` crate in its raw form; nothing of it is read here.
#[verifier::external_type_specification]
#[verifier::external_body]
pub struct ExRawMutex(RawMutex);

/// The mutex of the `lock_api` crate, as `parking_lot` hands it on; what it guards is reached
/// only under its lock.
#[verifier::external_type_specification]
#[verifier::external_body]
#[verifier::reject_recursive_types(R)]
#[verifier::reject_recursive_types(T)]
pub struct ExMutex<R, T: ?Sized>(Mutex<R, T>);

/// One change that was asked for: the voxel at `coord` is to be `voxel`.
pub struct Delta<V: Voxel> {
    pub coord: VoxelCoord,
    pub voxel: V,
}

/// The changes that were asked for and are not yet made. They can be asked for from anywhere.
#[verifier::reject_recursive_types(V)]
pub struct ChunkDeltas<V: Voxel> {
    pending: Mutex<RawMutex, Vec<Delta<V>>>,
}

/// The pending changes while they are locked: the guard of `parking_lot` for them. As long as
/// it lives, nobody else reaches them.
#[verifier::external_body]
#[verifier::reject_recursive_types(V)]
pub struct Locked<'a, V: Voxel> {
    guard: MutexGuard<'a, Vec<Delta<V>>>,
}

/// `Mutex::new`: a mutex that guards `list`.
#[verifier::external_body]
fn guarded<V: Voxel>(list: Vec<Delta<V>>) -> Mutex<RawMutex, Vec<Delta<V>>> {
    Mutex::new(list)
}

/// `Mutex::lock`: waits for the lock and hands out the guard. Nothing is promised of what it
/// guards: others may have added to it.
#[verifier::external_body]
fn lock<'a, V: Voxel>(pending: &'a Mutex<RawMutex, Vec<Delta<V>>>) -> Locked<'a, V> {
    Locked { guard: pending.lock() }
}

/// `Vec::push` through the guard: adds `delta` behind the changes that are pending.
#[verifier::external_body]
fn push_locked<V: Voxel>(locked: &mut Locked<'_, V>, delta: Delta<V>) {
    locked.guard.push(delta)
}

/// `std::mem::take` through the guard: hands out the changes that are pending, in the order in
/// which they were asked for, and leaves none pending.
#[verifier::external_body]
fn take_locked<V: Voxel>(locked: &mut Locked<'_, V>) -> Vec<Delta<V>> {
    std::mem::take(&mut *locked.guard)
}

impl<V: Voxel> ChunkDeltas<V> {
    pub fn new() -> Self {
        ChunkDeltas { pending: guarded(Vec::new()) }
    }

    /// Asks for the voxel at `coord` to be `voxel` from the next tick on.
    pub fn defer_set(&self, coord: VoxelCoord, voxel: V) {
        let mut locked = lock(&self.pending);
        push_locked(&mut locked, Delta { coord, voxel });
    }
}

/// Where in its chunk the voxel at `coord` lies.
pub open spec fn offset_of(coord: VoxelCoord) -> VoxelCoord {
    VoxelCoord {
        x: (coord.x - chunk_of(coord).x) as i16,
        y: (coord.y - chunk_of(coord).y) as i16,
        z: (coord.z - chunk_of(coord).z) as i16,
    }
}

/// Whether the change `delta` is one to the voxel at offset `p` of the chunk of `e`.
pub open spec fn writes_to<V: Voxel>(
    tracker: &ChunkTracker,
    chunks: &ChunkStorage<V>,
    delta: Delta<V>,
    e: Entity,
    p: VoxelCoord,
) -> bool {
    chunk_entity_at(tracker, chunks, delta.coord) == Some(e) && offset_of(delta.coord) == p
}

/// What the last of the changes `batch` to the voxel at offset `p` of the chunk of `e` makes
/// of that voxel, if there is such a change.
pub open spec fn last_write<V: Voxel>(
    tracker: &ChunkTracker,
    chunks: &ChunkStorage<V>,
    batch: Seq<Delta<V>>,
    e: Entity,
    p: VoxelCoord,
) -> Option<V>
    decreases batch.len(),
{
    if batch.len() == 0 {
        None
    } else if writes_to(tracker, chunks, batch.last(), e, p) {
        Some(batch.last().voxel)
    } else {
        last_write(tracker, chunks, batch.drop_last(), e, p)
    }
}

/// The changes that hit no chunk that a lookup finds.
pub open spec fn misses<V: Voxel>(tracker: &ChunkTracker, chunks: &ChunkStorage<V>) -> spec_fn(
    Delta<V>,
) -> bool {
    |delta: Delta<V>| chunk_entity_at(tracker, chunks, delta.coord) is None
}

/// Whether the chunks `after` are the chunks `before` with the changes `batch` made to them:
/// the same chunks in the same places, and each voxel what the last change to it made of it,
/// or what it was where there was no change to it.
pub open spec fn applied<V: Voxel>(
    tracker: &ChunkTracker,
    before: &ChunkStorage<V>,
    after: &ChunkStorage<V>,
    batch: Seq<Delta<V>>,
) -> bool {
    &&& after.chunks().dom() == before.chunks().dom()
    &&& forall|e: Entity| #[trigger]
        before.chunks().contains_key(e) ==> after.chunks()[e].coord == before.chunks()[e].coord
    &&& forall|e: Entity, p: VoxelCoord|
        before.chunks().contains_key(e) && in_chunk(p) ==> #[trigger] after.chunks()[e].voxel_at(p)
            == match last_write(tracker, before, batch, e, p) {
            Some(voxel) => voxel,
            None => before.chunks()[e].voxel_at(p),
        }
}

/// Of several changes to one voxel, the last is the one that stays: where the `i`th change of
/// a batch is the last to its voxel, its value is what the batch makes of that voxel.
pub proof fn lemma_last_write_wins<V: Voxel>(
    tracker: &ChunkTracker,
    chunks: &ChunkStorage<V>,
    batch: Seq<Delta<V>>,
    i: int,
    e: Entity,
)
    requires
        0 <= i < batch.len(),
        chunk_entity_at(tracker, chunks, batch[i].coord) == Some(e),
        forall|j: int|
            i < j < batch.len() ==> !writes_to(
                tracker,
                chunks,
                #[trigger] batch[j],
                e,
                offset_of(batch[i].coord),
            ),
    ensures
        last_write(tracker, chunks, batch, e, offset_of(batch[i].coord)) == Some(batch[i].voxel),
    decreases batch.len(),
{
    if i < batch.len() - 1 {
        assert(!writes_to(tracker, chunks, batch[batch.len() - 1], e, offset_of(batch[i].coord)));
        lemma_last_write_wins(tracker, chunks, batch.drop_last(), i, e);
    }
}

/// What came of making a batch of changes.
pub struct Applied<V: Voxel> {
    /// The changes that were not made, because no lookup found a chunk for them.
    pub skipped: Vec<Delta<V>>,
    /// For each change that was made, in their order, the index of the entity whose chunk it
    /// was made to: these chunks have changed and want meshing.
    pub modified: Vec<u32>,
}

/// For each of the changes `batch` that hits a chunk, the index of the entity of that chunk.
pub open spec fn hits<V: Voxel>(
    tracker: &ChunkTracker,
    chunks: &ChunkStorage<V>,
    batch: Seq<Delta<V>>,
) -> Seq<u32>
    decreases batch.len(),
{
    if batch.len() == 0 {
        Seq::empty()
    } else {
        let before = hits(tracker, chunks, batch.drop_last());
        match chunk_entity_at(tracker, chunks, batch.last().coord) {
            Some(e) => before.push(e.index),
            None => before,
        }
    }
}

/// Makes the changes `batch`, in their order. A change to a voxel whose chunk no lookup
/// finds is not made; those changes come back, and with them the chunks that have changed.
pub fn apply_deltas<V: Voxel>(
    batch: &Vec<Delta<V>>,
    tracker: &ChunkTracker,
    chunks: &mut ChunkStorage<V>,
) -> (done: Applied<V>)
    ensures
        applied(tracker, old(chunks), final(chunks), batch@),
        done.skipped@ == batch@.filter(misses(tracker, old(chunks))),
        done.modified@ == hits(tracker, old(chunks), batch@),
{
    let mut skipped: Vec<Delta<V>> = Vec::new();
    let mut modified: Vec<u32> = Vec::new();
    let ghost before = *chunks;
    let mut i: usize = 0;
    proof {
        assert(batch@.take(0).filter(misses(tracker, &before)) =~= Seq::<Delta<V>>::empty()) by {
            reveal(Seq::filter);
        }
    }
    while i < batch.len()
        invariant
            i <= batch.len(),
            applied(tracker, &before, chunks, batch@.take(i as int)),
            skipped@ == batch@.take(i as int).filter(misses(tracker, &before)),
            modified@ == hits(tracker, &before, batch@.take(i as int)),
        decreases batch.len() - i,
    {
        let coord = batch[i].coord;
        let voxel = batch[i].voxel;
        let canon = canonicalize_chunk(coord);
        let ghost so_far = *chunks;
        proof {
            assert(batch@.take(i + 1) =~= batch@.take(i as int).push(batch@[i as int]));
            batch@.take(i as int).lemma_filter_push(batch@[i as int], misses(tracker, &before));
            assert(batch@.take(i + 1).drop_last() =~= batch@.take(i as int));
            lemma_same_lookups(tracker, &before, chunks, coord);
        }
        let found = match tracker.get_chunk_ent(coord) {
            Some(ent) => match chunks.get(ent) {
                Some(chunk) => if chunk.coord == canon {
                    Some(ent)
                } else {
                    None
                },
                None => None,
            },
            None => None,
        };
        match found {
            Some(ent) => {
                let index = VoxelCoord { x: coord.x - canon.x, y: coord.y - canon.y, z: coord.z - canon.z };
                chunks.set_voxel(ent, index, voxel);
                modified.push(ent.index);
                proof {
                    assert forall|e: Entity, p: VoxelCoord|
                        before.chunks().contains_key(e) && in_chunk(p) implies #[trigger] chunks.chunks()[e].voxel_at(
                        p,
                    ) == match last_write(tracker, &before, batch@.take(i + 1), e, p) {
                        Some(voxel) => voxel,
                        None => before.chunks()[e].voxel_at(p),
                    } by {
                        assert(so_far.chunks()[e].voxel_at(p) == match last_write(
                            tracker,
                            &before,
                            batch@.take(i as int),
                            e,
                            p,
                        ) {
                            Some(voxel) => voxel,
                            None => before.chunks()[e].voxel_at(p),
                        });
                    }
                }
            },
            None => {
                skipped.push(Delta { coord, voxel });
            },
        }
        i = i + 1;
    }
    assert(batch@.take(i as int) =~= batch@);
    Applied { skipped, modified }
}

/// Changes to voxels move no chunk: a lookup finds after them what it found before.
proof fn lemma_same_lookups<V: Voxel>(
    tracker: &ChunkTracker,
    before: &ChunkStorage<V>,
    after: &ChunkStorage<V>,
    coord: VoxelCoord,
)
    requires
        after.chunks().dom() == before.chunks().dom(),
        forall|e: Entity| #[trigger]
            before.chunks().contains_key(e) ==> after.chunks()[e].coord == before.chunks()[e].coord,
    ensures
        chunk_entity_at(tracker, after, coord) == chunk_entity_at(tracker, before, coord),
{
    let at = chunk_of(coord);
    if tracker.entities().contains_key(at) {
        let e = tracker.entities()[at];
        assert(after.chunks().dom().contains(e) == before.chunks().dom().contains(e));
    }
}

/// Applies the changes that were asked for, once in each tick.
pub struct ChunkDeltaSystem<V: Voxel> {
    _phantom: PhantomData<V>,
}

impl<V: Voxel> ChunkDeltaSystem<V> {
    pub fn new() -> Self {
        ChunkDeltaSystem { _phantom: PhantomData }
    }

    /// Makes the changes that are pending, under their lock from first to last, so that no
    /// one sees some of them made and others not. Which changes were pending is for the lock
    /// to say; whatever they were, the chunks are left as those changes, made in their order,
    /// leave them, and the changes that hit no chunk come back, with the chunks that have
    /// changed.
    pub fn run(&mut self, tracker: &ChunkTracker, deltas: &ChunkDeltas<V>, chunks: &mut ChunkStorage<V>) -> (done:
        Applied<V>)
        ensures
            exists|batch: Seq<Delta<V>>| #[trigger]
                applied(tracker, old(chunks), final(chunks), batch) && done.skipped@ == batch.filter(
                    misses(tracker, old(chunks)),
                ) && done.modified@ == hits(tracker, old(chunks), batch),
    {
        let mut locked = lock(&deltas.pending);
        let batch = take_locked(&mut locked);
        apply_deltas(&batch, tracker, chunks)
    }
}

} // verus!
