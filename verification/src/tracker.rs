//! Implements a table to allow lookups of chunks by coordinate.
use vstd::prelude::*;
use crate::storage::ChunkStorage;
use crate::{canonicalize_chunk, chunk_of, Chunk, Voxel, VoxelCoord};
use fnv::{FnvHashMap, FnvHasher};
use std::hash::BuildHasherDefault;
use std::marker::PhantomData;

verus! {

/// The hasher of the `fnv` crate; nothing of its state is read here.
#[verifier::external_type_specification]
#[verifier::external_body]
pub struct ExFnvHasher(FnvHasher);

/// The standard builder that makes each hasher by `Default`; nothing of it is read here.
#[verifier::external_type_specification]
#[verifier::external_body]
#[verifier::reject_recursive_types(H)]
pub struct ExBuildHasherDefault<H>(BuildHasherDefault<H>);

/// `HashMap::insert` on a map that hashes with FNV: `k` is mapped to `v` from now on and
/// every other key is left as it was; what `k` was mapped to before comes back.
#[verifier::external_body]
fn table_insert<V>(table: &mut FnvHashMap<u64, V>, k: u64, v: V) -> (before: Option<V>)
    ensures
        final(table)@ == old(table)@.insert(k, v),
        before == (if old(table)@.contains_key(k) {
            Some(old(table)@[k])
        } else {
            None
        }),
{
    table.insert(k, v)
}

/// `HashMap::remove` on a map that hashes with FNV: `k` is no longer mapped and every other
/// key is left as it was; what `k` was mapped to comes back.
#[verifier::external_body]
fn table_remove<V>(table: &mut FnvHashMap<u64, V>, k: u64) -> (before: Option<V>)
    ensures
        final(table)@ == old(table)@.remove(k),
        before == (if old(table)@.contains_key(k) {
            Some(old(table)@[k])
        } else {
            None
        }),
{
    table.remove(&k)
}

/// `HashMap::get` on a map that hashes with FNV: what `k` is mapped to, if it is mapped.
#[verifier::external_body]
fn table_get<V>(table: &FnvHashMap<u64, V>, k: u64) -> (found: Option<&V>)
    ensures
        found == (if table@.contains_key(k) {
            Some(&table@[k])
        } else {
            None
        }),
{
    table.get(&k)
}

/// The identity of a chunk as the host's entity system hands it out: the slot that the chunk
/// takes, and the generation that tells it from earlier tenants of that slot.
#[derive(Clone, Copy, Debug, PartialEq, Eq, Hash, Structural)]
pub struct Entity {
    pub index: u32,
    pub generation: i32,
}

impl Entity {
    pub fn new(index: u32, generation: i32) -> (e: Self)
        ensures
            e == (Entity { index, generation }),
    {
        Entity { index, generation }
    }

    /// Returns the index of the `Entity`.
    pub fn id(self) -> (i: u32)
        ensures
            i == self.index,
    {
        self.index
    }
}

/// The key under which the table holds a coordinate.
pub open spec fn coord_key(c: VoxelCoord) -> u64 {
    (((c.x + 0x8000) * 0x1_0000 + (c.y + 0x8000)) * 0x1_0000 + (c.z + 0x8000)) as u64
}

fn key_of(c: VoxelCoord) -> (k: u64)
    ensures
        k == coord_key(c),
{
    let x: u64 = (c.x as i64 + 0x8000) as u64;
    let y: u64 = (c.y as i64 + 0x8000) as u64;
    let z: u64 = (c.z as i64 + 0x8000) as u64;
    (x * 0x1_0000 + y) * 0x1_0000 + z
}

/// No two coordinates share a key.
proof fn lemma_coord_key_injective(a: VoxelCoord, b: VoxelCoord)
    requires
        coord_key(a) == coord_key(b),
    ensures
        a == b,
{
}

/// A global table of chunks, to allow easy lookup of neighbors.
/// Doesn't track chunk movement; if you reassign a chunk location nothing will happen.
pub struct ChunkTracker {
    // bidirectional mapping
    coord_to_ent: FnvHashMap<u64, Entity>,
    idx_to_coord: FnvHashMap<u64, VoxelCoord>,
}

impl ChunkTracker {
    /// Which entity is registered at each chunk coordinate.
    pub closed spec fn entities(&self) -> Map<VoxelCoord, Entity> {
        Map::new(
            |c: VoxelCoord| self.coord_to_ent@.contains_key(coord_key(c)),
            |c: VoxelCoord| self.coord_to_ent@[coord_key(c)],
        )
    }

    /// At which chunk coordinate each entity index is registered.
    pub closed spec fn coords(&self) -> Map<u32, VoxelCoord> {
        Map::new(
            |i: u32| self.idx_to_coord@.contains_key(i as u64),
            |i: u32| self.idx_to_coord@[i as u64],
        )
    }

    /// How many entries the table from coordinates to entities holds.
    pub closed spec fn coord_entries(&self) -> nat {
        self.coord_to_ent@.dom().len()
    }

    /// How many entries the table from entity indices to coordinates holds.
    pub closed spec fn index_entries(&self) -> nat {
        self.idx_to_coord@.dom().len()
    }

    /// The two tables hold the same pairs: each finds what the other holds.
    pub closed spec fn wf(&self) -> bool {
        &&& self.coord_to_ent@.dom().finite()
        &&& self.idx_to_coord@.dom().finite()
        &&& forall|k: u64| #[trigger]
            self.coord_to_ent@.contains_key(k) ==> {
                let i = self.coord_to_ent@[k].index as u64;
                self.idx_to_coord@.contains_key(i) && coord_key(self.idx_to_coord@[i]) == k
            }
        &&& forall|i: u64| #[trigger]
            self.idx_to_coord@.contains_key(i) ==> {
                let k = coord_key(self.idx_to_coord@[i]);
                self.coord_to_ent@.contains_key(k) && self.coord_to_ent@[k].index as u64 == i
            }
    }

    /// What `wf` means for the two views: an entity is found at a coordinate exactly if that
    /// coordinate is found at the entity's index.
    pub proof fn lemma_views_agree(&self)
        requires
            self.wf(),
        ensures
            in_step(self.entities(), self.coords()),
            forall|c: VoxelCoord| #[trigger]
                self.entities().contains_key(c) ==> self.coords().contains_key(
                    self.entities()[c].index,
                ) && self.coords()[self.entities()[c].index] == c,
            forall|i: u32| #[trigger]
                self.coords().contains_key(i) ==> self.entities().contains_key(self.coords()[i])
                    && self.entities()[self.coords()[i]].index == i,
    {
        assert forall|c: VoxelCoord| #[trigger] self.entities().contains_key(c) implies self.coords().contains_key(
            self.entities()[c].index,
        ) && self.coords()[self.entities()[c].index] == c by {
            let k = coord_key(c);
            assert(self.coord_to_ent@.contains_key(k));
            let i = self.coord_to_ent@[k].index;
            lemma_coord_key_injective(self.idx_to_coord@[i as u64], c);
        }
        assert forall|i: u32| #[trigger] self.coords().contains_key(i) implies self.entities().contains_key(
            self.coords()[i],
        ) && self.entities()[self.coords()[i]].index == i by {
            assert(self.idx_to_coord@.contains_key(i as u64));
        }
    }

    /// However the table was filled and emptied, its two halves hold equally many entries.
    pub proof fn lemma_equal_cardinality(&self)
        requires
            self.wf(),
        ensures
            self.coord_entries() == self.index_entries(),
            self.coord_entries() == self.entities().dom().len(),
            self.index_entries() == self.coords().dom().len(),
    {
        let keys = self.coord_to_ent@.dom();
        let ids = self.idx_to_coord@.dom();
        let c2e = self.coord_to_ent@;
        let i2c = self.idx_to_coord@;
        let to_id = |k: u64| c2e[k].index as u64;
        assert(vstd::relations::injective_on(to_id, keys)) by {
            assert forall|k1: u64, k2: u64|
                keys.contains(k1) && keys.contains(k2) && #[trigger] to_id(k1) == #[trigger] to_id(
                    k2,
                ) implies k1 == k2 by {
                assert(c2e.contains_key(k1));
                assert(c2e.contains_key(k2));
            }
        }
        assert(keys.map(to_id) =~= ids) by {
            assert forall|i: u64| ids.contains(i) implies keys.map(to_id).contains(i) by {
                assert(i2c.contains_key(i));
                let k = coord_key(i2c[i]);
                assert(keys.contains(k) && to_id(k) == i);
            }
            assert forall|i: u64| keys.map(to_id).contains(i) implies ids.contains(i) by {
                let k = choose|k: u64| keys.contains(k) && to_id(k) == i;
                assert(c2e.contains_key(k));
            }
        }
        vstd::set_lib::lemma_map_size(keys, ids, to_id);

        let coords = self.entities().dom();
        let to_key = |c: VoxelCoord| coord_key(c);
        assert(vstd::relations::injective_on(to_key, coords)) by {
            assert forall|a: VoxelCoord, b: VoxelCoord|
                coords.contains(a) && coords.contains(b) && #[trigger] to_key(a) == #[trigger] to_key(
                    b,
                ) implies a == b by {
                lemma_coord_key_injective(a, b);
            }
        }
        assert(coords.map(to_key) =~= keys) by {
            assert forall|k: u64| keys.contains(k) implies coords.map(to_key).contains(k) by {
                assert(c2e.contains_key(k));
                let c = i2c[c2e[k].index as u64];
                assert(coords.contains(c) && to_key(c) == k);
            }
        }
        Self::lemma_preimage_finite(coords, keys, to_key);
        vstd::set_lib::lemma_map_size(coords, keys, to_key);

        let slots = self.coords().dom();
        let widen = |i: u32| i as u64;
        assert(vstd::relations::injective_on(widen, slots));
        assert(slots.map(widen) =~= ids) by {
            assert forall|i: u64| ids.contains(i) implies slots.map(widen).contains(i) by {
                assert(i2c.contains_key(i));
                let k = coord_key(i2c[i]);
                assert(c2e[k].index as u64 == i);
                let j = c2e[k].index;
                assert(slots.contains(j) && widen(j) == i);
            }
        }
        Self::lemma_preimage_finite(slots, ids, widen);
        vstd::set_lib::lemma_map_size(slots, ids, widen);
    }

    /// A set that an injective function maps onto a finite set is finite.
    proof fn lemma_preimage_finite<A, B>(x: Set<A>, y: Set<B>, f: spec_fn(A) -> B)
        requires
            y.finite(),
            vstd::relations::injective_on(f, x),
            x.map(f) == y,
        ensures
            x.finite(),
        decreases y.len(),
    {
        broadcast use vstd::set_lib::group_set_properties;

        if x =~= Set::<A>::empty() {
        } else {
            let a = x.choose();
            assert(x.contains(a));
            assert(y.contains(f(a)));
            assert(x.remove(a).map(f) =~= y.remove(f(a))) by {
                assert forall|b: B| y.remove(f(a)).contains(b) implies x.remove(a).map(f).contains(
                    b,
                ) by {
                    let w = choose|w: A| x.contains(w) && f(w) == b;
                    assert(x.remove(a).contains(w));
                }
            }
            Self::lemma_preimage_finite(x.remove(a), y.remove(f(a)), f);
            assert(x =~= x.remove(a).insert(a));
        }
    }

    pub fn new() -> (t: Self)
        ensures
            t.wf(),
            t.entities() == Map::<VoxelCoord, Entity>::empty(),
            t.coords() == Map::<u32, VoxelCoord>::empty(),
    {
        let t = ChunkTracker { coord_to_ent: FnvHashMap::default(), idx_to_coord: FnvHashMap::default() };
        assert(t.entities() =~= Map::<VoxelCoord, Entity>::empty());
        assert(t.coords() =~= Map::<u32, VoxelCoord>::empty());
        t
    }

    /// Whether a chunk is registered at the chunk coordinate `coord`.
    pub fn is_registered(&self, coord: VoxelCoord) -> (b: bool)
        ensures
            b == self.entities().contains_key(coord),
    {
        table_get(&self.coord_to_ent, key_of(coord)).is_some()
    }

    /// The coordinate at which the entity with index `idx` is registered, if it is.
    pub fn coord_of(&self, idx: u32) -> (c: Option<VoxelCoord>)
        ensures
            c == (if self.coords().contains_key(idx) {
                Some(self.coords()[idx])
            } else {
                None
            }),
    {
        match table_get(&self.idx_to_coord, idx as u64) {
            Some(c) => Some(*c),
            None => None,
        }
    }

    /// Enters the chunk `ent` at the chunk coordinate `coord`. Neither may be in the table
    /// yet.
    pub fn register(&mut self, coord: VoxelCoord, ent: Entity)
        requires
            old(self).wf(),
            !old(self).entities().contains_key(coord),
            !old(self).coords().contains_key(ent.index),
        ensures
            final(self).wf(),
            final(self).entities() == old(self).entities().insert(coord, ent),
            final(self).coords() == old(self).coords().insert(ent.index, coord),
    {
        let ghost before = *self;
        table_insert(&mut self.idx_to_coord, ent.index as u64, coord);
        table_insert(&mut self.coord_to_ent, key_of(coord), ent);
        proof {
            assert(!before.idx_to_coord@.contains_key(ent.index as u64));
            assert(!before.coord_to_ent@.contains_key(coord_key(coord)));
            assert forall|k: u64| #[trigger] self.coord_to_ent@.contains_key(k) implies {
                let i = self.coord_to_ent@[k].index as u64;
                self.idx_to_coord@.contains_key(i) && coord_key(self.idx_to_coord@[i]) == k
            } by {
                if k != coord_key(coord) {
                    assert(before.coord_to_ent@.contains_key(k));
                }
            }
            assert forall|i: u64| #[trigger] self.idx_to_coord@.contains_key(i) implies {
                let k = coord_key(self.idx_to_coord@[i]);
                self.coord_to_ent@.contains_key(k) && self.coord_to_ent@[k].index as u64 == i
            } by {
                if i != ent.index as u64 {
                    assert(before.idx_to_coord@.contains_key(i));
                }
            }
            assert(self.entities() =~= before.entities().insert(coord, ent)) by {
                assert forall|c: VoxelCoord| c != coord implies coord_key(c) != coord_key(coord) by {
                    if coord_key(c) == coord_key(coord) {
                        lemma_coord_key_injective(c, coord);
                    }
                }
            }
            assert(self.coords() =~= before.coords().insert(ent.index, coord));
        }
    }

    /// Takes the chunk whose entity has index `idx` out of the table, and says where it was.
    /// It must be in the table.
    pub fn unregister(&mut self, idx: u32) -> (coord: VoxelCoord)
        requires
            old(self).wf(),
            old(self).coords().contains_key(idx),
        ensures
            final(self).wf(),
            coord == old(self).coords()[idx],
            final(self).entities() == old(self).entities().remove(coord),
            final(self).coords() == old(self).coords().remove(idx),
    {
        let ghost before = *self;
        assert(before.idx_to_coord@.contains_key(idx as u64));
        let removed = table_remove(&mut self.idx_to_coord, idx as u64);
        let coord = match removed {
            Some(c) => c,
            None => VoxelCoord { x: 0, y: 0, z: 0 },
        };
        table_remove(&mut self.coord_to_ent, key_of(coord));
        proof {
            assert forall|k: u64| #[trigger] self.coord_to_ent@.contains_key(k) implies {
                let i = self.coord_to_ent@[k].index as u64;
                self.idx_to_coord@.contains_key(i) && coord_key(self.idx_to_coord@[i]) == k
            } by {
                assert(before.coord_to_ent@.contains_key(k));
            }
            assert forall|i: u64| #[trigger] self.idx_to_coord@.contains_key(i) implies {
                let k = coord_key(self.idx_to_coord@[i]);
                self.coord_to_ent@.contains_key(k) && self.coord_to_ent@[k].index as u64 == i
            } by {
                assert(before.idx_to_coord@.contains_key(i));
                if coord_key(before.idx_to_coord@[i]) == coord_key(coord) {
                    assert(before.coord_to_ent@.contains_key(coord_key(coord)));
                }
            }
            assert(self.entities() =~= before.entities().remove(coord)) by {
                assert forall|c: VoxelCoord| c != coord implies coord_key(c) != coord_key(coord) by {
                    if coord_key(c) == coord_key(coord) {
                        lemma_coord_key_injective(c, coord);
                    }
                }
            }
            assert(self.coords() =~= before.coords().remove(idx));
        }
        coord
    }

    /// The entity of the chunk that holds the voxel at `coord`, if that chunk is registered.
    #[inline(always)]
    pub fn get_chunk_ent(&self, coord: VoxelCoord) -> (ent: Option<Entity>)
        ensures
            ent == (if self.entities().contains_key(chunk_of(coord)) {
                Some(self.entities()[chunk_of(coord)])
            } else {
                None
            }),
    {
        match table_get(&self.coord_to_ent, key_of(canonicalize_chunk(coord))) {
            Some(e) => Some(*e),
            None => None,
        }
    }

    /// The chunk that holds the voxel at `coord`, if that chunk is registered, is in
    /// `chunk_storage` and says of itself that it lies where it is registered.
    pub fn get_chunk<'a, V: Voxel>(&self, chunk_storage: &'a ChunkStorage<V>, coord: VoxelCoord) -> (c:
        Option<&'a Chunk<V>>)
        ensures
            c == match chunk_at(self, chunk_storage, coord) {
                Some(chunk) => Some(&chunk),
                None => None,
            },
    {
        match self.get_chunk_ent(coord) {
            Some(ent) => match chunk_storage.get(ent) {
                Some(chunk) => {
                    if chunk.coord == canonicalize_chunk(coord) {
                        Some(chunk)
                    } else {
                        None
                    }
                },
                None => None,
            },
            None => None,
        }
    }
}

/// The chunk that a lookup of the voxel at `coord` finds: the one registered at the coordinate
/// of the chunk that holds the voxel, as long as the storage has it and its own coordinate is
/// the one it is registered at.
pub open spec fn chunk_at<V: Voxel>(
    tracker: &ChunkTracker,
    storage: &ChunkStorage<V>,
    coord: VoxelCoord,
) -> Option<Chunk<V>> {
    let at = chunk_of(coord);
    if tracker.entities().contains_key(at) && storage.chunks().contains_key(tracker.entities()[at])
        && storage.chunks()[tracker.entities()[at]].coord == at {
        Some(storage.chunks()[tracker.entities()[at]])
    } else {
        None
    }
}

/// The entity of the chunk that a lookup of the voxel at `coord` finds: see `chunk_at`.
pub open spec fn chunk_entity_at<V: Voxel>(
    tracker: &ChunkTracker,
    storage: &ChunkStorage<V>,
    coord: VoxelCoord,
) -> Option<Entity> {
    let at = chunk_of(coord);
    if tracker.entities().contains_key(at) && storage.chunks().contains_key(tracker.entities()[at])
        && storage.chunks()[tracker.entities()[at]].coord == at {
        Some(tracker.entities()[at])
    } else {
        None
    }
}

/// The two halves of the table after the chunks with the indices in `removed` have left it,
/// in that order.
pub open spec fn after_removals(
    entities: Map<VoxelCoord, Entity>,
    coords: Map<u32, VoxelCoord>,
    removed: Seq<u32>,
) -> (Map<VoxelCoord, Entity>, Map<u32, VoxelCoord>)
    decreases removed.len(),
{
    if removed.len() == 0 {
        (entities, coords)
    } else {
        let (e, c) = after_removals(entities, coords, removed.drop_last());
        (e.remove(c[removed.last()]), c.remove(removed.last()))
    }
}

/// Whether each of the indices in `removed` is in the table when its turn comes to leave it.
pub open spec fn removals_known(
    entities: Map<VoxelCoord, Entity>,
    coords: Map<u32, VoxelCoord>,
    removed: Seq<u32>,
) -> bool
    decreases removed.len(),
{
    if removed.len() == 0 {
        true
    } else {
        &&& removals_known(entities, coords, removed.drop_last())
        &&& after_removals(entities, coords, removed.drop_last()).1.contains_key(removed.last())
    }
}

/// The two halves of the table after the chunks of the entities in `inserted` have entered
/// it, in that order, each at the coordinate that it has in `chunks`.
pub open spec fn after_insertions<V: Voxel>(
    entities: Map<VoxelCoord, Entity>,
    coords: Map<u32, VoxelCoord>,
    chunks: Map<Entity, Chunk<V>>,
    inserted: Seq<Entity>,
) -> (Map<VoxelCoord, Entity>, Map<u32, VoxelCoord>)
    decreases inserted.len(),
{
    if inserted.len() == 0 {
        (entities, coords)
    } else {
        let (e, c) = after_insertions(entities, coords, chunks, inserted.drop_last());
        let ent = inserted.last();
        (e.insert(chunks[ent].coord, ent), c.insert(ent.index, chunks[ent].coord))
    }
}

/// Whether each of the entities in `inserted` owns a chunk, and neither it nor the coordinate
/// of its chunk is in the table when its turn comes to enter it.
pub open spec fn insertions_new<V: Voxel>(
    entities: Map<VoxelCoord, Entity>,
    coords: Map<u32, VoxelCoord>,
    chunks: Map<Entity, Chunk<V>>,
    inserted: Seq<Entity>,
) -> bool
    decreases inserted.len(),
{
    if inserted.len() == 0 {
        true
    } else {
        let (e, c) = after_insertions(entities, coords, chunks, inserted.drop_last());
        let ent = inserted.last();
        &&& insertions_new(entities, coords, chunks, inserted.drop_last())
        &&& chunks.contains_key(ent)
        &&& !e.contains_key(chunks[ent].coord)
        &&& !c.contains_key(ent.index)
    }
}

/// Whether the two halves of a table hold the same pairs: each finds what the other holds.
pub open spec fn in_step(entities: Map<VoxelCoord, Entity>, coords: Map<u32, VoxelCoord>) -> bool {
    &&& forall|c: VoxelCoord| #[trigger]
        entities.contains_key(c) ==> coords.contains_key(entities[c].index)
            && coords[entities[c].index] == c
    &&& forall|i: u32| #[trigger]
        coords.contains_key(i) ==> entities.contains_key(coords[i]) && entities[coords[i]].index
            == i
}

/// A chunk that is registered is found where it was registered for as long as it is not
/// unregistered: whatever other chunks leave the table, and whatever other chunks enter it
/// after that, a lookup of its coordinate goes on to find its entity. All the while the two
/// halves of the table hold the same pairs.
pub proof fn lemma_found_until_unregistered<V: Voxel>(
    entities: Map<VoxelCoord, Entity>,
    coords: Map<u32, VoxelCoord>,
    chunks: Map<Entity, Chunk<V>>,
    removed: Seq<u32>,
    inserted: Seq<Entity>,
    coord: VoxelCoord,
    ent: Entity,
)
    requires
        in_step(entities, coords),
        entities.contains_key(coord),
        entities[coord] == ent,
        !removed.contains(ent.index),
        removals_known(entities, coords, removed),
        insertions_new(
            after_removals(entities, coords, removed).0,
            after_removals(entities, coords, removed).1,
            chunks,
            inserted,
        ),
    ensures
        ({
            let (e, c) = after_removals(entities, coords, removed);
            let (e2, c2) = after_insertions(e, c, chunks, inserted);
            &&& in_step(e, c)
            &&& e.contains_key(coord) && e[coord] == ent
            &&& in_step(e2, c2)
            &&& e2.contains_key(coord) && e2[coord] == ent
        }),
{
    lemma_removals_keep(entities, coords, removed, coord, ent);
    let (e, c) = after_removals(entities, coords, removed);
    lemma_insertions_keep(e, c, chunks, inserted, coord, ent);
}

proof fn lemma_removals_keep(
    entities: Map<VoxelCoord, Entity>,
    coords: Map<u32, VoxelCoord>,
    removed: Seq<u32>,
    coord: VoxelCoord,
    ent: Entity,
)
    requires
        in_step(entities, coords),
        entities.contains_key(coord),
        entities[coord] == ent,
        !removed.contains(ent.index),
        removals_known(entities, coords, removed),
    ensures
        in_step(after_removals(entities, coords, removed).0, after_removals(entities, coords, removed).1),
        after_removals(entities, coords, removed).0.contains_key(coord),
        after_removals(entities, coords, removed).0[coord] == ent,
    decreases removed.len(),
{
    if removed.len() > 0 {
        let rest = removed.drop_last();
        assert(!rest.contains(ent.index)) by {
            if rest.contains(ent.index) {
                let k = choose|k: int| 0 <= k < rest.len() && rest[k] == ent.index;
                assert(removed[k] == ent.index);
            }
        }
        assert(removed.last() != ent.index) by {
            assert(removed[removed.len() - 1] == removed.last());
        }
        lemma_removals_keep(entities, coords, rest, coord, ent);
        let (e, c) = after_removals(entities, coords, rest);
        let i = removed.last();
        assert(c.contains_key(i));
        assert(e.contains_key(c[i]));
        let e2 = e.remove(c[i]);
        let c2 = c.remove(i);
        assert forall|x: VoxelCoord| #[trigger] e2.contains_key(x) implies c2.contains_key(
            e2[x].index,
        ) && c2[e2[x].index] == x by {
            assert(e.contains_key(x));
        }
        assert forall|j: u32| #[trigger] c2.contains_key(j) implies e2.contains_key(c2[j])
            && e2[c2[j]].index == j by {
            assert(c.contains_key(j));
        }
    }
}

proof fn lemma_insertions_keep<V: Voxel>(
    entities: Map<VoxelCoord, Entity>,
    coords: Map<u32, VoxelCoord>,
    chunks: Map<Entity, Chunk<V>>,
    inserted: Seq<Entity>,
    coord: VoxelCoord,
    ent: Entity,
)
    requires
        in_step(entities, coords),
        entities.contains_key(coord),
        entities[coord] == ent,
        insertions_new(entities, coords, chunks, inserted),
    ensures
        in_step(
            after_insertions(entities, coords, chunks, inserted).0,
            after_insertions(entities, coords, chunks, inserted).1,
        ),
        after_insertions(entities, coords, chunks, inserted).0.contains_key(coord),
        after_insertions(entities, coords, chunks, inserted).0[coord] == ent,
    decreases inserted.len(),
{
    if inserted.len() > 0 {
        lemma_insertions_keep(entities, coords, chunks, inserted.drop_last(), coord, ent);
        let (e, c) = after_insertions(entities, coords, chunks, inserted.drop_last());
        let new = inserted.last();
        let at = chunks[new].coord;
        let e2 = e.insert(at, new);
        let c2 = c.insert(new.index, at);
        assert forall|x: VoxelCoord| #[trigger] e2.contains_key(x) implies c2.contains_key(
            e2[x].index,
        ) && c2[e2[x].index] == x by {
            if x != at {
                assert(e.contains_key(x));
            }
        }
        assert forall|j: u32| #[trigger] c2.contains_key(j) implies e2.contains_key(c2[j])
            && e2[c2[j]].index == j by {
            if j != new.index {
                assert(c.contains_key(j));
            }
        }
    }
}

/// A system that registers new chunks in the ChunkTracker.
pub struct ChunkTrackerSystem<V: Voxel> {
    _phantom: PhantomData<V>,
}

impl<V: Voxel> ChunkTrackerSystem<V> {
    pub fn new() -> Self {
        ChunkTrackerSystem { _phantom: PhantomData }
    }

    /// Brings the table up to date with what the host reports of its chunks: first the
    /// indices in `removed` leave it, then the entities in `inserted` enter it. The report
    /// must fit the table: what is removed is in it, what is inserted is not.
    pub fn run(
        &mut self,
        tracker: &mut ChunkTracker,
        chunks: &ChunkStorage<V>,
        removed: &Vec<u32>,
        inserted: &Vec<Entity>,
    )
        requires
            old(tracker).wf(),
            removals_known(old(tracker).entities(), old(tracker).coords(), removed@),
            ({
                let (e, c) = after_removals(old(tracker).entities(), old(tracker).coords(), removed@);
                insertions_new(e, c, chunks.chunks(), inserted@)
            }),
        ensures
            final(tracker).wf(),
            ({
                let (e, c) = after_removals(old(tracker).entities(), old(tracker).coords(), removed@);
                (final(tracker).entities(), final(tracker).coords()) == after_insertions(
                    e,
                    c,
                    chunks.chunks(),
                    inserted@,
                )
            }),
    {
        let ghost entities0 = tracker.entities();
        let ghost coords0 = tracker.coords();
        let mut i: usize = 0;
        while i < removed.len()
            invariant
                i <= removed.len(),
                tracker.wf(),
                removals_known(entities0, coords0, removed@),
                (tracker.entities(), tracker.coords()) == after_removals(
                    entities0,
                    coords0,
                    removed@.take(i as int),
                ),
            decreases removed.len() - i,
        {
            proof {
                lemma_removals_known_prefix(entities0, coords0, removed@, i as int + 1);
                assert(removed@.take(i as int + 1).drop_last() =~= removed@.take(i as int));
            }
            tracker.unregister(removed[i]);
            i = i + 1;
        }
        assert(removed@.take(i as int) =~= removed@);
        let ghost entities1 = tracker.entities();
        let ghost coords1 = tracker.coords();
        let mut j: usize = 0;
        while j < inserted.len()
            invariant
                j <= inserted.len(),
                tracker.wf(),
                insertions_new(entities1, coords1, chunks.chunks(), inserted@),
                (tracker.entities(), tracker.coords()) == after_insertions(
                    entities1,
                    coords1,
                    chunks.chunks(),
                    inserted@.take(j as int),
                ),
            decreases inserted.len() - j,
        {
            proof {
                lemma_insertions_new_prefix(entities1, coords1, chunks.chunks(), inserted@, j as int + 1);
                assert(inserted@.take(j as int + 1).drop_last() =~= inserted@.take(j as int));
            }
            let ent = inserted[j];
            let coord = match chunks.get(ent) {
                Some(chunk) => chunk.coord,
                None => VoxelCoord { x: 0, y: 0, z: 0 },
            };
            tracker.register(coord, ent);
            j = j + 1;
        }
        assert(inserted@.take(j as int) =~= inserted@);
    }
}

proof fn lemma_removals_known_prefix(
    entities: Map<VoxelCoord, Entity>,
    coords: Map<u32, VoxelCoord>,
    removed: Seq<u32>,
    n: int,
)
    requires
        0 <= n <= removed.len(),
        removals_known(entities, coords, removed),
    ensures
        removals_known(entities, coords, removed.take(n)),
    decreases removed.len(),
{
    if n < removed.len() {
        lemma_removals_known_prefix(entities, coords, removed.drop_last(), n);
        assert(removed.drop_last().take(n) =~= removed.take(n));
    } else {
        assert(removed.take(n) =~= removed);
    }
}

proof fn lemma_insertions_new_prefix<V: Voxel>(
    entities: Map<VoxelCoord, Entity>,
    coords: Map<u32, VoxelCoord>,
    chunks: Map<Entity, Chunk<V>>,
    inserted: Seq<Entity>,
    n: int,
)
    requires
        0 <= n <= inserted.len(),
        insertions_new(entities, coords, chunks, inserted),
    ensures
        insertions_new(entities, coords, chunks, inserted.take(n)),
    decreases inserted.len(),
{
    if n < inserted.len() {
        lemma_insertions_new_prefix(entities, coords, chunks, inserted.drop_last(), n);
        assert(inserted.drop_last().take(n) =~= inserted.take(n));
    } else {
        assert(inserted.take(n) =~= inserted);
    }
}

} // verus!
