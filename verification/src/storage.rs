//! The chunks that the host keeps, each under the entity that owns it.
//!
//! The index, the mesher, the raycaster and the deferred edits own no chunk: they are handed
//! a storage and look each chunk up in it, operation by operation.
use vstd::prelude::*;
use crate::tracker::Entity;
use crate::{in_chunk, Chunk, Voxel, VoxelCoord};

verus! {

/// A chunk in its slot, with the entity that put it there.
pub struct Stored<V: Voxel> {
    pub owner: Entity,
    pub chunk: Chunk<V>,
}

/// Chunks by entity. A slot holds the chunk of at most one entity at a time: a later tenant
/// of the slot, with another generation, does not find the chunk of an earlier one.
pub struct ChunkStorage<V: Voxel> {
    slots: Vec<Option<Stored<V>>>,
}

impl<V: Voxel> ChunkStorage<V> {
    /// The chunk that each entity owns.
    pub closed spec fn chunks(&self) -> Map<Entity, Chunk<V>> {
        Map::new(
            |e: Entity|
                e.index < self.slots@.len() && self.slots@[e.index as int] is Some
                    && self.slots@[e.index as int]->0.owner == e,
            |e: Entity| self.slots@[e.index as int]->0.chunk,
        )
    }

    /// The entity that holds the slot `index`, if one does.
    pub closed spec fn owner(&self, index: u32) -> Option<Entity> {
        if index < self.slots@.len() && self.slots@[index as int] is Some
            && self.slots@[index as int]->0.owner.index == index {
            Some(self.slots@[index as int]->0.owner)
        } else {
            None
        }
    }

    /// The slot of an entity that owns a chunk is held by that entity, and a slot holds the
    /// chunk of the entity that holds it.
    pub proof fn lemma_owner(&self, index: u32)
        ensures
            match self.owner(index) {
                Some(e) => e.index == index && self.chunks().contains_key(e),
                None => forall|e: Entity| e.index == index ==> !self.chunks().contains_key(e),
            },
            forall|e: Entity|
                self.chunks().contains_key(e) && e.index == index ==> self.owner(index) == Some(e),
    {
    }

    /// The entity that holds the slot `index`, if one does.
    pub fn owner_of(&self, index: u32) -> (e: Option<Entity>)
        ensures
            e == self.owner(index),
    {
        let i = index as usize;
        if i < self.slots.len() {
            match &self.slots[i] {
                Some(stored) => if stored.owner.index == index {
                    Some(stored.owner)
                } else {
                    None
                },
                None => None,
            }
        } else {
            None
        }
    }

    pub fn new() -> (s: Self)
        ensures
            s.chunks() == Map::<Entity, Chunk<V>>::empty(),
    {
        let s = ChunkStorage { slots: Vec::new() };
        assert(s.chunks() =~= Map::<Entity, Chunk<V>>::empty());
        s
    }

    /// Whether `ent` owns a chunk.
    pub fn contains(&self, ent: Entity) -> (b: bool)
        ensures
            b == self.chunks().contains_key(ent),
    {
        self.get(ent).is_some()
    }

    /// The chunk that `ent` owns, if it owns one.
    pub fn get(&self, ent: Entity) -> (c: Option<&Chunk<V>>)
        ensures
            c == (if self.chunks().contains_key(ent) {
                Some(&self.chunks()[ent])
            } else {
                None
            }),
    {
        let i = ent.index as usize;
        if i < self.slots.len() {
            match &self.slots[i] {
                Some(stored) => {
                    if stored.owner == ent {
                        Some(&stored.chunk)
                    } else {
                        None
                    }
                },
                None => None,
            }
        } else {
            None
        }
    }

    /// Gives `ent` the chunk `chunk`. Whatever lay in the slot of `ent` before is gone; every
    /// other slot is left as it was.
    pub fn insert(&mut self, ent: Entity, chunk: Chunk<V>)
        ensures
            final(self).chunks().contains_key(ent),
            final(self).chunks()[ent] == chunk,
            forall|e: Entity|
                e.index != ent.index ==> (#[trigger] final(self).chunks().contains_key(e) == old(self).chunks().contains_key(e)),
            forall|e: Entity|
                e.index != ent.index && old(self).chunks().contains_key(e) ==> #[trigger] final(self).chunks()[e] == old(self).chunks()[e],
            forall|e: Entity|
                e.index == ent.index && e != ent ==> !(#[trigger] final(self).chunks().contains_key(
                    e,
                )),
    {
        let i = ent.index as usize;
        while self.slots.len() <= i
            invariant
                i == ent.index,
                old(self).slots@.len() <= self.slots@.len(),
                forall|j: int| 0 <= j < old(self).slots@.len() ==> self.slots@[j] == old(self).slots@[j],
                forall|j: int| old(self).slots@.len() <= j < self.slots@.len() ==> self.slots@[j] is None,
            decreases i + 1 - self.slots.len(),
        {
            self.slots.push(None);
        }
        self.slots[i] = Some(Stored { owner: ent, chunk });
    }

    /// Takes the chunk of `ent` out of the storage. Every other chunk stays.
    pub fn remove(&mut self, ent: Entity) -> (c: Option<Chunk<V>>)
        ensures
            c == (if old(self).chunks().contains_key(ent) {
                Some(old(self).chunks()[ent])
            } else {
                None
            }),
            final(self).chunks() == old(self).chunks().remove(ent),
    {
        let i = ent.index as usize;
        if i < self.slots.len() {
            let owned = match &self.slots[i] {
                Some(stored) => stored.owner == ent,
                None => false,
            };
            if owned {
                let mut taken: Option<Stored<V>> = None;
                std::mem::swap(&mut self.slots[i], &mut taken);
                assert(self.chunks() =~= old(self).chunks().remove(ent));
                return match taken {
                    Some(stored) => Some(stored.chunk),
                    None => None,
                };
            }
        }
        assert(self.chunks() =~= old(self).chunks().remove(ent));
        None
    }

    /// Writes `voxel` into the chunk of `ent` at offset `index`. The rest of that chunk and
    /// every other chunk stay as they were.
    ///
    /// This is for the changes that are made batch by batch, which tell which chunks they have
    /// changed: there is no other way to write to a chunk that is in the storage.
    pub(crate) fn set_voxel(&mut self, ent: Entity, index: VoxelCoord, voxel: V)
        requires
            old(self).chunks().contains_key(ent),
            in_chunk(index),
        ensures
            final(self).chunks().dom() == old(self).chunks().dom(),
            final(self).chunks()[ent].coord == old(self).chunks()[ent].coord,
            final(self).chunks()[ent].voxel_at(index) == voxel,
            forall|p: VoxelCoord|
                in_chunk(p) && p != index ==> #[trigger] final(self).chunks()[ent].voxel_at(p)
                    == old(self).chunks()[ent].voxel_at(p),
            forall|e: Entity|
                e != ent && old(self).chunks().contains_key(e) ==> #[trigger] final(self).chunks()[e]
                    == old(self).chunks()[e],
    {
        let i = ent.index as usize;
        let mut taken: Option<Stored<V>> = None;
        std::mem::swap(&mut self.slots[i], &mut taken);
        let mut stored = taken.unwrap();
        stored.chunk.set(index, voxel);
        self.slots[i] = Some(stored);
        assert(self.chunks().dom() =~= old(self).chunks().dom());
    }
}

} // verus!
