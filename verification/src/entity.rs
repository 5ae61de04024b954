//! Entity handles and their allocator.
//!
//! An [`Entity`] is a lightweight handle made of a slot index and a
//! generation counter. [`Entities`] owns the mapping from slot index to
//! current generation: a handle is valid exactly while its generation
//! equals the stored one, so destroying an entity invalidates every
//! outstanding copy of its handle while the slot itself is kept for reuse.

use crate::seqs::contains_tag;
use vstd::prelude::*;

verus! {

/// The slot index part of an entity handle.
pub type EntityId = u64;

/// The generation counter part of an entity handle.
pub type EntityKey = u64;

/// A copyable handle naming one entity, opaque to callers: only the
/// allocator constructs handles, so every handle a caller holds was
/// issued by [`Entities::create_entity`]. Two handles denote the same
/// entity only if both the slot index and the generation counter agree;
/// see [`lemma_entity_eq`].
#[derive(Copy, Clone, PartialEq, Eq, Structural, Debug)]
pub struct Entity {
    id: EntityId,
    key: EntityKey,
}

impl Entity {
    /// The slot index of the handle.
    pub closed spec fn id_spec(&self) -> EntityId {
        self.id
    }

    /// The generation counter of the handle.
    pub closed spec fn key_spec(&self) -> EntityKey {
        self.key
    }

    /// Returns the slot index of the handle. Indices alone cannot tell a
    /// live handle from a stale one; see [`Entities::is_valid`].
    pub fn id(&self) -> (r: EntityId)
        ensures
            r == self.id_spec(),
    {
        self.id
    }

    /// Returns the generation counter of the handle.
    pub fn key(&self) -> (r: EntityKey)
        ensures
            r == self.key_spec(),
    {
        self.key
    }
}

/// Handles are nothing but their slot index and generation: two handles
/// are equal exactly when both agree.
pub proof fn lemma_entity_eq(a: Entity, b: Entity)
    ensures
        (a == b) <==> (a.id_spec() == b.id_spec() && a.key_spec() == b.key_spec()),
{
}

/// The handle with the given slot index and generation, at the
/// specification level only: no executable code outside the allocator
/// can build a handle.
pub closed spec fn entity_of(id: EntityId, key: EntityKey) -> Entity {
    Entity { id, key }
}

/// What [`entity_of`] denotes.
pub broadcast proof fn lemma_entity_of(id: EntityId, key: EntityKey)
    ensures
        (#[trigger] entity_of(id, key)).id_spec() == id,
        entity_of(id, key).key_spec() == key,
{
}

/// The mathematical state of an allocator: the generation stored per slot,
/// and the stack of slot indices free for reuse.
pub struct EntitiesView {
    /// Generation currently stored for each slot, indexed by slot.
    pub keys: Seq<u64>,
    /// Slot indices awaiting reuse, in stack order (reused from the back).
    pub free: Seq<u64>,
}

/// Every free slot index points inside the slot array, whose length is
/// bounded by what a vector can hold.
pub open spec fn entities_wf(v: EntitiesView) -> bool {
    &&& v.keys.len() <= usize::MAX
    &&& forall|j: int| #![trigger v.free[j]] 0 <= j < v.free.len() ==> (v.free[j] as int) < v.keys.len()
}

/// A handle is valid when its slot exists and holds the handle's generation.
pub open spec fn view_valid(v: EntitiesView, e: Entity) -> bool {
    e.id_spec() < v.keys.len() && v.keys[e.id_spec() as int] == e.key_spec()
}

/// A handle is live when it is valid and its slot is not awaiting
/// reuse: among handle values, exactly those the allocator has issued
/// and not yet had destroyed.
pub open spec fn view_live(v: EntitiesView, e: Entity) -> bool {
    view_valid(v, e) && !v.free.contains(e.id_spec())
}

/// The generation that a slot receives when the entity in it is destroyed.
/// Generations wrap around after `u64::MAX` destructions of one slot; a
/// handle could then compare valid again. Guarding against that is left
/// open here, as reaching the wrap requires 2^64 reuses of a single slot.
pub open spec fn next_key(k: u64) -> u64 {
    if k == u64::MAX {
        0
    } else {
        (k + 1) as u64
    }
}

/// The allocator state and handle produced by creating one entity:
/// the most recently freed slot is reused under its current generation,
/// and only when no free slot exists is a fresh slot appended.
pub open spec fn create_model(v: EntitiesView) -> (EntitiesView, Entity) {
    if v.free.len() > 0 {
        (
            EntitiesView { keys: v.keys, free: v.free.drop_last() },
            entity_of(v.free.last(), v.keys[v.free.last() as int]),
        )
    } else {
        (
            EntitiesView { keys: v.keys.push(1u64), free: v.free },
            entity_of(v.keys.len() as u64, 1u64),
        )
    }
}

/// The allocator state after destroying a handle: a no-op for a stale
/// handle, otherwise the slot's generation advances and the slot is
/// pushed onto the free stack.
pub open spec fn destroy_model(v: EntitiesView, e: Entity) -> EntitiesView {
    if view_valid(v, e) {
        EntitiesView {
            keys: v.keys.update(e.id_spec() as int, next_key(v.keys[e.id_spec() as int])),
            free: v.free.push(e.id_spec()),
        }
    } else {
        v
    }
}

/// The allocator: issues handles, invalidates them on destruction, and
/// reuses slots by generation rather than by compacting storage.
pub struct Entities {
    free_entity_ids: Vec<EntityId>,
    entities: Vec<EntityKey>,
}

impl View for Entities {
    type V = EntitiesView;

    closed spec fn view(&self) -> EntitiesView {
        EntitiesView { keys: self.entities@, free: self.free_entity_ids@ }
    }
}

impl Entities {
    /// The allocator invariant; see [`entities_wf`].
    pub open spec fn wf(&self) -> bool {
        entities_wf(self@)
    }

    /// A handle is valid when its slot holds the handle's generation.
    pub open spec fn spec_valid(&self, entity: Entity) -> bool {
        view_valid(self@, entity)
    }

    /// Constructs an empty allocator; nothing is allocated until the
    /// first entity is created.
    pub fn new() -> (r: Self)
        ensures
            r.wf(),
            r@.keys == Seq::<u64>::empty(),
            r@.free == Seq::<u64>::empty(),
    {
        Entities { free_entity_ids: Vec::new(), entities: Vec::new() }
    }

    /// Constructs an empty allocator whose internal vectors have room for
    /// `capacity` entities before reallocating.
    pub fn with_capacity(capacity: usize) -> (r: Self)
        ensures
            r.wf(),
            r@.keys == Seq::<u64>::empty(),
            r@.free == Seq::<u64>::empty(),
    {
        Entities {
            free_entity_ids: Vec::with_capacity(capacity),
            entities: Vec::with_capacity(capacity),
        }
    }

    /// Picks the slot index and generation for the next entity, reusing
    /// the most recently freed slot when one exists.
    fn generate_entity_id(&mut self) -> (r: (EntityId, EntityKey))
        requires
            old(self).wf(),
        ensures
            final(self).wf(),
            final(self)@ == create_model(old(self)@).0,
            (Entity { id: r.0, key: r.1 }) == create_model(old(self)@).1,
    {
        let n = self.entities.len();
        let free_id = self.free_entity_ids.pop();

        match free_id {
            None => {
                self.entities.push(1);
                proof {
                    assert(self.entities.len() == self.entities@.len());
                    assert(self@.keys.len() <= usize::MAX);
                    assert(self@.keys == old(self)@.keys.push(1u64));
                    assert(entities_wf(self@));
                }
                (n as EntityId, 1)
            }
            Some(free_id) => {
                proof {
                    assert(old(self)@.free.len() > 0);
                    assert(free_id == old(self)@.free[old(self)@.free.len() - 1]);
                    assert((free_id as int) < old(self)@.keys.len());
                }
                let key = self.entities[free_id as usize];
                (free_id, key)
            }
        }
    }

    /// Creates a new entity and returns its handle. A reused slot keeps
    /// the generation it advanced to when it was freed; a fresh slot
    /// starts at generation 1.
    pub fn create_entity(&mut self) -> (r: Entity)
        requires
            old(self).wf(),
        ensures
            final(self).wf(),
            final(self)@ == create_model(old(self)@).0,
            r == create_model(old(self)@).1,
            final(self).spec_valid(r),
    {
        let (id, key) = self.generate_entity_id();
        Entity { id, key }
    }

    /// Destroys an entity: a no-op for a stale handle, otherwise the
    /// slot's generation advances (invalidating every outstanding handle
    /// to it) and the slot is queued for reuse.
    pub fn destroy_entity(&mut self, entity: Entity)
        requires
            old(self).wf(),
        ensures
            final(self).wf(),
            final(self)@ == destroy_model(old(self)@, entity),
            old(self).spec_valid(entity) ==> !final(self).spec_valid(entity),
    {
        if self.is_valid(entity) {
            self.free_entity_ids.push(entity.id);
            let idx = entity.id as usize;
            let k = self.entities[idx];
            let nk = if k == u64::MAX {
                0
            } else {
                k + 1
            };
            self.entities[idx] = nk;
            proof {
                assert(self@.keys.len() == old(self)@.keys.len());
                assert(self@.free == old(self)@.free.push(entity.id));
                assert forall|j: int|
                    0 <= j < self@.free.len() implies (self@.free[j] as int)
                    < self@.keys.len() by {
                    if j < old(self)@.free.len() {
                        assert(self@.free[j] == old(self)@.free[j]);
                    } else {
                        assert(self@.free[j] == entity.id);
                    }
                }
                assert(entities_wf(self@));
            }
        }
    }

    /// Reports whether the handle is still valid: true exactly when the
    /// slot exists and holds the handle's generation.
    pub fn is_valid(&self, entity: Entity) -> (r: bool)
        ensures
            r == self.spec_valid(entity),
    {
        if entity.id < self.entities.len() as u64 {
            self.entities[entity.id as usize] == entity.key
        } else {
            false
        }
    }

    /// Returns an iterator over the valid entities, borrowing the
    /// allocator.
    pub fn iter(&self) -> (it: EntitiesIterator<'_>)
        ensures
            it.src() == self@,
            it.pos() == 0,
    {
        EntitiesIterator { entities: self, index: 0 }
    }

    /// Returns an iterator over the valid entities, consuming the
    /// allocator.
    pub fn into_iter(self) -> (it: EntitiesIntoIterator)
        ensures
            it.src() == self@,
            it.pos() == 0,
    {
        EntitiesIntoIterator { entities: self, index: 0 }
    }
}

/// Destroying a valid entity leaves its handle permanently invalid, and
/// creating the next entity reuses the freed slot under a strictly greater
/// generation, so the new handle never compares equal to the old one.
/// (Stated below the generation wrap; see [`next_key`].)
pub proof fn lemma_slot_reuse(v: EntitiesView, e: Entity)
    requires
        entities_wf(v),
        view_valid(v, e),
        e.key_spec() < u64::MAX,
    ensures
        !view_valid(destroy_model(v, e), e),
        create_model(destroy_model(v, e)).1.id_spec() == e.id_spec(),
        create_model(destroy_model(v, e)).1.key_spec() == e.key_spec() + 1,
        create_model(destroy_model(v, e)).1 != e,
        view_valid(create_model(destroy_model(v, e)).0, create_model(destroy_model(v, e)).1),
{
    let v2 = destroy_model(v, e);
    assert(v2.free.last() == e.id_spec());
    assert(v2.keys[e.id_spec() as int] == next_key(e.key_spec()));
    assert(create_model(v2).1.key_spec() == e.key_spec() + 1);
}

/// True when slot `i` holds a live entity: the slot exists and is not on
/// the free stack.
pub open spec fn live_at(v: EntitiesView, i: int) -> bool {
    0 <= i < v.keys.len() && !v.free.contains(i as u64)
}

/// An iterator over the live entities of a borrowed allocator, in slot
/// order. Slots on the free stack are skipped.
pub struct EntitiesIterator<'a> {
    entities: &'a Entities,
    index: usize,
}

impl<'a> EntitiesIterator<'a> {
    /// The allocator state being iterated.
    pub closed spec fn src(&self) -> EntitiesView {
        self.entities@
    }

    /// The next slot index to look at.
    pub closed spec fn pos(&self) -> int {
        self.index as int
    }

    /// Returns the first live entity at or after the current position,
    /// or `None` when no live slot remains.
    pub fn next(&mut self) -> (r: Option<Entity>)
        ensures
            final(self).src() == old(self).src(),
            match r {
                Some(e) => {
                    &&& old(self).pos() <= e.id_spec()
                    &&& live_at(old(self).src(), e.id_spec() as int)
                    &&& e.key_spec() == old(self).src().keys[e.id_spec() as int]
                    &&& forall|j: int|
                        old(self).pos() <= j < e.id_spec() ==> !live_at(old(self).src(), j)
                    &&& final(self).pos() == e.id_spec() + 1
                },
                None => {
                    &&& forall|j: int|
                        old(self).pos() <= j < old(self).src().keys.len() ==> !live_at(
                            old(self).src(),
                            j,
                        )
                    &&& final(self).pos() >= old(self).src().keys.len()
                },
            },
    {
        loop
            invariant
                self.src() == old(self).src(),
                old(self).pos() <= self.pos(),
                forall|j: int| old(self).pos() <= j < self.pos() ==> !live_at(old(self).src(), j),
            decreases self.src().keys.len() - self.pos(),
        {
            let idx = self.index;
            if idx < self.entities.entities.len() {
                self.index = idx + 1;
                if !contains_tag(&self.entities.free_entity_ids, idx as u64) {
                    return Some(Entity { id: idx as u64, key: self.entities.entities[idx] });
                }
            } else {
                return None;
            }
        }
    }
}

/// An iterator over the live entities of an owned allocator, in slot
/// order. Slots on the free stack are skipped.
pub struct EntitiesIntoIterator {
    entities: Entities,
    index: usize,
}

impl EntitiesIntoIterator {
    /// The allocator state being iterated.
    pub closed spec fn src(&self) -> EntitiesView {
        self.entities@
    }

    /// The next slot index to look at.
    pub closed spec fn pos(&self) -> int {
        self.index as int
    }

    /// Returns the first live entity at or after the current position,
    /// or `None` when no live slot remains.
    pub fn next(&mut self) -> (r: Option<Entity>)
        ensures
            final(self).src() == old(self).src(),
            match r {
                Some(e) => {
                    &&& old(self).pos() <= e.id_spec()
                    &&& live_at(old(self).src(), e.id_spec() as int)
                    &&& e.key_spec() == old(self).src().keys[e.id_spec() as int]
                    &&& forall|j: int|
                        old(self).pos() <= j < e.id_spec() ==> !live_at(old(self).src(), j)
                    &&& final(self).pos() == e.id_spec() + 1
                },
                None => {
                    &&& forall|j: int|
                        old(self).pos() <= j < old(self).src().keys.len() ==> !live_at(
                            old(self).src(),
                            j,
                        )
                    &&& final(self).pos() >= old(self).src().keys.len()
                },
            },
    {
        loop
            invariant
                self.src() == old(self).src(),
                old(self).pos() <= self.pos(),
                forall|j: int| old(self).pos() <= j < self.pos() ==> !live_at(old(self).src(), j),
            decreases self.src().keys.len() - self.pos(),
        {
            let idx = self.index;
            if idx < self.entities.entities.len() {
                self.index = idx + 1;
                if !contains_tag(&self.entities.free_entity_ids, idx as u64) {
                    return Some(Entity { id: idx as u64, key: self.entities.entities[idx] });
                }
            } else {
                return None;
            }
        }
    }
}

} // verus!
