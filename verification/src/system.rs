//! Systems: processing units with a fixed required signature.
//!
//! A system declares, once and for all, the set of component type tags it
//! needs (its [`Signature`]), and keeps the set of entities whose slot
//! signature is a superset of it. The world notifies a system through
//! [`System::on_entity_added`] exactly when an entity starts matching,
//! and through [`System::on_entity_removed`] exactly when a tracked
//! entity stops matching or is destroyed, and asks it once per frame,
//! through [`System::process`], for the mutations it wants applied.
//! The contracts on the notification methods make a duplicate or missing
//! notification unverifiable: an entity can only be added while absent
//! and removed while present, and each call changes the tracked set by
//! exactly that entity.

use crate::component::Components;
use crate::entity::{Entities, Entity};
use crate::seqs::{contains_entity, lemma_push_contains};
use crate::world::Mutation;
use vstd::prelude::*;

verus! {

/// The declared interest of a system: the component type tags that must
/// all be present at an entity's slot for the entity to be in scope.
pub trait Signature {
    /// The set of required component type tags. Fixed for the lifetime
    /// of the value: every mutating method of [`System`] preserves it.
    spec fn sig_spec(&self) -> Set<u64>;

    /// Returns the required tags as a list.
    fn signature(&self) -> (s: Vec<u64>)
        ensures
            forall|t: u64| s@.contains(t) <==> self.sig_spec().contains(t),
    ;
}

/// A processing unit registered with a world. Implementors keep the set
/// of entities they were notified about; the world keeps that set equal
/// to the entities whose signature matches [`Signature::sig_spec`].
pub trait System<C>: Signature {
    /// The tag under which callers look this system up in a world; see
    /// [`crate::World::get_system`]. Fixed for the lifetime of the value.
    spec fn tag_spec(&self) -> u64;

    /// The set of entities this system has been handed and not yet had
    /// removed.
    spec fn entity_set(&self) -> Set<Entity>;

    /// Returns the lookup tag.
    fn tag(&self) -> (t: u64)
        ensures
            t == self.tag_spec(),
    ;

    /// Reports whether an added-notification for `entity` has been
    /// received and not yet undone by a removed-notification.
    fn has_entity(&self, entity: Entity) -> (r: bool)
        ensures
            r == self.entity_set().contains(entity),
    ;

    /// Notifies the system that `entity` now matches its signature,
    /// with read access to the component store so it can derive state
    /// from the newly qualifying entity's components. The world calls
    /// this exactly on the transition from non-matching to matching, so
    /// the entity cannot already be tracked.
    fn on_entity_added(&mut self, entity: Entity, components: &Components<C>)
        requires
            !old(self).entity_set().contains(entity),
            components.wf(),
        ensures
            final(self).entity_set() == old(self).entity_set().insert(entity),
            final(self).sig_spec() == old(self).sig_spec(),
            final(self).tag_spec() == old(self).tag_spec(),
    ;

    /// Notifies the system that `entity` no longer matches its
    /// signature or is being destroyed, with read access to the
    /// component store and to `removed`, a store carrying, at the
    /// entity's slot, the component values being stripped from it — so
    /// the system can read the entity's final state before it is gone.
    /// On the reconciliation path nothing is stripped at notification
    /// time, so `removed` is empty there; during deferred destruction
    /// it holds everything the entity had. The world calls this exactly
    /// when a tracked entity stops matching, and once for every tracked
    /// entity when its destruction is finalized, whatever the system's
    /// required signature; the entity must be tracked.
    fn on_entity_removed(
        &mut self,
        entity: Entity,
        components: &Components<C>,
        removed: &Components<C>,
    )
        requires
            old(self).entity_set().contains(entity),
            components.wf(),
            removed.wf(),
        ensures
            final(self).entity_set() == old(self).entity_set().remove(entity),
            final(self).sig_spec() == old(self).sig_spec(),
            final(self).tag_spec() == old(self).tag_spec(),
    ;

    /// A deferred, system-directed command, delivered during the
    /// sequential mutation phase with exclusive access to this system:
    /// the implementor may change its private state, but the lookup
    /// tag, the required signature and the tracked entities are
    /// preserved, so the world's model is unchanged. The default
    /// ignores the payload.
    fn on_command(&mut self, payload: C)
        ensures
            final(self).entity_set() == old(self).entity_set(),
            final(self).sig_spec() == old(self).sig_spec(),
            final(self).tag_spec() == old(self).tag_spec(),
    {
        let _ = payload;
    }

    /// The read-only planning phase, run once per frame for every
    /// system: inspects the world's entities and components and returns
    /// the mutations this system wants. The world applies the returned
    /// lists strictly in registration order. The default plans nothing.
    fn process(&self, entities: &Entities, components: &Components<C>) -> (pending: Vec<
        Mutation<C>,
    >) {
        let _ = entities;
        let _ = components;
        Vec::new()
    }
}

/// A ready-made system: it does the membership bookkeeping that every
/// system needs, under a caller-chosen tag and required signature,
/// plans a fixed list of mutations each frame, keeps the payloads of
/// the commands directed at it, and remembers, for each entity whose
/// removal it was notified of, the tags that were being stripped.
pub struct BasicSystem<C> {
    tag: u64,
    required: Vec<u64>,
    entities: Vec<Entity>,
    pending: Vec<Mutation<C>>,
    received: Vec<C>,
    farewells: Vec<(Entity, Vec<u64>)>,
}

impl<C: Clone> BasicSystem<C> {
    /// The mutations this system will plan on every frame.
    pub closed spec fn pending_spec(&self) -> Seq<Mutation<C>> {
        self.pending@
    }

    /// The payloads of the commands delivered so far, in delivery order.
    pub closed spec fn received_spec(&self) -> Seq<C> {
        self.received@
    }

    /// The removal notifications taken so far: entity and stripped tags.
    pub closed spec fn farewells_spec(&self) -> Seq<(Entity, Vec<u64>)> {
        self.farewells@
    }

    /// Constructs a system with the given lookup tag and required
    /// component type tags, tracking no entities and planning nothing.
    pub fn new(tag: u64, required: Vec<u64>) -> (r: Self)
        ensures
            r.tag_spec() == tag,
            r.sig_spec() == required@.to_set(),
            r.entity_set() == Set::<Entity>::empty(),
            r.pending_spec() == Seq::<Mutation<C>>::empty(),
            r.received_spec() == Seq::<C>::empty(),
            r.farewells_spec() == Seq::<(Entity, Vec<u64>)>::empty(),
    {
        let r = BasicSystem {
            tag,
            required,
            entities: Vec::new(),
            pending: Vec::new(),
            received: Vec::new(),
            farewells: Vec::new(),
        };
        proof {
            assert(r.entity_set() =~= Set::<Entity>::empty());
        }
        r
    }

    /// The payloads of the commands delivered to this system, in
    /// delivery order.
    pub fn received(&self) -> (r: &Vec<C>)
        ensures
            r@ == self.received_spec(),
    {
        &self.received
    }

    /// For each removal notification, in order: the entity and the tags
    /// that were being stripped from it at that moment (empty on a
    /// reconciliation-path removal, the entity's final signature on
    /// destruction).
    pub fn farewells(&self) -> (r: &Vec<(Entity, Vec<u64>)>)
        ensures
            r@ == self.farewells_spec(),
    {
        &self.farewells
    }

    /// Replaces the list of mutations planned on every frame.
    pub fn set_pending(&mut self, pending: Vec<Mutation<C>>)
        ensures
            final(self).pending_spec() == pending@,
            final(self).tag_spec() == old(self).tag_spec(),
            final(self).sig_spec() == old(self).sig_spec(),
            final(self).entity_set() == old(self).entity_set(),
    {
        self.pending = pending;
    }

    /// The tracked entities in the order they were added.
    pub fn entity_list(&self) -> (r: &Vec<Entity>)
        ensures
            r@.to_set() == self.entity_set(),
    {
        &self.entities
    }
}

impl<C: Clone> Signature for BasicSystem<C> {
    closed spec fn sig_spec(&self) -> Set<u64> {
        self.required@.to_set()
    }

    fn signature(&self) -> (s: Vec<u64>) {
        crate::component::copied_tags(&self.required)
    }
}

impl<C: Clone> System<C> for BasicSystem<C> {
    closed spec fn tag_spec(&self) -> u64 {
        self.tag
    }

    closed spec fn entity_set(&self) -> Set<Entity> {
        self.entities@.to_set()
    }

    fn tag(&self) -> u64 {
        self.tag
    }

    fn has_entity(&self, entity: Entity) -> bool {
        contains_entity(&self.entities, entity)
    }

    fn on_entity_added(&mut self, entity: Entity, components: &Components<C>) {
        let _ = components;
        let ghost before = self.entities@;
        self.entities.push(entity);
        proof {
            assert forall|x: Entity| #[trigger]
                self.entities@.to_set().contains(x) == before.to_set().insert(entity).contains(
                x,
            ) by {
                lemma_push_contains(before, entity, x);
            }
            assert(self.entities@.to_set() =~= before.to_set().insert(entity));
        }
    }

    fn on_entity_removed(
        &mut self,
        entity: Entity,
        components: &Components<C>,
        removed: &Components<C>,
    ) {
        let _ = components;
        let idx = #[verifier::truncate] (entity.id() as usize);
        let stripped_tags = removed.generate_signature(idx);
        self.farewells.push((entity, stripped_tags));
        let filtered = entities_without(&self.entities, entity);
        let ghost before = self.entities@;
        self.entities = filtered;
        proof {
            assert(self.entities@.to_set() =~= before.to_set().remove(entity));
        }
    }

    fn on_command(&mut self, payload: C) {
        self.received.push(payload);
    }

    fn process(&self, entities: &Entities, components: &Components<C>) -> Vec<Mutation<C>> {
        let _ = entities;
        let _ = components;
        self.pending.clone()
    }
}

/// Returns `v` with every occurrence of `e` dropped, keeping the order
/// of the rest.
fn entities_without(v: &Vec<Entity>, e: Entity) -> (r: Vec<Entity>)
    ensures
        forall|x: Entity| r@.contains(x) <==> (v@.contains(x) && x != e),
{
    let mut r: Vec<Entity> = Vec::new();
    let mut i: usize = 0;
    while i < v.len()
        invariant
            i <= v@.len(),
            forall|x: Entity| r@.contains(x) <==> (v@.take(i as int).contains(x) && x != e),
        decreases v@.len() - i,
    {
        let ghost r0 = r@;
        if v[i] != e {
            r.push(v[i]);
        }
        proof {
            crate::seqs::lemma_take_push(v@, i as int);
            assert forall|x: Entity|
                r@.contains(x) <==> (v@.take(i + 1).contains(x) && x != e) by {
                lemma_push_contains(v@.take(i as int), v@[i as int], x);
                if v@[i as int] != e {
                    lemma_push_contains(r0, v@[i as int], x);
                }
            }
        }
        i += 1;
    }
    proof {
        assert(v@.take(v@.len() as int) =~= v@);
    }
    r
}

} // verus!
