//! The world: entities, components and systems under one orchestrator.
//!
//! A [`World`] owns the entity allocator, the component store and an
//! ordered list of systems fixed at construction time by a
//! [`WorldBuilder`]. Mutations to an entity's components take effect on
//! system membership only when [`World::apply`] reconciles that entity
//! against every system, in registration order. A frame is run by
//! [`World::process`]: every system plans read-only, the planned
//! [`Mutation`]s are applied strictly in registration order, and entities
//! scheduled by [`World::destroy_entity`] are then destroyed for good.
//!
//! The whole orchestrator is specified against a mathematical model,
//! [`WorldModel`]: every operation's contract says exactly how the model
//! changes, and the frame loop's contract is a fold of
//! [`mutation_step`] over the planned mutations in registration order,
//! which pins the application order down to a deterministic function.

use crate::component::{grown, Components};
use crate::entity::{
    create_model, destroy_model, entities_wf, lemma_entity_eq, view_live, view_valid, Entities,
    EntitiesView, Entity,
};
use crate::seqs::{contains_entity, contains_tag, lemma_take_push};
use crate::system::{Signature, System};
use vstd::prelude::*;

verus! {

broadcast use crate::entity::lemma_entity_of;

/// One deferred change to a world, produced by a system's planning phase
/// and applied later with exclusive access. A mutation whose entity is
/// no longer valid when it is applied is skipped.
#[derive(Clone, Debug)]
pub enum Mutation<C> {
    /// Create a fresh entity.
    CreateEntity,
    /// Schedule an entity for destruction at the end of the frame, if it
    /// is valid and not already scheduled.
    DestroyEntity(Entity),
    /// Add (or overwrite) the component under the tag at the entity.
    AddComponent(Entity, u64, C),
    /// Remove the component under the tag at the entity.
    RemoveComponent(Entity, u64),
    /// Remove every component of the entity.
    RemoveAllComponents(Entity),
    /// Reconcile the entity's system membership.
    Apply(Entity),
    /// Deliver the payload to the first system carrying the tag,
    /// through [`crate::System::on_command`]. Only that system's
    /// private state may change, so the world's model is untouched.
    SystemCommand(u64, C),
}

/// The mathematical state of one registered system: its lookup tag, its
/// required signature and the set of entities it tracks.
pub struct SystemModel {
    /// The tag under which the system is found.
    pub tag: u64,
    /// The component type tags the system requires.
    pub required: Set<u64>,
    /// The entities the system has been notified about.
    pub entities: Set<Entity>,
}

/// The mathematical state of a whole world.
pub struct WorldModel<C> {
    /// The allocator state: per-slot generations and the free stack.
    pub entities: EntitiesView,
    /// Per slot, the map from component type tag to component value.
    pub slots: Seq<Map<u64, C>>,
    /// The registered systems, in registration order.
    pub systems: Seq<SystemModel>,
    /// The entities scheduled for destruction, in scheduling order.
    pub to_destroy: Seq<Entity>,
}

/// The components stored at slot `i` of `slots`; the empty map beyond
/// the stored range.
pub open spec fn slot_at<C>(slots: Seq<Map<u64, C>>, i: int) -> Map<u64, C> {
    if 0 <= i < slots.len() {
        slots[i]
    } else {
        Map::empty()
    }
}

/// The signature of entity `e` in model `m`: the set of tags present at
/// its slot.
pub open spec fn sig_of<C>(m: WorldModel<C>, e: Entity) -> Set<u64> {
    slot_at(m.slots, e.id_spec() as int).dom()
}

/// The matching rule: an entity matches a system exactly when the
/// system's required tags are a subset of the entity's signature.
pub open spec fn matches_sig(required: Set<u64>, have: Set<u64>) -> bool {
    required.subset_of(have)
}

/// One system's state after the world reconciled entity `e` whose
/// signature is `have`: tracked when matching, not tracked otherwise.
pub open spec fn apply_sys(s: SystemModel, e: Entity, have: Set<u64>) -> SystemModel {
    if matches_sig(s.required, have) {
        SystemModel { tag: s.tag, required: s.required, entities: s.entities.insert(e) }
    } else {
        SystemModel { tag: s.tag, required: s.required, entities: s.entities.remove(e) }
    }
}

/// The world after reconciling entity `e` against every system.
pub open spec fn apply_model<C>(m: WorldModel<C>, e: Entity) -> WorldModel<C> {
    WorldModel {
        entities: m.entities,
        slots: m.slots,
        systems: Seq::new(m.systems.len(), |k: int| apply_sys(m.systems[k], e, sig_of(m, e))),
        to_destroy: m.to_destroy,
    }
}

/// The scheduled destructions are distinct and still-valid handles.
pub open spec fn queue_ok<C>(m: WorldModel<C>) -> bool {
    &&& m.to_destroy.no_duplicates()
    &&& forall|k: int|
        0 <= k < m.to_destroy.len() ==> view_valid(m.entities, #[trigger] m.to_destroy[k])
}

/// The world after one deferred mutation. Mutations on stale handles,
/// and destruction of an already-scheduled entity, are skipped.
pub open spec fn mutation_step<C>(m: WorldModel<C>, cmd: Mutation<C>) -> WorldModel<C> {
    match cmd {
        Mutation::CreateEntity => WorldModel {
            entities: create_model(m.entities).0,
            slots: m.slots,
            systems: m.systems,
            to_destroy: m.to_destroy,
        },
        Mutation::DestroyEntity(e) => {
            if view_valid(m.entities, e) && !m.to_destroy.contains(e) {
                WorldModel {
                    entities: m.entities,
                    slots: m.slots,
                    systems: m.systems,
                    to_destroy: m.to_destroy.push(e),
                }
            } else {
                m
            }
        },
        Mutation::AddComponent(e, t, v) => {
            if view_valid(m.entities, e) {
                WorldModel {
                    entities: m.entities,
                    slots: grown(m.slots, e.id_spec() + 1).update(
                        e.id_spec() as int,
                        slot_at(m.slots, e.id_spec() as int).insert(t, v),
                    ),
                    systems: m.systems,
                    to_destroy: m.to_destroy,
                }
            } else {
                m
            }
        },
        Mutation::RemoveComponent(e, t) => {
            if view_valid(m.entities, e) && 0 <= (e.id_spec() as int) < m.slots.len() {
                WorldModel {
                    entities: m.entities,
                    slots: m.slots.update(
                        e.id_spec() as int,
                        slot_at(m.slots, e.id_spec() as int).remove(t),
                    ),
                    systems: m.systems,
                    to_destroy: m.to_destroy,
                }
            } else {
                m
            }
        },
        Mutation::RemoveAllComponents(e) => {
            if view_valid(m.entities, e) && 0 <= (e.id_spec() as int) < m.slots.len() {
                WorldModel {
                    entities: m.entities,
                    slots: m.slots.update(e.id_spec() as int, Map::<u64, C>::empty()),
                    systems: m.systems,
                    to_destroy: m.to_destroy,
                }
            } else {
                m
            }
        },
        Mutation::Apply(e) => {
            if view_valid(m.entities, e) {
                apply_model(m, e)
            } else {
                m
            }
        },
        Mutation::SystemCommand(tag, payload) => m,
    }
}

/// The world after a list of deferred mutations, applied front to back.
pub open spec fn mutation_run<C>(m: WorldModel<C>, cmds: Seq<Mutation<C>>) -> WorldModel<C>
    decreases cmds.len(),
{
    if cmds.len() == 0 {
        m
    } else {
        mutation_run(mutation_step(m, cmds[0]), cmds.drop_first())
    }
}

/// The world after one scheduled destruction is finalized: the entity's
/// components are stripped, every system that had it drops it — the
/// removal is unconditional, not by the matching rule, so even a system
/// whose required signature is empty lets the dying entity go — and the
/// allocator frees its slot.
pub open spec fn destroy_one<C>(m: WorldModel<C>, e: Entity) -> WorldModel<C> {
    WorldModel {
        entities: destroy_model(m.entities, e),
        slots: (if 0 <= (e.id_spec() as int) < m.slots.len() {
            m.slots.update(e.id_spec() as int, Map::<u64, C>::empty())
        } else {
            m.slots
        }),
        systems: Seq::new(
            m.systems.len(),
            |k: int|
                SystemModel {
                    tag: m.systems[k].tag,
                    required: m.systems[k].required,
                    entities: m.systems[k].entities.remove(e),
                },
        ),
        to_destroy: m.to_destroy,
    }
}

/// The world after finalizing the queued destructions `q`, front to
/// back.
pub open spec fn drain_queue<C>(m: WorldModel<C>, q: Seq<Entity>) -> WorldModel<C>
    decreases q.len(),
{
    if q.len() == 0 {
        m
    } else {
        drain_queue(destroy_one(m, q[0]), q.drop_first())
    }
}

/// The end of a frame: every scheduled destruction is finalized in
/// scheduling order and the queue is emptied.
pub open spec fn finalize_frame<C>(m: WorldModel<C>) -> WorldModel<C> {
    let d = drain_queue(m, m.to_destroy);
    WorldModel {
        entities: d.entities,
        slots: d.slots,
        systems: d.systems,
        to_destroy: Seq::empty(),
    }
}

/// The models of a list of systems, in the same order.
pub open spec fn systems_model<C, S: System<C>>(ss: Seq<S>) -> Seq<SystemModel> {
    Seq::new(
        ss.len(),
        |k: int|
            SystemModel {
                tag: ss[k].tag_spec(),
                required: ss[k].sig_spec(),
                entities: ss[k].entity_set(),
            },
    )
}

/// Reports whether the system's required signature is a subset of the
/// given entity signature (a list of tags).
pub fn match_entity_signature<S: Signature>(system: &S, signature: &Vec<u64>) -> (r: bool)
    ensures
        r == system.sig_spec().subset_of(signature@.to_set()),
{
    let required = system.signature();
    let mut i: usize = 0;
    while i < required.len()
        invariant
            i <= required@.len(),
            forall|t: u64| required@.contains(t) <==> system.sig_spec().contains(t),
            forall|j: int| 0 <= j < i ==> signature@.contains(#[trigger] required@[j]),
        decreases required@.len() - i,
    {
        if !contains_tag(signature, required[i]) {
            proof {
                assert(required@.contains(required@[i as int]));
                assert(system.sig_spec().contains(required@[i as int]));
                assert(!signature@.to_set().contains(required@[i as int]));
            }
            return false;
        }
        i += 1;
    }
    proof {
        assert forall|t: u64|
            system.sig_spec().contains(t) implies signature@.to_set().contains(t) by {
            assert(required@.contains(t));
            let j = choose|j: int| 0 <= j < required@.len() && (#[trigger] required@[j]) == t;
            assert(signature@.contains(required@[j]));
        }
    }
    true
}

/// Collects systems for a world under construction. Consuming the
/// builder fixes the system list permanently: a built world can never
/// gain or lose a system, only entities and components change at run
/// time.
pub struct WorldBuilder<S> {
    systems: Vec<S>,
}

impl<S> WorldBuilder<S> {
    /// The systems collected so far, in registration order.
    pub closed spec fn systems_spec(&self) -> Seq<S> {
        self.systems@
    }

    /// Constructs a builder with no systems.
    pub fn new() -> (r: Self)
        ensures
            r.systems_spec() == Seq::<S>::empty(),
    {
        WorldBuilder { systems: Vec::new() }
    }

    /// Registers one more system; systems run, and their mutations are
    /// applied, in the order they were registered.
    pub fn with_system(self, system: S) -> (r: Self)
        ensures
            r.systems_spec() == self.systems_spec().push(system),
    {
        let mut this = self;
        this.systems.push(system);
        this
    }

    /// Consumes the builder and returns a world with no entities and no
    /// components.
    pub fn build<C>(self) -> (w: World<C, S>) where S: System<C>
        ensures
            w.wf(),
            w.systems_spec() == self.systems_spec(),
            w@.entities.keys == Seq::<u64>::empty(),
            w@.entities.free == Seq::<u64>::empty(),
            w@.slots == Seq::<Map<u64, C>>::empty(),
            w@.systems == systems_model::<C, S>(self.systems_spec()),
            w@.to_destroy == Seq::<Entity>::empty(),
    {
        World {
            entities: Entities::new(),
            components: Components::new(),
            systems: self.systems,
            to_destroy: Vec::new(),
        }
    }

    /// Consumes the builder and returns a world whose entity and
    /// component storage is pre-allocated for `capacity` entities.
    pub fn build_with_capacity<C>(self, capacity: usize) -> (w: World<C, S>) where S: System<C>
        ensures
            w.wf(),
            w.systems_spec() == self.systems_spec(),
            w@.entities.keys == Seq::<u64>::empty(),
            w@.entities.free == Seq::<u64>::empty(),
            w@.slots == Seq::<Map<u64, C>>::empty(),
            w@.systems == systems_model::<C, S>(self.systems_spec()),
            w@.to_destroy == Seq::<Entity>::empty(),
    {
        World {
            entities: Entities::with_capacity(capacity),
            components: Components::with_capacity(capacity),
            systems: self.systems,
            to_destroy: Vec::new(),
        }
    }
}

/// The orchestrator: owns the entity allocator, the component store and
/// the ordered, immutable list of systems, plus the queue of deferred
/// destructions.
pub struct World<C, S> {
    entities: Entities,
    components: Components<C>,
    systems: Vec<S>,
    to_destroy: Vec<Entity>,
}

impl<C, S: System<C>> View for World<C, S> {
    type V = WorldModel<C>;

    closed spec fn view(&self) -> WorldModel<C> {
        WorldModel {
            entities: self.entities@,
            slots: self.components@,
            systems: systems_model::<C, S>(self.systems@),
            to_destroy: self.to_destroy@,
        }
    }
}

impl<C, S: System<C>> World<C, S> {
    /// The registered systems, in registration order.
    pub closed spec fn systems_spec(&self) -> Seq<S> {
        self.systems@
    }

    /// The world invariant: the allocator and the component store are
    /// well formed.
    pub closed spec fn wf(&self) -> bool {
        &&& entities_wf(self.entities@)
        &&& self.components.wf()
    }

    /// The model always reflects the systems list.
    pub proof fn lemma_view_systems(&self)
        ensures
            self@.systems == systems_model::<C, S>(self.systems_spec()),
    {
    }

    /// Read access to the entity allocator, as handed to the systems'
    /// planning phase.
    pub fn entities(&self) -> (r: &Entities)
        ensures
            r@ == self@.entities,
    {
        &self.entities
    }

    /// Read access to the component store, as handed to the systems'
    /// planning phase.
    pub fn components(&self) -> (r: &Components<C>)
        ensures
            r@ == self@.slots,
    {
        &self.components
    }

    /// Read access to the registered systems, in registration order.
    pub fn systems(&self) -> (r: &Vec<S>)
        ensures
            r@ == self.systems_spec(),
    {
        &self.systems
    }

    /// Creates a new entity; see [`Entities::create_entity`].
    pub fn create_entity(&mut self) -> (r: Entity)
        requires
            old(self).wf(),
        ensures
            final(self).wf(),
            final(self)@.entities == create_model(old(self)@.entities).0,
            r == create_model(old(self)@.entities).1,
            view_valid(final(self)@.entities, r),
            final(self)@.slots == old(self)@.slots,
            final(self)@.systems == old(self)@.systems,
            final(self)@.to_destroy == old(self)@.to_destroy,
            final(self).systems_spec() == old(self).systems_spec(),
            forall|e2: Entity|
                view_valid(old(self)@.entities, e2) ==> view_valid(final(self)@.entities, e2),
    {
        let r = self.entities.create_entity();
        proof {
            let v0 = old(self)@.entities;
            assert forall|e2: Entity|
                view_valid(v0, e2) implies view_valid(self@.entities, e2) by {
                if v0.free.len() == 0 {
                    assert(self@.entities.keys[e2.id_spec() as int] == v0.keys[e2.id_spec() as int]);
                }
            }
        }
        r
    }

    /// Schedules an entity for destruction at the end of the frame. The
    /// entity stays valid, and its components stay readable, until
    /// [`World::process`] finalizes the destruction. The handle must be
    /// valid and not already scheduled.
    pub fn destroy_entity(&mut self, entity: Entity)
        requires
            old(self).wf(),
            view_valid(old(self)@.entities, entity),
            !old(self)@.to_destroy.contains(entity),
        ensures
            final(self).wf(),
            final(self)@.entities == old(self)@.entities,
            final(self)@.slots == old(self)@.slots,
            final(self)@.systems == old(self)@.systems,
            final(self)@.to_destroy == old(self)@.to_destroy.push(entity),
            final(self).systems_spec() == old(self).systems_spec(),
    {
        self.to_destroy.push(entity);
    }

    /// Reports whether the handle is still valid. Entities scheduled for
    /// destruction remain valid until the end of the frame.
    pub fn is_valid(&self, entity: Entity) -> (r: bool)
        ensures
            r == view_valid(self@.entities, entity),
    {
        self.entities.is_valid(entity)
    }

    /// Adds (or overwrites) `component` under `type_tag` at the entity's
    /// slot, and returns a mutable reference to the stored value. Call
    /// [`World::apply`] afterwards to refresh system membership. The
    /// handle must be valid.
    pub fn add_component(&mut self, entity: Entity, type_tag: u64, component: C) -> (r: &mut C)
        requires
            old(self).wf(),
            view_valid(old(self)@.entities, entity),
        ensures
            final(self).wf(),
            *r == component,
            final(self)@.entities == old(self)@.entities,
            final(self)@.systems == old(self)@.systems,
            final(self)@.to_destroy == old(self)@.to_destroy,
            final(self).systems_spec() == old(self).systems_spec(),
            final(self)@.slots.len() == (if old(self)@.slots.len() >= entity.id_spec() + 1 {
                old(self)@.slots.len() as int
            } else {
                entity.id_spec() + 1
            }),
            slot_at(final(self)@.slots, entity.id_spec() as int) == slot_at(
                old(self)@.slots,
                entity.id_spec() as int,
            ).insert(type_tag, *final(r)),
            forall|j: int|
                j != entity.id_spec() ==> slot_at(final(self)@.slots, j) == slot_at(old(self)@.slots, j),
    {
        let index = entity.id() as usize;
        self.components.add_component(index, type_tag, component)
    }

    /// Returns the component stored under `type_tag` at the entity's
    /// slot, or `None` when the entity has no such component. The handle
    /// must be valid; a scheduled entity's components remain readable
    /// until the end of the frame.
    pub fn get_component(&self, entity: Entity, type_tag: u64) -> (r: Option<&C>)
        requires
            self.wf(),
            view_valid(self@.entities, entity),
        ensures
            match r {
                Some(c) => slot_at(self@.slots, entity.id_spec() as int).contains_key(type_tag) && *c
                    == slot_at(self@.slots, entity.id_spec() as int)[type_tag],
                None => !slot_at(self@.slots, entity.id_spec() as int).contains_key(type_tag),
            },
    {
        let index = entity.id() as usize;
        self.components.get_component(index, type_tag)
    }

    /// Returns a mutable reference to the component stored under
    /// `type_tag` at the entity's slot, or `None` when the entity has no
    /// such component. The handle must be valid.
    pub fn get_component_mut(&mut self, entity: Entity, type_tag: u64) -> (r: Option<&mut C>)
        requires
            old(self).wf(),
            view_valid(old(self)@.entities, entity),
        ensures
            final(self).wf(),
            final(self)@.entities == old(self)@.entities,
            final(self)@.systems == old(self)@.systems,
            final(self)@.to_destroy == old(self)@.to_destroy,
            final(self).systems_spec() == old(self).systems_spec(),
            final(self)@.slots.len() == old(self)@.slots.len(),
            match r {
                Some(c) => {
                    &&& slot_at(old(self)@.slots, entity.id_spec() as int).contains_key(type_tag)
                    &&& *c == slot_at(old(self)@.slots, entity.id_spec() as int)[type_tag]
                    &&& slot_at(final(self)@.slots, entity.id_spec() as int) == slot_at(
                        old(self)@.slots,
                        entity.id_spec() as int,
                    ).insert(type_tag, *final(c))
                    &&& forall|j: int|
                        j != entity.id_spec() ==> slot_at(final(self)@.slots, j) == slot_at(
                            old(self)@.slots,
                            j,
                        )
                },
                None => {
                    &&& !slot_at(old(self)@.slots, entity.id_spec() as int).contains_key(type_tag)
                    &&& final(self)@.slots == old(self)@.slots
                },
            },
    {
        let index = entity.id() as usize;
        self.components.get_component_mut(index, type_tag)
    }

    /// Removes and returns the component stored under `type_tag` at the
    /// entity's slot; `None` when there was none, which is not an error.
    /// Call [`World::apply`] afterwards to refresh system membership.
    /// The handle must be valid.
    pub fn remove_component(&mut self, entity: Entity, type_tag: u64) -> (r: Option<C>)
        requires
            old(self).wf(),
            view_valid(old(self)@.entities, entity),
        ensures
            final(self).wf(),
            final(self)@.entities == old(self)@.entities,
            final(self)@.systems == old(self)@.systems,
            final(self)@.to_destroy == old(self)@.to_destroy,
            final(self).systems_spec() == old(self).systems_spec(),
            final(self)@.slots == (if 0 <= (entity.id_spec() as int) < old(self)@.slots.len() {
                old(self)@.slots.update(
                    entity.id_spec() as int,
                    slot_at(old(self)@.slots, entity.id_spec() as int).remove(type_tag),
                )
            } else {
                old(self)@.slots
            }),
            match r {
                Some(c) => slot_at(old(self)@.slots, entity.id_spec() as int).contains_key(type_tag)
                    && c == slot_at(old(self)@.slots, entity.id_spec() as int)[type_tag],
                None => !slot_at(old(self)@.slots, entity.id_spec() as int).contains_key(type_tag),
            },
    {
        let index = entity.id() as usize;
        self.components.remove_component(index, type_tag)
    }

    /// Removes every component of the entity and empties its signature.
    /// Call [`World::apply`] afterwards to refresh system membership.
    /// The handle must be valid.
    pub fn remove_all_components(&mut self, entity: Entity)
        requires
            old(self).wf(),
            view_valid(old(self)@.entities, entity),
        ensures
            final(self).wf(),
            final(self)@.entities == old(self)@.entities,
            final(self)@.systems == old(self)@.systems,
            final(self)@.to_destroy == old(self)@.to_destroy,
            final(self).systems_spec() == old(self).systems_spec(),
            final(self)@.slots == (if 0 <= (entity.id_spec() as int) < old(self)@.slots.len() {
                old(self)@.slots.update(entity.id_spec() as int, Map::<u64, C>::empty())
            } else {
                old(self)@.slots
            }),
    {
        let index = entity.id() as usize;
        let _removed = self.components.remove_all_components(index);
    }

    /// Returns the first registered system whose lookup tag is `tag`, or
    /// `None` when no system carries it.
    pub fn get_system(&self, tag: u64) -> (r: Option<&S>)
        ensures
            match r {
                Some(s) => exists|k: int|
                    0 <= k < self.systems_spec().len() && (#[trigger] self.systems_spec()[k]).tag_spec() == tag && *s == self.systems_spec()[k] && (forall|j: int|
                        0 <= j < k ==> (#[trigger] self.systems_spec()[j]).tag_spec() != tag),
                None => forall|k: int|
                    0 <= k < self.systems_spec().len() ==> (#[trigger] self.systems_spec()[k]).tag_spec() != tag,
            },
    {
        let idx = self.find_system(tag);
        if idx < self.systems.len() {
            Some(&self.systems[idx])
        } else {
            None
        }
    }

    /// The index of the first system whose lookup tag is `tag`, or the
    /// number of systems when none carries it.
    fn find_system(&self, tag: u64) -> (idx: usize)
        ensures
            idx <= self.systems_spec().len(),
            idx < self.systems_spec().len() ==> (self.systems_spec()[idx as int].tag_spec() == tag
                && (forall|j: int|
                0 <= j < idx ==> (#[trigger] self.systems_spec()[j]).tag_spec() != tag)),
            idx == self.systems_spec().len() ==> (forall|k: int|
                0 <= k < self.systems_spec().len() ==> (#[trigger] self.systems_spec()[
                    k
                ]).tag_spec() != tag),
    {
        let n = self.systems.len();
        let mut i: usize = 0;
        while i < n
            invariant
                n == self.systems_spec().len(),
                i <= n,
                forall|j: int|
                    0 <= j < i ==> (#[trigger] self.systems_spec()[j]).tag_spec() != tag,
            decreases n - i,
        {
            let s = &self.systems[i];
            if s.tag() == tag {
                return i;
            }
            i += 1;
        }
        n
    }

    /// Returns a mutable reference to the first registered system whose
    /// lookup tag is `tag`, or `None` when no system carries it.
    pub fn get_system_mut(&mut self, tag: u64) -> (r: Option<&mut S>)
        ensures
            final(self)@.entities == old(self)@.entities,
            final(self)@.slots == old(self)@.slots,
            final(self)@.to_destroy == old(self)@.to_destroy,
            final(self).wf() == old(self).wf(),
            match r {
                Some(s) => exists|k: int|
                    0 <= k < old(self).systems_spec().len() && (#[trigger] old(
                        self,
                    ).systems_spec()[k]).tag_spec() == tag && *s == old(self).systems_spec()[k]
                        && final(self).systems_spec() == old(self).systems_spec().update(
                        k,
                        *final(s),
                    ) && (forall|j: int|
                        0 <= j < k ==> (#[trigger] old(self).systems_spec()[j]).tag_spec() != tag),
                None => final(self).systems_spec() == old(self).systems_spec() && (forall|k: int|
                    0 <= k < old(self).systems_spec().len() ==> (#[trigger] old(
                        self,
                    ).systems_spec()[k]).tag_spec() != tag),
            },
    {
        let found = self.find_system(tag);
        if found < self.systems.len() {
            Some(&mut self.systems[found])
        } else {
            None
        }
    }

    /// Reconciles the entity's system membership with its current
    /// signature: each system, visited in registration order, is told to
    /// add the entity exactly when it matches and was absent, and to
    /// remove it exactly when it no longer matches and was present. Must
    /// be called after component changes; the handle must be valid.
    pub fn apply(&mut self, entity: Entity)
        requires
            old(self).wf(),
            view_valid(old(self)@.entities, entity),
        ensures
            final(self).wf(),
            final(self)@ == apply_model(old(self)@, entity),
            final(self)@.entities == old(self)@.entities,
            final(self)@.slots == old(self)@.slots,
            final(self)@.to_destroy == old(self)@.to_destroy,
            forall|k: int|
                0 <= k < final(self)@.systems.len() ==> ((#[trigger] final(self)@.systems[k]).entities.contains(entity) == matches_sig(
                    old(self)@.systems[k].required,
                    sig_of(old(self)@, entity),
                )),
    {
        let ghost m0 = self@;
        let index = entity.id() as usize;
        let signature = self.components.generate_signature(index);
        proof {
            assert(signature@.to_set() =~= sig_of(m0, entity));
        }
        let removed: Components<C> = Components::new();
        let n = self.systems.len();
        let mut k: usize = 0;
        while k < n
            invariant
                old(self).wf(),
                self.wf(),
                n == self.systems@.len(),
                n == m0.systems.len(),
                k <= n,
                self.entities@ == old(self).entities@,
                self.components@ == old(self).components@,
                self.to_destroy@ == old(self).to_destroy@,
                m0 == old(self)@,
                removed.wf(),
                signature@.to_set() == sig_of(m0, entity),
                forall|j: int| k <= j < n ==> (#[trigger] self@.systems[j]) == m0.systems[j],
                forall|j: int|
                    0 <= j < k ==> (#[trigger] self@.systems[j]) == apply_sys(
                        m0.systems[j],
                        entity,
                        sig_of(m0, entity),
                    ),
            decreases n - k,
        {
            let matched = match_entity_signature(&self.systems[k], &signature);
            let tracked_already = self.systems[k].has_entity(entity);
            let ghost pre = self@.systems;
            proof {
                assert(pre[k as int] == m0.systems[k as int]);
            }
            if matched {
                if !tracked_already {
                    let s = &mut self.systems[k];
                    s.on_entity_added(entity, &self.components);
                }
            } else {
                if tracked_already {
                    let s = &mut self.systems[k];
                    s.on_entity_removed(entity, &self.components, &removed);
                }
            }
            proof {
                let have = sig_of(m0, entity);
                assert(self@.systems[k as int].entities =~= apply_sys(
                    m0.systems[k as int],
                    entity,
                    have,
                ).entities);
                assert(self@.systems[k as int] == apply_sys(m0.systems[k as int], entity, have));
                assert forall|j: int|
                    0 <= j < n && j != k implies (#[trigger] self@.systems[j]) == pre[j] by {}
            }
            k += 1;
        }
        proof {
            assert(self@.systems =~= apply_model(m0, entity).systems);
            assert(self@ == apply_model(m0, entity));
        }
    }

    /// Applies one deferred mutation, with the stale-handle guards of
    /// [`mutation_step`]: a mutation naming an entity that is no longer
    /// valid, or a destruction that is already scheduled, is skipped.
    pub fn run_mutation(&mut self, cmd: Mutation<C>)
        requires
            old(self).wf(),
        ensures
            final(self).wf(),
            final(self)@ == mutation_step(old(self)@, cmd),
    {
        match cmd {
            Mutation::CreateEntity => {
                let _created = self.create_entity();
            },
            Mutation::DestroyEntity(e) => {
                if self.is_valid(e) && !contains_entity(&self.to_destroy, e) {
                    self.destroy_entity(e);
                }
            },
            Mutation::AddComponent(e, t, v) => {
                let ghost m = self@;
                if self.is_valid(e) {
                    let _stored = self.add_component(e, t, v);
                    proof {
                        let rhs = grown(m.slots, e.id_spec() + 1).update(
                            e.id_spec() as int,
                            slot_at(m.slots, e.id_spec() as int).insert(t, v),
                        );
                        assert forall|j: int|
                            0 <= j < self@.slots.len() implies self@.slots[j] == rhs[j] by {
                            if j != e.id_spec() {
                                assert(slot_at(self@.slots, j) == slot_at(m.slots, j));
                            } else {
                                assert(slot_at(self@.slots, j) == slot_at(m.slots, j).insert(t, v));
                            }
                        }
                        assert(self@.slots =~= rhs);
                    }
                }
            },
            Mutation::RemoveComponent(e, t) => {
                if self.is_valid(e) {
                    let _removed = self.remove_component(e, t);
                }
            },
            Mutation::RemoveAllComponents(e) => {
                if self.is_valid(e) {
                    self.remove_all_components(e);
                }
            },
            Mutation::Apply(e) => {
                if self.is_valid(e) {
                    self.apply(e);
                }
            },
            Mutation::SystemCommand(tag, payload) => {
                let idx = self.find_system(tag);
                if idx < self.systems.len() {
                    let ghost pre = self@.systems;
                    let s = &mut self.systems[idx];
                    s.on_command(payload);
                    proof {
                        assert forall|j: int|
                            0 <= j < pre.len() implies self@.systems[j] == pre[j] by {}
                        assert(self@.systems =~= old(self)@.systems);
                        assert(self@ == old(self)@);
                    }
                }
            },
        }
    }

    /// Runs every system's read-only planning phase, in registration
    /// order, and returns one list of planned mutations per system.
    pub fn collect_pending(&self) -> (pending: Vec<Vec<Mutation<C>>>)
        ensures
            pending@.len() == self.systems_spec().len(),
    {
        let n = self.systems.len();
        let mut pending: Vec<Vec<Mutation<C>>> = Vec::new();
        let mut i: usize = 0;
        while i < n
            invariant
                i <= n,
                n == self.systems_spec().len(),
                pending@.len() == i,
            decreases n - i,
        {
            let s = &self.systems[i];
            let p = s.process(&self.entities, &self.components);
            pending.push(p);
            i += 1;
        }
        pending
    }

    /// Applies the planned mutations strictly in registration order
    /// (every mutation of an earlier system before any mutation of a
    /// later one), then finalizes the scheduled destructions. The
    /// resulting world is the deterministic fold of [`mutation_step`]
    /// over the flattened lists, finished by [`finalize_frame`]: the
    /// application order is fixed by the registration order alone.
    pub fn run_pending(&mut self, pending: Vec<Vec<Mutation<C>>>)
        requires
            old(self).wf(),
            queue_ok(old(self)@),
        ensures
            final(self).wf(),
            final(self)@ == finalize_frame(
                mutation_run(old(self)@, flatten_pending(pending@)),
            ),
            final(self)@.to_destroy == Seq::<Entity>::empty(),
    {
        let ghost p0 = pending@;
        let mut pending = pending;
        let ghost mut done: Seq<Mutation<C>> = Seq::empty();
        proof {
            assert(done + flatten_pending(pending@) =~= flatten_pending(p0));
        }
        while pending.len() > 0
            invariant
                self.wf(),
                queue_ok(self@),
                self@ == mutation_run(old(self)@, done),
                done + flatten_pending(pending@) == flatten_pending(p0),
            decreases pending@.len(),
        {
            let ghost pen_before = pending@;
            let mut cmds = pending.remove(0);
            proof {
                assert(pending@ =~= pen_before.drop_first());
            }
            let ghost rest = flatten_pending(pending@);
            proof {
                assert(done + (cmds@ + rest) =~= flatten_pending(p0));
            }
            while cmds.len() > 0
                invariant
                    self.wf(),
                    queue_ok(self@),
                    self@ == mutation_run(old(self)@, done),
                    done + (cmds@ + rest) == flatten_pending(p0),
                decreases cmds@.len(),
            {
                let ghost cmds_before = cmds@;
                let cmd = cmds.remove(0);
                let ghost m_before = self@;
                self.run_mutation(cmd);
                proof {
                    lemma_step_queue_ok(m_before, cmd);
                    lemma_mutation_run_snoc(old(self)@, done, cmd);
                    done = done.push(cmd);
                    assert(cmds@ =~= cmds_before.drop_first());
                    assert(done + (cmds@ + rest) =~= flatten_pending(p0));
                }
            }
            proof {
                assert(cmds@ + rest =~= rest);
                assert(done + rest == flatten_pending(p0));
            }
        }
        proof {
            assert(flatten_pending(pending@) =~= Seq::<Mutation<C>>::empty());
            assert(done =~= flatten_pending(p0));
        }
        self.destroy_scheduled_entities();
    }

    /// Runs one full frame: every system plans read-only, the planned
    /// mutations are applied strictly in registration order, and the
    /// scheduled destructions are finalized. The resulting world is a
    /// deterministic function of the starting world and the planned
    /// mutations.
    pub fn process(&mut self)
        requires
            old(self).wf(),
            queue_ok(old(self)@),
        ensures
            final(self).wf(),
            final(self)@.to_destroy == Seq::<Entity>::empty(),
            exists|cmds: Seq<Mutation<C>>|
                final(self)@ == finalize_frame(mutation_run(old(self)@, cmds)),
    {
        let pending = self.collect_pending();
        let ghost cmds = flatten_pending(pending@);
        self.run_pending(pending);
        proof {
            assert(self@ == finalize_frame(mutation_run(old(self)@, cmds)));
        }
    }

    /// Tears the world down at the end of its life: every still-live
    /// entity is scheduled for destruction (entities already scheduled
    /// stay scheduled once) and the whole queue is finalized, so every
    /// system receives its removed-notification, with the entity's
    /// components, before storage is dropped. Afterwards no previously
    /// live handle is valid, no system tracks one, their slots hold no
    /// components, and the destruction queue is empty.
    pub fn tear_down(&mut self)
        requires
            old(self).wf(),
            queue_ok(old(self)@),
        ensures
            final(self).wf(),
            final(self)@.to_destroy == Seq::<Entity>::empty(),
            final(self)@.systems.len() == old(self)@.systems.len(),
            forall|e: Entity|
                #![trigger view_live(old(self)@.entities, e)]
                view_live(old(self)@.entities, e) ==> !view_valid(final(self)@.entities, e),
            forall|e: Entity|
                #![trigger slot_at(final(self)@.slots, e.id_spec() as int)]
                view_live(old(self)@.entities, e) ==> slot_at(
                    final(self)@.slots,
                    e.id_spec() as int,
                ) == Map::<u64, C>::empty(),
            forall|e: Entity, k: int|
                #![trigger final(self)@.systems[k].entities.contains(e)]
                view_live(old(self)@.entities, e) && 0 <= k < final(self)@.systems.len()
                    ==> !final(self)@.systems[k].entities.contains(e),
    {
        let ghost m0 = self@;
        let mut it = self.entities.iter();
        loop
            invariant
                self.wf(),
                queue_ok(self@),
                it.src() == m0.entities,
                self@.entities == m0.entities,
                self@.slots == m0.slots,
                self@.systems == m0.systems,
                0 <= it.pos(),
                forall|e: Entity|
                    #![trigger view_live(m0.entities, e)]
                    view_live(m0.entities, e) && (e.id_spec() as int) < it.pos()
                        ==> self@.to_destroy.contains(e),
            ensures
                self.wf(),
                queue_ok(self@),
                self@.entities == m0.entities,
                self@.slots == m0.slots,
                self@.systems == m0.systems,
                forall|e: Entity|
                    #![trigger view_live(m0.entities, e)]
                    view_live(m0.entities, e) ==> self@.to_destroy.contains(e),
            decreases it.src().keys.len() + 1 - it.pos(),
        {
            let ghost pos0 = it.pos();
            let got = it.next();
            match got {
                Some(e) => {
                    let ghost q_before = self@.to_destroy;
                    let already = contains_entity(&self.to_destroy, e);
                    if !already {
                        self.to_destroy.push(e);
                        proof {
                            assert(self@.to_destroy[self@.to_destroy.len() - 1] == e);
                            assert forall|a: int, b: int|
                                0 <= a < b < self@.to_destroy.len() implies self@.to_destroy[a]
                                != self@.to_destroy[b] by {
                                if b == self@.to_destroy.len() - 1 {
                                    assert(q_before.contains(q_before[a]));
                                }
                            }
                        }
                    }
                    proof {
                        assert(self@.to_destroy.contains(e));
                        assert forall|x: Entity|
                            view_live(m0.entities, x) && (x.id_spec() as int)
                                < it.pos() implies self@.to_destroy.contains(x) by {
                            if (x.id_spec() as int) < pos0 {
                                assert(q_before.contains(x));
                                if !already {
                                    crate::seqs::lemma_push_contains(q_before, e, x);
                                }
                            } else if x.id_spec() == e.id_spec() {
                                assert(x.key_spec() == m0.entities.keys[e.id_spec() as int]);
                                lemma_entity_eq(x, e);
                            } else {
                                assert(!crate::entity::live_at(m0.entities, x.id_spec() as int));
                            }
                        }
                    }
                },
                None => {
                    proof {
                        assert forall|x: Entity|
                            view_live(m0.entities, x) implies self@.to_destroy.contains(x) by {
                            assert((x.id_spec() as int) < m0.entities.keys.len());
                            if (x.id_spec() as int) >= pos0 {
                                assert(!crate::entity::live_at(m0.entities, x.id_spec() as int));
                            }
                        }
                    }
                    break ;
                },
            }
        }
        let ghost m_pre = self@;
        self.destroy_scheduled_entities();
        proof {
            assert forall|e: Entity|
                view_live(m0.entities, e) implies !view_valid(self@.entities, e) by {
                lemma_finalize_destroys(m_pre, e);
                assert(crate::entity::next_key(e.key_spec()) != e.key_spec());
            }
            assert forall|e: Entity|
                view_live(m0.entities, e) implies slot_at(self@.slots, e.id_spec() as int)
                    == Map::<u64, C>::empty() by {
                lemma_finalize_destroys(m_pre, e);
            }
            lemma_drain_len(m_pre, m_pre.to_destroy);
            assert forall|e: Entity, k: int|
                view_live(m0.entities, e) && 0 <= k
                    < self@.systems.len() implies !self@.systems[k].entities.contains(e) by {
                lemma_finalize_destroys(m_pre, e);
            }
        }
    }

    /// Finalizes every scheduled destruction, in scheduling order: the
    /// entity's components are stripped into a removed-store, every
    /// system still tracking the entity is handed that store through
    /// [`System::on_entity_removed`] — unconditionally, whatever its
    /// required signature — and the allocator frees the slot. The queue
    /// is then empty.
    fn destroy_scheduled_entities(&mut self)
        requires
            old(self).wf(),
            queue_ok(old(self)@),
        ensures
            final(self).wf(),
            final(self)@ == finalize_frame(old(self)@),
    {
        let queue = copied_entities(&self.to_destroy);
        let ghost q0 = queue@;
        let n = queue.len();
        let mut k: usize = 0;
        while k < n
            invariant
                k <= n,
                n == q0.len(),
                queue@ == q0,
                q0 == old(self)@.to_destroy,
                q0.no_duplicates(),
                self.wf(),
                self@.to_destroy == old(self)@.to_destroy,
                self@.entities == drain_queue(old(self)@, q0.take(k as int)).entities,
                self@.slots == drain_queue(old(self)@, q0.take(k as int)).slots,
                self@.systems == drain_queue(old(self)@, q0.take(k as int)).systems,
                forall|j: int| k <= j < n ==> view_valid(self@.entities, #[trigger] q0[j]),
            decreases n - k,
        {
            let e = queue[k];
            let ghost d_prev = drain_queue(old(self)@, q0.take(k as int));
            let ghost m_in = self@;
            let index = e.id() as usize;
            let removed = match self.components.remove_all_components(index) {
                Some(c) => c,
                None => Components::new(),
            };
            let ghost m_stripped = self@;
            let nsys = self.systems.len();
            let mut s_i: usize = 0;
            while s_i < nsys
                invariant
                    s_i <= nsys,
                    nsys == self.systems@.len(),
                    nsys == m_stripped.systems.len(),
                    self.wf(),
                    removed.wf(),
                    self.entities@ == m_stripped.entities,
                    self.components@ == m_stripped.slots,
                    self.to_destroy@ == m_stripped.to_destroy,
                    forall|j: int|
                        s_i <= j < nsys ==> (#[trigger] self@.systems[j]) == m_stripped.systems[j],
                    forall|j: int|
                        0 <= j < s_i ==> (#[trigger] self@.systems[j]) == (SystemModel {
                            tag: m_stripped.systems[j].tag,
                            required: m_stripped.systems[j].required,
                            entities: m_stripped.systems[j].entities.remove(e),
                        }),
                decreases nsys - s_i,
            {
                let tracked_now = self.systems[s_i].has_entity(e);
                let ghost pre = self@.systems;
                proof {
                    assert(pre[s_i as int] == m_stripped.systems[s_i as int]);
                }
                if tracked_now {
                    let s = &mut self.systems[s_i];
                    s.on_entity_removed(e, &self.components, &removed);
                }
                proof {
                    assert(self@.systems[s_i as int].entities =~= m_stripped.systems[
                        s_i as int
                    ].entities.remove(e));
                    assert(self@.systems[s_i as int] == (SystemModel {
                        tag: m_stripped.systems[s_i as int].tag,
                        required: m_stripped.systems[s_i as int].required,
                        entities: m_stripped.systems[s_i as int].entities.remove(e),
                    }));
                    assert forall|j: int|
                        0 <= j < nsys && j != s_i implies (#[trigger] self@.systems[j])
                        == pre[j] by {}
                }
                s_i += 1;
            }
            let ghost m_dropped = self@;
            self.entities.destroy_entity(e);
            proof {
                lemma_take_push(q0, k as int);
                lemma_drain_queue_snoc(old(self)@, q0.take(k as int), e);
                let target = destroy_one(d_prev, e);
                assert(self@.slots == target.slots);
                assert(m_stripped.systems == d_prev.systems);
                assert(self@.systems == m_dropped.systems);
                assert forall|j: int|
                    0 <= j < nsys implies self@.systems[j] == target.systems[j] by {
                    assert(m_dropped.systems[j] == (SystemModel {
                        tag: m_stripped.systems[j].tag,
                        required: m_stripped.systems[j].required,
                        entities: m_stripped.systems[j].entities.remove(e),
                    }));
                    assert(m_stripped.systems[j] == d_prev.systems[j]);
                }
                assert(self@.systems =~= target.systems);
                assert(self@.entities == target.entities);
                assert forall|j: int|
                    k + 1 <= j < n implies view_valid(self@.entities, #[trigger] q0[j]) by {
                    assert(view_valid(m_dropped.entities, q0[j]));
                    assert(q0[j] != e);
                    if q0[j].id_spec() == e.id_spec() {
                        assert(m_dropped.entities.keys[e.id_spec() as int] == e.key_spec());
                        assert(q0[j].key_spec() == e.key_spec());
                        lemma_entity_eq(q0[j], e);
                    }
                }
            }
            k += 1;
        }
        self.to_destroy.clear();
        proof {
            assert(q0.take(n as int) =~= q0);
            assert(self@.to_destroy =~= Seq::<Entity>::empty());
            assert(self@ == finalize_frame(old(self)@));
        }
    }
}

/// Appending one mutation to a run is one more step after the run: the
/// fold applies mutations strictly left to right.
pub proof fn lemma_mutation_run_snoc<C>(m: WorldModel<C>, cmds: Seq<Mutation<C>>, cmd: Mutation<C>)
    ensures
        mutation_run(m, cmds.push(cmd)) == mutation_step(mutation_run(m, cmds), cmd),
    decreases cmds.len(),
{
    reveal_with_fuel(mutation_run, 2);
    if cmds.len() == 0 {
        assert(cmds.push(cmd)[0] == cmd);
        assert(cmds.push(cmd).drop_first() =~= Seq::<Mutation<C>>::empty());
    } else {
        assert(cmds.push(cmd)[0] == cmds[0]);
        assert(cmds.push(cmd).drop_first() =~= cmds.drop_first().push(cmd));
        lemma_mutation_run_snoc(mutation_step(m, cmds[0]), cmds.drop_first(), cmd);
    }
}

/// Mutation lists compose in order: running `a + b` is running `a`
/// first and then `b` on the result. In a frame, a later system's
/// mutations therefore always observe an earlier system's mutations
/// already applied.
pub proof fn lemma_mutation_run_append<C>(m: WorldModel<C>, a: Seq<Mutation<C>>, b: Seq<Mutation<C>>)
    ensures
        mutation_run(m, a + b) == mutation_run(mutation_run(m, a), b),
    decreases a.len(),
{
    reveal_with_fuel(mutation_run, 2);
    if a.len() == 0 {
        assert(a + b =~= b);
    } else {
        assert((a + b)[0] == a[0]);
        assert((a + b).drop_first() =~= a.drop_first() + b);
        lemma_mutation_run_append(mutation_step(m, a[0]), a.drop_first(), b);
    }
}

/// Appending one entity to a destruction queue finalizes it after the
/// rest.
pub proof fn lemma_drain_queue_snoc<C>(m: WorldModel<C>, q: Seq<Entity>, e: Entity)
    ensures
        drain_queue(m, q.push(e)) == destroy_one(drain_queue(m, q), e),
    decreases q.len(),
{
    reveal_with_fuel(drain_queue, 2);
    if q.len() == 0 {
        assert(q.push(e)[0] == e);
        assert(q.push(e).drop_first() =~= Seq::<Entity>::empty());
    } else {
        assert(q.push(e)[0] == q[0]);
        assert(q.push(e).drop_first() =~= q.drop_first().push(e));
        lemma_drain_queue_snoc(destroy_one(m, q[0]), q.drop_first(), e);
    }
}

/// Every mutation keeps the destruction queue distinct and valid: a
/// destruction is only scheduled for a valid, unscheduled handle, and
/// no mutation invalidates a live entity mid-frame.
pub proof fn lemma_step_queue_ok<C>(m: WorldModel<C>, cmd: Mutation<C>)
    requires
        queue_ok(m),
    ensures
        queue_ok(mutation_step(m, cmd)),
{
    let m2 = mutation_step(m, cmd);
    match cmd {
        Mutation::CreateEntity => {
            assert forall|k: int|
                0 <= k < m2.to_destroy.len() implies view_valid(
                m2.entities,
                #[trigger] m2.to_destroy[k],
            ) by {
                if m.entities.free.len() == 0 {
                    assert(m2.entities.keys[m.to_destroy[k].id_spec() as int] == m.entities.keys[
                        m.to_destroy[k].id_spec() as int
                    ]);
                }
            }
        },
        Mutation::DestroyEntity(e) => {
            if view_valid(m.entities, e) && !m.to_destroy.contains(e) {
                assert forall|a: int, b: int|
                    0 <= a < b < m2.to_destroy.len() implies m2.to_destroy[a]
                    != m2.to_destroy[b] by {
                    if b == m2.to_destroy.len() - 1 {
                        assert(m.to_destroy.contains(m.to_destroy[a]));
                    }
                }
            }
        },
        Mutation::AddComponent(e, t, v) => {},
        Mutation::RemoveComponent(e, t) => {},
        Mutation::RemoveAllComponents(e) => {},
        Mutation::Apply(e) => {},
        Mutation::SystemCommand(tag, payload) => {},
    }
}

/// The flattened planning output: every mutation of an earlier system
/// before any mutation of a later one.
pub open spec fn flatten_pending<C>(p: Seq<Vec<Mutation<C>>>) -> Seq<Mutation<C>>
    decreases p.len(),
{
    if p.len() == 0 {
        Seq::empty()
    } else {
        p[0]@ + flatten_pending(p.drop_first())
    }
}

/// After reconciling entity `e`, a system tracks `e` exactly when its
/// required signature is a subset of `e`'s signature; membership of
/// every other entity, and the system's tag and required signature, are
/// untouched.
pub proof fn lemma_membership_after_apply<C>(m: WorldModel<C>, e: Entity, k: int)
    requires
        0 <= k < m.systems.len(),
    ensures
        apply_model(m, e).systems[k].entities.contains(e) == matches_sig(
            m.systems[k].required,
            sig_of(m, e),
        ),
        forall|e2: Entity|
            e2 != e ==> apply_model(m, e).systems[k].entities.contains(e2) == m.systems[
                k
            ].entities.contains(e2),
        apply_model(m, e).systems[k].required == m.systems[k].required,
        apply_model(m, e).systems[k].tag == m.systems[k].tag,
{
}

/// Reconciling an entity twice in a row is the same as reconciling it
/// once: the second pass finds no transition. Together with the
/// preconditions of [`crate::System::on_entity_added`] and
/// [`crate::System::on_entity_removed`], which forbid adding a tracked
/// entity and removing an untracked one, this rules out duplicate or
/// missing notifications.
pub proof fn lemma_apply_idempotent<C>(m: WorldModel<C>, e: Entity)
    ensures
        apply_model(apply_model(m, e), e) == apply_model(m, e),
{
    let m1 = apply_model(m, e);
    assert(sig_of(m1, e) == sig_of(m, e));
    assert forall|k: int|
        0 <= k < m.systems.len() implies apply_model(m1, e).systems[k] == m1.systems[k] by {
        let s = m.systems[k];
        if matches_sig(s.required, sig_of(m, e)) {
            assert(s.entities.insert(e).insert(e) =~= s.entities.insert(e));
        } else {
            assert(s.entities.remove(e).remove(e) =~= s.entities.remove(e));
        }
    }
    assert(apply_model(m1, e).systems =~= m1.systems);
    assert(apply_model(m1, e) == m1);
}

/// Finalizing a queue whose entries all avoid entity `x` (and its slot)
/// leaves `x`'s slot generation and every system's membership of `x`
/// unchanged.
proof fn lemma_drain_frame<C>(m: WorldModel<C>, q: Seq<Entity>, x: Entity)
    requires
        entities_wf(m.entities),
        forall|j: int| 0 <= j < q.len() ==> view_valid(m.entities, #[trigger] q[j]),
        q.no_duplicates(),
        forall|j: int| 0 <= j < q.len() ==> (#[trigger] q[j]).id_spec() != x.id_spec(),
        (x.id_spec() as int) < m.entities.keys.len(),
    ensures
        drain_queue(m, q).entities.keys.len() == m.entities.keys.len(),
        drain_queue(m, q).entities.keys[x.id_spec() as int] == m.entities.keys[x.id_spec() as int],
        drain_queue(m, q).systems.len() == m.systems.len(),
        forall|k: int|
            0 <= k < m.systems.len() ==> ((#[trigger] drain_queue(m, q).systems[
                k
            ]).entities.contains(x) == m.systems[k].entities.contains(x) && drain_queue(
                m,
                q,
            ).systems[k].required == m.systems[k].required),
        drain_queue(m, q).slots.len() == m.slots.len(),
        slot_at(drain_queue(m, q).slots, x.id_spec() as int) == slot_at(m.slots, x.id_spec() as int),
    decreases q.len(),
{
    reveal_with_fuel(drain_queue, 2);
    if q.len() > 0 {
        let e0 = q[0];
        let m1 = destroy_one(m, e0);
        let rest = q.drop_first();
        assert(x != e0);
        lemma_destroy_one_basics(m, e0);
        assert forall|j: int|
            0 <= j < rest.len() implies view_valid(m1.entities, #[trigger] rest[j]) by {
            assert(rest[j] == q[j + 1]);
            assert(view_valid(m.entities, q[j + 1]));
            assert(rest[j] != e0);
            if rest[j].id_spec() == e0.id_spec() {
                assert(rest[j].key_spec() == m.entities.keys[e0.id_spec() as int]);
                lemma_entity_eq(rest[j], e0);
                assert(rest[j] == e0);
            }
        }
        assert forall|a: int, b: int| 0 <= a < b < rest.len() implies rest[a] != rest[b] by {
            assert(q[a + 1] != q[b + 1]);
        }
        assert forall|j: int| 0 <= j < rest.len() implies (#[trigger] rest[j]).id_spec() != x.id_spec() by {
            assert(rest[j] == q[j + 1]);
        }
        lemma_drain_frame(m1, rest, x);
        assert(drain_queue(m, q) == drain_queue(m1, rest));
    }
}

/// Elementary facts about finalizing one destruction: the slot's
/// generation advances, the handle dies, the slot is emptied, and the
/// entity leaves every system's tracked set; the allocator stays well
/// formed; every other slot, and every other entity's membership in
/// every system, is untouched.
proof fn lemma_destroy_one_basics<C>(m: WorldModel<C>, e: Entity)
    requires
        entities_wf(m.entities),
        view_valid(m.entities, e),
    ensures
        entities_wf(destroy_one(m, e).entities),
        destroy_one(m, e).entities.keys.len() == m.entities.keys.len(),
        destroy_one(m, e).entities.keys[e.id_spec() as int] == crate::entity::next_key(e.key_spec()),
        !view_valid(destroy_one(m, e).entities, e),
        forall|i: int|
            0 <= i < m.entities.keys.len() && i != e.id_spec() ==> destroy_one(m, e).entities.keys[i]
                == m.entities.keys[i],
        destroy_one(m, e).systems.len() == m.systems.len(),
        forall|k: int, x: Entity|
            0 <= k < m.systems.len() && x != e ==> ((#[trigger] destroy_one(m, e).systems[
                k
            ].entities.contains(x)) == m.systems[k].entities.contains(x)),
        forall|k: int|
            0 <= k < m.systems.len() ==> (#[trigger] destroy_one(m, e).systems[k]).required
                == m.systems[k].required,
        forall|k: int|
            0 <= k < m.systems.len() ==> !(#[trigger] destroy_one(m, e).systems[
                k
            ]).entities.contains(e),
        destroy_one(m, e).slots.len() == m.slots.len(),
        slot_at(destroy_one(m, e).slots, e.id_spec() as int) == Map::<u64, C>::empty(),
        forall|i: int|
            i != e.id_spec() ==> slot_at(destroy_one(m, e).slots, i) == slot_at(m.slots, i),
{
    let d = destroy_one(m, e);
    assert(d.entities == destroy_model(m.entities, e));
    assert(d.entities.keys == m.entities.keys.update(
        e.id_spec() as int,
        crate::entity::next_key(m.entities.keys[e.id_spec() as int]),
    ));
    assert(entities_wf(d.entities)) by {
        assert forall|j: int|
            0 <= j < d.entities.free.len() implies (d.entities.free[j] as int)
            < d.entities.keys.len() by {
            if j < m.entities.free.len() {
                assert(d.entities.free[j] == m.entities.free[j]);
            } else {
                assert(d.entities.free[j] == e.id_spec());
            }
        }
    }
    if 0 <= (e.id_spec() as int) < m.slots.len() {
        assert(slot_at(d.slots, e.id_spec() as int) == Map::<u64, C>::empty());
    }
}

/// Draining a queue that contains `e` (all entries valid and distinct)
/// advances `e`'s slot generation, kills the handle, empties its slot,
/// and removes it from every system's tracked set.
proof fn lemma_drain_destroys<C>(m: WorldModel<C>, q: Seq<Entity>, e: Entity)
    requires
        entities_wf(m.entities),
        forall|j: int| 0 <= j < q.len() ==> view_valid(m.entities, #[trigger] q[j]),
        q.no_duplicates(),
        q.contains(e),
    ensures
        drain_queue(m, q).entities.keys.len() == m.entities.keys.len(),
        drain_queue(m, q).entities.keys[e.id_spec() as int] == crate::entity::next_key(e.key_spec()),
        !view_valid(drain_queue(m, q).entities, e),
        drain_queue(m, q).systems.len() == m.systems.len(),
        forall|k: int|
            0 <= k < m.systems.len() ==> !(#[trigger] drain_queue(m, q).systems[
                k
            ]).entities.contains(e),
        drain_queue(m, q).slots.len() == m.slots.len(),
        slot_at(drain_queue(m, q).slots, e.id_spec() as int) == Map::<u64, C>::empty(),
    decreases q.len(),
{
    reveal_with_fuel(drain_queue, 2);
    let e0 = q[0];
    let rest = q.drop_first();
    let m1 = destroy_one(m, e0);
    lemma_destroy_one_basics(m, e0);
    assert forall|j: int|
        0 <= j < rest.len() implies view_valid(m1.entities, #[trigger] rest[j]) by {
        assert(rest[j] == q[j + 1]);
        assert(view_valid(m.entities, q[j + 1]));
        assert(rest[j] != e0);
        if rest[j].id_spec() == e0.id_spec() {
            assert(rest[j].key_spec() == m.entities.keys[e0.id_spec() as int]);
            lemma_entity_eq(rest[j], e0);
            assert(rest[j] == e0);
        }
    }
    assert forall|a: int, b: int| 0 <= a < b < rest.len() implies rest[a] != rest[b] by {
        assert(q[a + 1] != q[b + 1]);
    }
    assert(drain_queue(m, q) == drain_queue(m1, rest));
    if e == e0 {
        assert forall|j: int| 0 <= j < rest.len() implies (#[trigger] rest[j]).id_spec() != e.id_spec() by {
            assert(rest[j] == q[j + 1]);
            assert(rest[j] != e);
            if rest[j].id_spec() == e.id_spec() {
                assert(rest[j].key_spec() == m.entities.keys[e.id_spec() as int]);
                lemma_entity_eq(rest[j], e);
                assert(rest[j] == e);
            }
        }
        lemma_drain_frame(m1, rest, e);
        assert(m1.entities.keys[e.id_spec() as int] == crate::entity::next_key(e.key_spec()));
        assert(drain_queue(m1, rest).entities.keys[e.id_spec() as int] == crate::entity::next_key(
            e.key_spec(),
        ));
        assert(crate::entity::next_key(e.key_spec()) != e.key_spec());
    } else {
        let jj = choose|j: int| 0 <= j < q.len() && q[j] == e;
        assert(jj != 0);
        assert(rest[jj - 1] == e);
        assert(rest.contains(e));
        assert(view_valid(m1.entities, e)) by {
            assert(view_valid(m.entities, e));
            if e.id_spec() == e0.id_spec() {
                assert(e.key_spec() == m.entities.keys[e0.id_spec() as int]);
                lemma_entity_eq(e, e0);
                assert(e == e0);
            }
        }
        lemma_drain_destroys(m1, rest, e);
    }
}

/// After [`World::process`] has finalized the frame, a scheduled entity
/// is gone: its handle is invalid, its slot's generation has advanced
/// (so a handle later issued for the reused slot compares strictly
/// greater and never equal, until the generation wrap; see
/// [`crate::entity::lemma_slot_reuse`]), its slot holds no components,
/// and every system that had it has had it removed — whatever the
/// system's required signature.
pub proof fn lemma_finalize_destroys<C>(m: WorldModel<C>, e: Entity)
    requires
        entities_wf(m.entities),
        queue_ok(m),
        m.to_destroy.contains(e),
    ensures
        !view_valid(finalize_frame(m).entities, e),
        finalize_frame(m).entities.keys[e.id_spec() as int] == crate::entity::next_key(e.key_spec()),
        finalize_frame(m).systems.len() == m.systems.len(),
        forall|k: int|
            0 <= k < m.systems.len() ==> !(#[trigger] finalize_frame(m).systems[
                k
            ]).entities.contains(e),
        finalize_frame(m).slots.len() == m.slots.len(),
        slot_at(finalize_frame(m).slots, e.id_spec() as int) == Map::<u64, C>::empty(),
{
    lemma_drain_destroys(m, m.to_destroy, e);
}

/// Finalizing a queue never changes how many slots, systems or entity
/// slots the world has, nor the queue field itself.
proof fn lemma_drain_len<C>(m: WorldModel<C>, q: Seq<Entity>)
    ensures
        drain_queue(m, q).systems.len() == m.systems.len(),
        drain_queue(m, q).slots.len() == m.slots.len(),
        drain_queue(m, q).entities.keys.len() == m.entities.keys.len(),
        drain_queue(m, q).to_destroy == m.to_destroy,
    decreases q.len(),
{
    reveal_with_fuel(drain_queue, 2);
    if q.len() > 0 {
        lemma_drain_len(destroy_one(m, q[0]), q.drop_first());
    }
}

/// Returns a copy of `v`.
fn copied_entities(v: &Vec<Entity>) -> (r: Vec<Entity>)
    ensures
        r@ == v@,
{
    let mut r: Vec<Entity> = Vec::new();
    let mut i: usize = 0;
    while i < v.len()
        invariant
            i <= v@.len(),
            r@ == v@.take(i as int),
        decreases v@.len() - i,
    {
        r.push(v[i]);
        proof {
            assert(r@ =~= v@.take(i + 1));
        }
        i += 1;
    }
    proof {
        assert(v@.take(v@.len() as int) =~= v@);
    }
    r
}

} // verus!
