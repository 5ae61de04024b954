use luck_ecs::{BasicSystem, Mutation, System, WorldBuilder};

#[derive(Clone, Debug, PartialEq)]
enum Comp {
    Pos(i64, i64),
    Mark(u32),
}

const POSITION: u64 = 1;
const MARK: u64 = 2;

const S1: u64 = 10;
const S2: u64 = 11;

// An entity matches a system exactly while the system's required tags
// are all present: adding the component and applying reports membership,
// removing it and applying revokes membership.
#[test]
fn membership_transitions() {
    let mut w = WorldBuilder::new()
        .with_system(BasicSystem::new(S1, vec![POSITION]))
        .build::<Comp>();

    let e1 = w.create_entity();
    w.add_component(e1, POSITION, Comp::Pos(1, 2));
    w.apply(e1);
    assert_eq!(w.get_system(S1).unwrap().has_entity(e1), true);

    w.remove_component(e1, POSITION);
    w.apply(e1);
    assert_eq!(w.get_system(S1).unwrap().has_entity(e1), false);
}

// Applying twice in a row never notifies a system twice: the tracked
// entity list holds the entity exactly once, and a second apply after a
// removal changes nothing.
#[test]
fn no_duplicate_notifications() {
    let mut w = WorldBuilder::new()
        .with_system(BasicSystem::new(S1, vec![POSITION]))
        .build::<Comp>();

    let e1 = w.create_entity();
    w.add_component(e1, POSITION, Comp::Pos(0, 0));
    w.apply(e1);
    w.apply(e1);
    assert_eq!(w.get_system(S1).unwrap().entity_list().len(), 1);

    w.remove_component(e1, POSITION);
    w.apply(e1);
    w.apply(e1);
    assert_eq!(w.get_system(S1).unwrap().entity_list().len(), 0);
}

// Destruction is deferred: after destroy_entity the handle stays valid
// and its components stay readable until process() finalizes the frame;
// afterwards the handle is dead and every system has dropped it.
#[test]
fn deferred_destruction() {
    let mut w = WorldBuilder::new()
        .with_system(BasicSystem::new(S1, vec![POSITION]))
        .build::<Comp>();

    let e1 = w.create_entity();
    w.add_component(e1, POSITION, Comp::Pos(3, 4));
    w.apply(e1);

    w.destroy_entity(e1);
    assert!(w.is_valid(e1));
    assert_eq!(w.get_component(e1, POSITION), Some(&Comp::Pos(3, 4)));
    assert!(w.get_system(S1).unwrap().has_entity(e1));

    w.process();

    assert!(!w.is_valid(e1));
    assert!(!w.get_system(S1).unwrap().has_entity(e1));
}

// A destroyed slot is reused under a strictly greater generation, so the
// old handle never compares equal to the new one and stays dead.
#[test]
fn slot_reuse_generation() {
    let mut w = WorldBuilder::new()
        .with_system(BasicSystem::new(S1, vec![POSITION]))
        .build::<Comp>();

    let e1 = w.create_entity();
    w.destroy_entity(e1);
    w.process();
    assert!(!w.is_valid(e1));

    let e2 = w.create_entity();
    assert_eq!(e2.id(), e1.id());
    assert_eq!(e2.key(), e1.key() + 1);
    assert!(e2.key() > e1.key());
    assert_ne!(e2, e1);
    assert!(!w.is_valid(e1));
    assert!(w.is_valid(e2));
}

// Pending mutations run strictly in registration order: when two systems
// write the same component, the later-registered system's value wins.
#[test]
fn mutation_order_registration() {
    let mut w = WorldBuilder::new()
        .with_system(BasicSystem::new(S1, vec![]))
        .with_system(BasicSystem::new(S2, vec![]))
        .build::<Comp>();

    let e1 = w.create_entity();
    w.get_system_mut(S1).unwrap().set_pending(vec![Mutation::AddComponent(
        e1,
        MARK,
        Comp::Mark(1),
    )]);
    w.get_system_mut(S2).unwrap().set_pending(vec![Mutation::AddComponent(
        e1,
        MARK,
        Comp::Mark(2),
    )]);
    w.process();
    assert_eq!(w.get_component(e1, MARK), Some(&Comp::Mark(2)));

    // Reversing the registration order reverses the outcome.
    let mut w = WorldBuilder::new()
        .with_system(BasicSystem::new(S2, vec![]))
        .with_system(BasicSystem::new(S1, vec![]))
        .build::<Comp>();

    let e1 = w.create_entity();
    w.get_system_mut(S1).unwrap().set_pending(vec![Mutation::AddComponent(
        e1,
        MARK,
        Comp::Mark(1),
    )]);
    w.get_system_mut(S2).unwrap().set_pending(vec![Mutation::AddComponent(
        e1,
        MARK,
        Comp::Mark(2),
    )]);
    w.process();
    assert_eq!(w.get_component(e1, MARK), Some(&Comp::Mark(1)));
}

// With a fixed registration order and a fixed operation sequence, two
// worlds observe identical states after the same number of frames.
#[test]
fn deterministic_frames() {
    let mut outcomes = Vec::new();
    for _run in 0..2 {
        let mut w = WorldBuilder::new()
            .with_system(BasicSystem::new(S1, vec![POSITION]))
            .with_system(BasicSystem::new(S2, vec![MARK]))
            .build::<Comp>();

        let e1 = w.create_entity();
        let e2 = w.create_entity();
        w.add_component(e1, POSITION, Comp::Pos(1, 1));
        w.add_component(e2, MARK, Comp::Mark(5));
        w.apply(e1);
        w.apply(e2);
        w.get_system_mut(S1).unwrap().set_pending(vec![
            Mutation::AddComponent(e2, MARK, Comp::Mark(6)),
            Mutation::Apply(e2),
        ]);
        w.destroy_entity(e1);
        w.process();
        w.process();

        outcomes.push((
            w.is_valid(e1),
            w.is_valid(e2),
            w.get_component(e2, MARK).cloned(),
            w.get_system(S1).unwrap().has_entity(e1),
            w.get_system(S2).unwrap().has_entity(e2),
        ));
    }
    assert_eq!(outcomes[0], outcomes[1]);
    assert_eq!(outcomes[0], (false, true, Some(Comp::Mark(6)), false, true));
}

// Every mutation shape is applied with its guard: creation always takes
// effect, removal empties the slot, and a full strip plus apply revokes
// membership within the same frame.
#[test]
fn mutation_shapes() {
    let mut w = WorldBuilder::new()
        .with_system(BasicSystem::new(S1, vec![POSITION]))
        .build::<Comp>();

    let e1 = w.create_entity();
    w.add_component(e1, POSITION, Comp::Pos(1, 1));
    w.add_component(e1, MARK, Comp::Mark(9));
    w.apply(e1);
    assert!(w.get_system(S1).unwrap().has_entity(e1));

    w.get_system_mut(S1).unwrap().set_pending(vec![
        Mutation::CreateEntity,
        Mutation::RemoveComponent(e1, MARK),
        Mutation::RemoveAllComponents(e1),
        Mutation::Apply(e1),
    ]);
    w.process();

    // The mutation-created entity took the next fresh slot, so the slot
    // after it goes to the next handle the caller asks for.
    w.get_system_mut(S1).unwrap().set_pending(vec![]);
    let e_next = w.create_entity();
    assert_eq!(e_next.id(), e1.id() + 2);
    assert_eq!(e_next.key(), 1);
    // Both components are gone and membership was revoked by the apply.
    assert_eq!(w.get_component(e1, MARK), None);
    assert_eq!(w.get_component(e1, POSITION), None);
    assert!(!w.get_system(S1).unwrap().has_entity(e1));
    assert!(w.is_valid(e1));
}

// Destruction notifies every system that had the entity, whatever its
// required signature: even a system requiring nothing — which matches
// every entity, an empty signature included — lets the dying entity go.
#[test]
fn destruction_reaches_empty_signature_systems() {
    let mut w = WorldBuilder::new()
        .with_system(BasicSystem::new(S1, vec![]))
        .build::<Comp>();

    let e1 = w.create_entity();
    w.apply(e1);
    assert!(w.get_system(S1).unwrap().has_entity(e1));

    w.destroy_entity(e1);
    w.process();

    assert!(!w.is_valid(e1));
    assert!(!w.get_system(S1).unwrap().has_entity(e1));
    assert_eq!(w.get_system(S1).unwrap().entity_list().len(), 0);
}

// A removal notification carries the component values being stripped:
// on destruction the removed-store holds the entity's final signature,
// while a reconciliation-path removal strips nothing.
#[test]
fn removal_carries_stripped_components() {
    let mut w = WorldBuilder::new()
        .with_system(BasicSystem::new(S1, vec![POSITION]))
        .build::<Comp>();

    let e1 = w.create_entity();
    w.add_component(e1, POSITION, Comp::Pos(1, 2));
    w.add_component(e1, MARK, Comp::Mark(4));
    w.apply(e1);

    w.destroy_entity(e1);
    w.process();

    let farewells = w.get_system(S1).unwrap().farewells().clone();
    assert_eq!(farewells.len(), 1);
    assert_eq!(farewells[0].0, e1);
    let mut tags = farewells[0].1.clone();
    tags.sort();
    assert_eq!(tags, vec![POSITION, MARK]);

    // A reconciliation-path removal strips nothing.
    let e2 = w.create_entity();
    w.add_component(e2, POSITION, Comp::Pos(5, 6));
    w.apply(e2);
    w.remove_component(e2, POSITION);
    w.apply(e2);
    let farewells = w.get_system(S1).unwrap().farewells().clone();
    assert_eq!(farewells.len(), 2);
    assert_eq!(farewells[1].0, e2);
    assert_eq!(farewells[1].1, Vec::<u64>::new());
}

// System-directed commands are delivered during the sequential phase,
// in registration order of the planning systems, without touching the
// world's entities, components or memberships.
#[test]
fn system_commands_delivered_in_order() {
    let mut w = WorldBuilder::new()
        .with_system(BasicSystem::new(S1, vec![]))
        .with_system(BasicSystem::new(S2, vec![]))
        .build::<Comp>();

    let e1 = w.create_entity();
    w.get_system_mut(S1).unwrap().set_pending(vec![Mutation::SystemCommand(
        S2,
        Comp::Mark(1),
    )]);
    w.get_system_mut(S2).unwrap().set_pending(vec![Mutation::SystemCommand(
        S2,
        Comp::Mark(2),
    )]);
    w.process();

    assert_eq!(
        w.get_system(S2).unwrap().received().clone(),
        vec![Comp::Mark(1), Comp::Mark(2)]
    );
    assert_eq!(w.get_system(S1).unwrap().received().len(), 0);
    assert!(w.is_valid(e1));
}

// Tearing the world down destroys every live entity and notifies every
// system, leaving an empty, reusable world.
#[test]
fn teardown_drains_everything() {
    let mut w = WorldBuilder::new()
        .with_system(BasicSystem::new(S1, vec![POSITION]))
        .build::<Comp>();

    let e1 = w.create_entity();
    let e2 = w.create_entity();
    w.add_component(e1, POSITION, Comp::Pos(1, 1));
    w.add_component(e2, POSITION, Comp::Pos(2, 2));
    w.apply(e1);
    w.apply(e2);
    // One entity is already scheduled; teardown must not schedule it twice.
    w.destroy_entity(e2);

    w.tear_down();

    assert!(!w.is_valid(e1));
    assert!(!w.is_valid(e2));
    assert!(!w.get_system(S1).unwrap().has_entity(e1));
    assert!(!w.get_system(S1).unwrap().has_entity(e2));
    assert_eq!(w.get_system(S1).unwrap().entity_list().len(), 0);
    assert_eq!(w.get_system(S1).unwrap().farewells().len(), 2);
}

// The matching rule is a subset test: extra tags at the entity do not
// hurt, one missing required tag breaks the match.
#[test]
fn signature_matching_rule() {
    let sys: BasicSystem<Comp> = BasicSystem::new(S1, vec![POSITION, MARK]);
    assert!(luck_ecs::match_entity_signature(&sys, &vec![POSITION, MARK, 77]));
    assert!(!luck_ecs::match_entity_signature(&sys, &vec![POSITION]));
    assert!(!luck_ecs::match_entity_signature(&sys, &vec![]));

    let empty_sys: BasicSystem<Comp> = BasicSystem::new(S2, vec![]);
    assert!(luck_ecs::match_entity_signature(&empty_sys, &vec![]));
}

// Mutations naming stale or already-scheduled entities are skipped, not
// applied: a double destruction planned by a system destroys once.
#[test]
fn stale_mutations_skipped() {
    let mut w = WorldBuilder::new()
        .with_system(BasicSystem::new(S1, vec![]))
        .build::<Comp>();

    let e1 = w.create_entity();
    w.get_system_mut(S1).unwrap().set_pending(vec![
        Mutation::DestroyEntity(e1),
        Mutation::DestroyEntity(e1),
        Mutation::AddComponent(e1, MARK, Comp::Mark(3)),
    ]);
    w.process();
    assert!(!w.is_valid(e1));

    // The next frame plans the same mutations against a now-dead handle;
    // they are all skipped.
    w.process();
    assert!(!w.is_valid(e1));
}
