use luck_ecs::entity::{Entities, Entity, EntityId};
use rand::seq::SliceRandom;

// Tests the creation of 500.000 entities and the generation of their id's
#[test]
fn entity_creation() {
    let mut entities: Entities = Entities::with_capacity(500_000usize);

    let base = EntityId::MAX - 500_000;
    for i in base..EntityId::MAX {
        let e: Entity = entities.create_entity();
        assert_eq!(((e.id() + base), e.key()), (i, 1));
    }
}

// Tests the destruction and recreation of the entities and the reuse of
// deleted entity id's
#[test]
fn destruction_recreation() {
    let sample = 500_000usize;
    let mut entities: Entities = Entities::with_capacity(sample);

    let mut entity_list = Vec::with_capacity(sample);
    for i in 0..sample {
        let e: Entity = entities.create_entity();
        assert_eq!((e.id(), e.key()), (i as EntityId, 1));
        entity_list.push(e);
    }

    entity_list.shuffle(&mut rand::rng());

    for e in entity_list {
        entities.destroy_entity(e);
        assert_eq!(entities.is_valid(e), false);
        let ne: Entity = entities.create_entity();
        assert_eq!((ne.id(), ne.key()), (e.id(), e.key() + 1));
    }
}

// Tests the iterator logic
#[test]
fn iteration() {
    let mut entities: Entities = Entities::new();

    let ent_list = [
        entities.create_entity(),
        entities.create_entity(),
        entities.create_entity(),
        entities.create_entity(),
    ];

    let mut iter = entities.iter();
    let mut i = 0usize;
    while let Some(e) = iter.next() {
        assert_eq!(e, ent_list[i]);
        i += 1;
    }
    assert_eq!(i, 4);

    entities.destroy_entity(ent_list[2]);

    let mut iter = entities.iter();
    assert_eq!(iter.next(), Some(ent_list[0]));
    assert_eq!(iter.next(), Some(ent_list[1]));
    assert_eq!(iter.next(), Some(ent_list[3]));
    assert_eq!(iter.next(), None);
}

// Test to check if EntityId is smaller or equal to usize, since vectors use
// usize as key and EntityId is used as the key of the vector.
#[test]
#[allow(unused_comparisons)]
fn type_size() {
    let max_id = EntityId::MAX as u64;
    let max_usize = usize::MAX as u64;

    if max_id > max_usize || EntityId::MIN < 0 {
        panic!("Type must be contained by usize")
    }
}

// A consuming iterator yields the same entities as a borrowing one.
#[test]
fn into_iteration() {
    let mut entities: Entities = Entities::new();
    let e0 = entities.create_entity();
    let e1 = entities.create_entity();
    entities.destroy_entity(e0);

    let mut iter = entities.into_iter();
    assert_eq!(iter.next(), Some(e1));
    assert_eq!(iter.next(), None);
}
