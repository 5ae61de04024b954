use luck_ecs::Components;

#[derive(Debug, Eq, PartialEq)]
struct FooComponent(u32);

const FOO: u64 = 1;

#[test]
fn with_reference() {
    #[derive(Debug, Eq, PartialEq)]
    struct RefHolder<'a> {
        r: &'a i32,
    }

    let int_ref: &'static i32 = &15;
    let mut comp_list = Components::new();
    comp_list.add_component(0usize, FOO, RefHolder { r: int_ref });

    assert_eq!(comp_list.get_component_mut(0usize, FOO).unwrap().r, &15);
}

#[test]
fn addition_and_recovery() {
    let mut comp_list = Components::new();
    for index in 0usize..100_000usize {
        assert_eq!(*comp_list.add_component(index, FOO, FooComponent(0u32)), FooComponent(0u32));
        assert_eq!(*comp_list.get_component(index, FOO).unwrap(), FooComponent(0u32));
        assert_eq!(*comp_list.get_component_mut(index, FOO).unwrap(), FooComponent(0u32));
    }
}

#[test]
fn removal() {
    let mut comp_list = Components::new();
    let index = 0usize;

    assert_eq!(*comp_list.add_component(index, FOO, FooComponent(0u32)), FooComponent(0u32));
    assert_eq!(*comp_list.add_component(index, FOO, FooComponent(1u32)), FooComponent(1u32));

    assert_eq!(*comp_list.get_component(index, FOO).unwrap(), FooComponent(1u32));
    assert_eq!(comp_list.remove_component(index, FOO).unwrap(), FooComponent(1u32));
    assert_eq!(comp_list.get_component(index, FOO).is_none(), true);
    assert_eq!(comp_list.remove_component(index, FOO).is_none(), true);
}

#[test]
fn merging_and_clearing() {
    let mut comp_list1 = Components::new();
    let mut comp_list2 = Components::new();
    let index1 = 0usize;
    let index2 = 1usize;

    comp_list1.add_component(index1, FOO, FooComponent(0u32));
    comp_list2.add_component(index2, FOO, FooComponent(0u32));

    Components::merge(&mut comp_list1, comp_list2);

    assert_eq!(comp_list1.len(), 2);

    comp_list1.clear();
    assert_eq!(comp_list1.len(), 0);
}

// An empty slot in the merged-in store does not overwrite the target's
// slot.
#[test]
fn merging_keeps_nonoverlapping_slots() {
    const BAR: u64 = 2;
    let mut target = Components::new();
    let mut other = Components::new();

    target.add_component(0usize, FOO, FooComponent(7u32));
    other.add_component(1usize, BAR, FooComponent(9u32));

    Components::merge(&mut target, other);

    assert_eq!(*target.get_component(0usize, FOO).unwrap(), FooComponent(7u32));
    assert_eq!(*target.get_component(1usize, BAR).unwrap(), FooComponent(9u32));
    assert!(target.get_component(1usize, FOO).is_none());
}

// The signature of a slot is exactly the set of tags whose component is
// present.
#[test]
fn signature_matches_storage() {
    const BAR: u64 = 2;
    const BAZ: u64 = 3;
    let mut comp_list = Components::new();

    assert_eq!(comp_list.generate_signature(0usize), Vec::<u64>::new());

    comp_list.add_component(0usize, FOO, FooComponent(0u32));
    comp_list.add_component(0usize, BAR, FooComponent(1u32));
    comp_list.add_component(0usize, BAZ, FooComponent(2u32));
    comp_list.remove_component(0usize, BAR);
    // Overwriting must not duplicate the tag.
    comp_list.add_component(0usize, FOO, FooComponent(3u32));

    let mut sig = comp_list.generate_signature(0usize);
    sig.sort();
    assert_eq!(sig, vec![FOO, BAZ]);
    for tag in [FOO, BAR, BAZ] {
        assert_eq!(sig.contains(&tag), comp_list.get_component(0usize, tag).is_some());
    }
}

// Clearing one slot empties its signature and leaves other slots alone.
#[test]
fn remove_all_clears_one_slot() {
    let mut comp_list = Components::new();
    comp_list.add_component(0usize, FOO, FooComponent(1u32));
    comp_list.add_component(1usize, FOO, FooComponent(2u32));

    comp_list.remove_all_components(0usize);

    assert!(comp_list.get_component(0usize, FOO).is_none());
    assert_eq!(comp_list.generate_signature(0usize), Vec::<u64>::new());
    assert_eq!(*comp_list.get_component(1usize, FOO).unwrap(), FooComponent(2u32));
}
