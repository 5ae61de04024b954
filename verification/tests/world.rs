use luck_ecs::{BasicSystem, System, WorldBuilder};

#[derive(Clone, Debug, PartialEq)]
enum Comp {
    Pos(f32, f32, f32),
    Vel(f32, f32, f32),
}

const POSITION: u64 = 1;
const VELOCITY: u64 = 2;

const SPATIAL: u64 = 10;
const VELSYS: u64 = 11;

fn spatial_system() -> BasicSystem<Comp> {
    BasicSystem::new(SPATIAL, vec![POSITION])
}

fn velocity_system() -> BasicSystem<Comp> {
    BasicSystem::new(VELSYS, vec![POSITION, VELOCITY])
}

#[test]
fn world_creation() {
    let w = WorldBuilder::new().with_system(spatial_system()).build::<Comp>();

    assert!(w.get_system(SPATIAL).is_some());
    assert!(w.get_system(VELSYS).is_none());

    let w = WorldBuilder::new()
        .with_system(spatial_system())
        .with_system(velocity_system())
        .build::<Comp>();

    assert!(w.get_system(SPATIAL).is_some());
    assert!(w.get_system(VELSYS).is_some());
}

#[test]
fn component_system_operations() {
    let mut w = WorldBuilder::new()
        .with_system(spatial_system())
        .with_system(velocity_system())
        .build::<Comp>();

    let e1 = w.create_entity();
    w.add_component(e1, POSITION, Comp::Pos(0.0, 0.0, 0.0));
    w.add_component(e1, VELOCITY, Comp::Vel(0.0, 0.0, 0.0));
    w.apply(e1);

    assert_eq!(w.get_system(SPATIAL).unwrap().entity_list().len(), 1);
    assert_eq!(w.get_system(SPATIAL).unwrap().has_entity(e1), true);
    assert_eq!(w.get_system(VELSYS).unwrap().entity_list().len(), 1);
    assert_eq!(w.get_system(VELSYS).unwrap().has_entity(e1), true);

    w.remove_component(e1, VELOCITY);
    w.apply(e1);

    assert_eq!(w.get_system(SPATIAL).unwrap().entity_list().len(), 1);
    assert_eq!(w.get_system(SPATIAL).unwrap().has_entity(e1), true);
    assert_eq!(w.get_system(VELSYS).unwrap().entity_list().len(), 0);
    assert_eq!(w.get_system(VELSYS).unwrap().has_entity(e1), false);

    w.destroy_entity(e1);

    assert_eq!(w.get_system(SPATIAL).unwrap().has_entity(e1), true);
    assert_eq!(w.get_system(VELSYS).unwrap().has_entity(e1), false);

    w.process();

    assert_eq!(w.get_system(SPATIAL).unwrap().has_entity(e1), false);

    w.process();
}
