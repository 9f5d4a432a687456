use std::any::{Any, TypeId};

use katabatic_ecs::data::Data;
use katabatic_ecs::entity::Entity;
use katabatic_ecs::world::World;

#[derive(Clone, Debug, PartialEq)]
struct Position {
    x: f32,
    y: f32,
}

#[derive(Clone, Debug, PartialEq)]
struct Velocity {
    dx: f32,
    dy: f32,
}

fn record<C: Any>(name: &str, component: C) -> Data<Box<dyn Any>> {
    Data::new(TypeId::of::<C>(), name.to_string(), Box::new(component))
}

fn position(b: &Box<dyn Any>) -> &Position {
    b.downcast_ref::<Position>().unwrap()
}

fn velocity(b: &Box<dyn Any>) -> &Velocity {
    b.downcast_ref::<Velocity>().unwrap()
}

#[test]
fn query() {
    let mut world = World::new();
    let entity1 = world.create_entity().unwrap();
    let entity2 = world.create_entity().unwrap();
    let _entity3 = world.create_entity().unwrap();

    world.insert_component(entity1, record("Position", Position { x: 1.0, y: 2.0 }));
    world.insert_component(entity2, record("Position", Position { x: 3.0, y: 4.0 }));
    world.insert_component(entity2, record("Velocity", Velocity { dx: 5.0, dy: 6.0 }));

    let query = world.query(TypeId::of::<Position>());

    let positions: Vec<_> = query.iter(&world);
    assert_eq!(positions.len(), 2);
    assert_eq!(position(query.get(&world, entity1).unwrap()).x, 1.0);
    assert_eq!(position(query.get(&world, entity1).unwrap()).y, 2.0);
    assert_eq!(position(query.get(&world, entity2).unwrap()).x, 3.0);
    assert_eq!(position(query.get(&world, entity2).unwrap()).y, 4.0);

    let query = world.query(TypeId::of::<Velocity>());

    let velocities: Vec<_> = query.iter(&world);
    assert_eq!(velocities.len(), 1);
    assert_eq!(velocity(query.get(&world, entity2).unwrap()).dx, 5.0);
    assert_eq!(velocity(query.get(&world, entity2).unwrap()).dy, 6.0);
}

#[test]
fn scenario_three_entities_and_migration() {
    let mut world = World::new();
    let a = world.create_entity().unwrap();
    let b = world.create_entity().unwrap();
    let _c = world.create_entity().unwrap();
    world.insert_component(a, record("Position", Position { x: 1.0, y: 2.0 }));
    world.insert_component(b, record("Position", Position { x: 3.0, y: 4.0 }));
    world.insert_component(b, record("Velocity", Velocity { dx: 5.0, dy: 6.0 }));

    let positions = world.query(TypeId::of::<Position>());
    assert_eq!(positions.entity_iter(), vec![a, b]);
    let xs: Vec<f32> = positions.iter(&world).iter().map(|p| position(p).x).collect();
    assert_eq!(xs, vec![1.0, 3.0]);

    let velocities = world.query(TypeId::of::<Velocity>());
    assert_eq!(velocities.entity_iter(), vec![b]);
    assert_eq!(velocity(velocities.iter(&world)[0]).dx, 5.0);

    world.remove_component(b, TypeId::of::<Position>());
    assert!(world.has_component(b, TypeId::of::<Velocity>()));
    assert!(!world.has_component(b, TypeId::of::<Position>()));
    assert_eq!(world.query(TypeId::of::<Position>()).entity_iter(), vec![a]);
    assert_eq!(world.query(TypeId::of::<Velocity>()).entity_iter(), vec![b]);
}

#[test]
fn snapshot_ignores_later_changes() {
    let mut world = World::new();
    let a = world.create_entity().unwrap();
    let b = world.create_entity().unwrap();
    world.insert_component(a, record("Position", Position { x: 1.0, y: 0.0 }));
    world.insert_component(b, record("Position", Position { x: 2.0, y: 0.0 }));
    let query = world.query(TypeId::of::<Position>());

    let c = world.create_entity().unwrap();
    world.insert_component(c, record("Position", Position { x: 3.0, y: 0.0 }));
    world.destroy_entity(a);

    let xs: Vec<f32> = query.iter(&world).iter().map(|p| position(p).x).collect();
    assert_eq!(xs, vec![2.0]);
    assert!(query.get(&world, c).is_none());
    assert!(query.get(&world, a).is_none());
    assert_eq!(query.entity_iter(), vec![a, b]);
}

#[test]
fn query_get_mut_writes_listed_entities_only() {
    let mut world = World::new();
    let a = world.create_entity().unwrap();
    let b = world.create_entity().unwrap();
    world.insert_component(a, record("Position", Position { x: 1.0, y: 0.0 }));
    let query = world.query(TypeId::of::<Position>());
    world.insert_component(b, record("Position", Position { x: 2.0, y: 0.0 }));

    if let Some(p) = query.get_mut(&mut world, a) {
        p.downcast_mut::<Position>().unwrap().x = 10.0;
    }
    assert!(query.get_mut(&mut world, b).is_none());
    assert_eq!(world.get_component(a, TypeId::of::<Position>()).map(|p| position(p).x), Some(10.0));
    assert_eq!(world.get_component(b, TypeId::of::<Position>()).map(|p| position(p).x), Some(2.0));
}

#[test]
fn recycling_bumps_generation() {
    let mut world: World<Box<dyn Any>> = World::new();
    let a = world.create_entity().unwrap();
    let b = world.create_entity().unwrap();
    assert_eq!((a.id(), a.generation()), (0, 0));
    assert_eq!((b.id(), b.generation()), (1, 0));

    world.destroy_entity(a);
    let c = world.create_entity().unwrap();
    assert_eq!((c.id(), c.generation()), (0, 1));
    assert_ne!(c, a);

    let d = world.create_entity().unwrap();
    assert_eq!((d.id(), d.generation()), (2, 0));
}

#[test]
fn destroying_twice_or_stale_does_not_duplicate() {
    let mut world: World<Box<dyn Any>> = World::new();
    let a = world.create_entity().unwrap();
    world.destroy_entity(a);
    world.destroy_entity(a);
    let b = world.create_entity().unwrap();
    let c = world.create_entity().unwrap();
    assert_eq!((b.id(), b.generation()), (0, 1));
    assert_eq!((c.id(), c.generation()), (1, 0));
    assert!(world.is_live(b));
    assert!(!world.is_live(a));
}

#[test]
fn destroyed_entity_has_nothing() {
    let mut world = World::new();
    let a = world.create_entity().unwrap();
    world.insert_component(a, record("Position", Position { x: 1.0, y: 1.0 }));
    world.insert_component(a, record("Velocity", Velocity { dx: 1.0, dy: 1.0 }));
    world.destroy_entity(a);
    assert!(world.get_component(a, TypeId::of::<Position>()).is_none());
    assert!(world.get_component(a, TypeId::of::<Velocity>()).is_none());
    assert!(!world.has_component(a, TypeId::of::<Position>()));
    assert!(world.storage().entity_iter().is_empty());
}

#[test]
fn stale_entity_gets_no_components() {
    let mut world = World::new();
    let a = world.create_entity().unwrap();
    world.destroy_entity(a);
    let b = world.create_entity().unwrap();
    world.insert_component(a, record("Position", Position { x: 1.0, y: 1.0 }));
    assert!(!world.has_component(a, TypeId::of::<Position>()));
    assert!(!world.has_component(b, TypeId::of::<Position>()));
    world.insert_component(b, record("Position", Position { x: 2.0, y: 1.0 }));
    assert!(world.get_component(a, TypeId::of::<Position>()).is_none());
    assert_eq!(world.get_component(b, TypeId::of::<Position>()).map(|p| position(p).x), Some(2.0));
}

#[test]
fn insert_then_get_round_trip() {
    let mut world = World::new();
    let a = world.create_entity().unwrap();
    world.insert_component(a, record("Position", Position { x: 9.0, y: -1.0 }));
    assert_eq!(
        world.get_component(a, TypeId::of::<Position>()).map(|p| position(p).clone()),
        Some(Position { x: 9.0, y: -1.0 })
    );
}

#[test]
fn remove_missing_type_is_a_no_op() {
    let mut world = World::new();
    let a = world.create_entity().unwrap();
    world.insert_component(a, record("Position", Position { x: 1.0, y: 1.0 }));
    assert!(world.remove_component(a, TypeId::of::<Velocity>()).is_none());
    assert_eq!(world.get_component(a, TypeId::of::<Position>()).map(|p| position(p).x), Some(1.0));
}

#[test]
fn types_follow_inserts_and_removes() {
    let mut world = World::new();
    let a = world.create_entity().unwrap();
    world.insert_component(a, record("Position", Position { x: 1.0, y: 1.0 }));
    world.insert_component(a, record("Velocity", Velocity { dx: 1.0, dy: 1.0 }));
    world.remove_component(a, TypeId::of::<Position>());
    world.insert_component(a, record("u8", 3u8));
    world.remove_component(a, TypeId::of::<Velocity>());
    assert!(!world.has_component(a, TypeId::of::<Position>()));
    assert!(!world.has_component(a, TypeId::of::<Velocity>()));
    assert!(world.has_component(a, TypeId::of::<u8>()));
    world.remove_component(a, TypeId::of::<u8>());
    assert!(world.storage().entity_iter().is_empty());
}

#[test]
fn component_mut_through_world() {
    let mut world = World::new();
    let a: Entity = world.create_entity().unwrap();
    world.insert_component(a, record("Velocity", Velocity { dx: 1.0, dy: 1.0 }));
    if let Some(v) = world.get_component_mut(a, TypeId::of::<Velocity>()) {
        v.downcast_mut::<Velocity>().unwrap().dy = 4.0;
    }
    assert_eq!(world.get_component(a, TypeId::of::<Velocity>()).map(|v| velocity(v).dy), Some(4.0));
}
