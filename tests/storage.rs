use std::any::{Any, TypeId};

use katabatic_ecs::archetype::Archetype;
use katabatic_ecs::data::Data;
use katabatic_ecs::entity::Entity;
use katabatic_ecs::sparse_set::SparseSet;
use katabatic_ecs::storage::Storage;

#[derive(Debug, PartialEq, Clone)]
struct Position {
    x: f32,
    y: f32,
}

#[derive(Debug, PartialEq, Clone)]
struct Velocity {
    dx: f32,
    dy: f32,
}

#[derive(Debug, PartialEq, Clone)]
struct Acceleration {
    ddx: f32,
    ddy: f32,
}

fn record<C: Any>(name: &str, component: C) -> Data<Box<dyn Any>> {
    Data::new(TypeId::of::<C>(), name.to_string(), Box::new(component))
}

fn component<C: Any>(storage: &Storage<Box<dyn Any>>, entity: Entity) -> Option<&C> {
    storage
        .get_component(entity, TypeId::of::<C>())
        .map(|b| b.downcast_ref::<C>().unwrap())
}

fn two_components(storage: &mut Storage<Box<dyn Any>>, entity: Entity) {
    storage.insert_component(entity, record("Position", Position { x: 0.0, y: 0.0 }));
    storage.insert_component(entity, record("Velocity", Velocity { dx: 1.0, dy: 1.0 }));
}

#[test]
fn test_insert_component() {
    let mut storage = Storage::new();
    let entity = Entity::new(0, 0);
    two_components(&mut storage, entity);

    assert_eq!(component::<Position>(&storage, entity).map(|data| data.x), Some(0.0));
    assert_eq!(component::<Velocity>(&storage, entity).map(|data| data.dx), Some(1.0));
}

#[test]
fn test_remove_component() {
    let mut storage = Storage::new();
    let entity = Entity::new(0, 0);
    two_components(&mut storage, entity);

    assert_eq!(component::<Position>(&storage, entity).map(|data| data.x), Some(0.0));
    assert_eq!(component::<Velocity>(&storage, entity).map(|data| data.dx), Some(1.0));

    storage.remove_component(entity, TypeId::of::<Position>());

    assert_eq!(component::<Position>(&storage, entity), None);
    assert_eq!(component::<Velocity>(&storage, entity).map(|data| data.dx), Some(1.0));
}

#[test]
fn test_remove_entity() {
    let mut storage = Storage::new();
    let entity = Entity::new(0, 0);
    two_components(&mut storage, entity);

    assert_eq!(component::<Position>(&storage, entity).map(|data| data.x), Some(0.0));
    assert_eq!(component::<Velocity>(&storage, entity).map(|data| data.dx), Some(1.0));

    let data = storage.remove_entity(entity).unwrap();

    assert_eq!(data.len(), 2);
    assert_eq!(
        data[0]
            .downcast_ref(TypeId::of::<Position>())
            .and_then(|b| b.downcast_ref::<Position>()),
        Some(&Position { x: 0.0, y: 0.0 })
    );
    assert_eq!(
        data[1]
            .downcast_ref(TypeId::of::<Velocity>())
            .and_then(|b| b.downcast_ref::<Velocity>()),
        Some(&Velocity { dx: 1.0, dy: 1.0 })
    );

    assert_eq!(component::<Position>(&storage, entity), None);
    assert_eq!(component::<Velocity>(&storage, entity), None);
}

#[test]
fn test_get() {
    let mut storage = Storage::new();
    let entity = Entity::new(0, 0);
    two_components(&mut storage, entity);

    assert_eq!(component::<Position>(&storage, entity).map(|data| data.x), Some(0.0));
    assert_eq!(component::<Velocity>(&storage, entity).map(|data| data.dx), Some(1.0));
    assert_eq!(component::<Acceleration>(&storage, entity), None);
}

#[test]
fn test_contains() {
    let mut storage = Storage::new();
    let entity = Entity::new(0, 0);
    two_components(&mut storage, entity);

    assert!(storage.has_component(entity, TypeId::of::<Position>()));
    assert!(storage.has_component(entity, TypeId::of::<Velocity>()));
    assert!(!storage.has_component(entity, TypeId::of::<Acceleration>()));
}

#[test]
fn reinsert_overwrites_in_place() {
    let mut storage = Storage::new();
    let entity = Entity::new(3, 1);
    two_components(&mut storage, entity);
    storage.insert_component(entity, record("Position", Position { x: 7.0, y: 8.0 }));

    assert_eq!(component::<Position>(&storage, entity), Some(&Position { x: 7.0, y: 8.0 }));
    assert_eq!(component::<Velocity>(&storage, entity).map(|v| v.dx), Some(1.0));
    let data = storage.remove_entity(entity).unwrap();
    assert_eq!(data.len(), 2);
}

#[test]
fn removing_a_missing_type_changes_nothing() {
    let mut storage = Storage::new();
    let entity = Entity::new(0, 0);
    two_components(&mut storage, entity);

    assert!(storage.remove_component(entity, TypeId::of::<Acceleration>()).is_none());
    assert!(storage.remove_component(Entity::new(9, 0), TypeId::of::<Position>()).is_none());
    assert_eq!(component::<Position>(&storage, entity).map(|p| p.x), Some(0.0));
    assert_eq!(component::<Velocity>(&storage, entity).map(|v| v.dx), Some(1.0));
}

#[test]
fn removed_record_is_returned() {
    let mut storage = Storage::new();
    let entity = Entity::new(0, 0);
    two_components(&mut storage, entity);

    let removed = storage.remove_component(entity, TypeId::of::<Velocity>()).unwrap();
    assert!(removed.is(TypeId::of::<Velocity>()));
    assert_eq!(removed.name(), "Velocity");
    assert_eq!(removed.into_data().downcast::<Velocity>().ok().map(|v| v.dx), Some(1.0));
}

#[test]
fn last_component_removed_untracks_entity() {
    let mut storage = Storage::new();
    let entity = Entity::new(0, 0);
    storage.insert_component(entity, record("Position", Position { x: 1.0, y: 1.0 }));
    assert_eq!(storage.entity_iter(), vec![entity]);

    storage.remove_component(entity, TypeId::of::<Position>());
    assert!(storage.entity_iter().is_empty());
    assert!(storage.remove_entity(entity).is_none());
}

#[test]
fn stale_entity_is_refused() {
    let mut storage = Storage::new();
    let live = Entity::new(0, 1);
    let stale = Entity::new(0, 0);
    storage.insert_component(live, record("Position", Position { x: 1.0, y: 1.0 }));
    storage.insert_component(stale, record("Velocity", Velocity { dx: 2.0, dy: 2.0 }));

    assert_eq!(component::<Velocity>(&storage, stale), None);
    assert_eq!(component::<Velocity>(&storage, live), None);
    assert_eq!(component::<Position>(&storage, stale), None);
    assert_eq!(storage.entity_iter(), vec![live]);
}

#[test]
fn entities_share_archetypes_and_survive_deletions() {
    let mut storage = Storage::new();
    let a = Entity::new(0, 0);
    let b = Entity::new(1, 0);
    let c = Entity::new(2, 0);
    storage.insert_component(a, record("Position", Position { x: 1.0, y: 0.0 }));
    storage.insert_component(b, record("Position", Position { x: 2.0, y: 0.0 }));
    storage.insert_component(c, record("Velocity", Velocity { dx: 3.0, dy: 0.0 }));
    storage.insert_component(b, record("Velocity", Velocity { dx: 4.0, dy: 0.0 }));
    storage.remove_entity(a);
    storage.remove_component(c, TypeId::of::<Velocity>());

    assert_eq!(component::<Position>(&storage, a), None);
    assert_eq!(component::<Position>(&storage, b).map(|p| p.x), Some(2.0));
    assert_eq!(component::<Velocity>(&storage, b).map(|v| v.dx), Some(4.0));
    assert_eq!(storage.entity_iter(), vec![b]);
}

#[test]
fn component_mut_writes_through() {
    let mut storage = Storage::new();
    let entity = Entity::new(0, 0);
    two_components(&mut storage, entity);
    if let Some(b) = storage.get_component_mut(entity, TypeId::of::<Position>()) {
        b.downcast_mut::<Position>().unwrap().x = 5.0;
    }
    assert_eq!(component::<Position>(&storage, entity).map(|p| p.x), Some(5.0));
    assert!(storage.get_component_mut(entity, TypeId::of::<Acceleration>()).is_none());
}

#[test]
fn get_data_checks_the_tag() {
    let mut storage = Storage::new();
    let entity = Entity::new(0, 0);
    two_components(&mut storage, entity);
    let data = storage.get_data(entity, TypeId::of::<Velocity>()).unwrap();
    assert_eq!(data.type_id(), TypeId::of::<Velocity>());
    assert!(data.downcast_ref(TypeId::of::<Position>()).is_none());
}

#[test]
fn sparse_set_swap_removes() {
    let mut set: SparseSet<u32> = SparseSet::new();
    assert!(set.is_empty());
    set.insert(5, Data::new(TypeId::of::<u32>(), "u32".to_string(), 50));
    set.insert(2, Data::new(TypeId::of::<u32>(), "u32".to_string(), 20));
    set.insert(9, Data::new(TypeId::of::<u32>(), "u32".to_string(), 90));
    assert_eq!(set.len(), 3);
    assert_eq!(set.indices(), &[5, 2, 9]);
    assert_eq!(set.dense_index_of(2), Some(1));

    let removed = set.remove(5).unwrap();
    assert_eq!(*removed.get_data(), 50);
    assert_eq!(set.indices(), &[9, 2]);
    assert_eq!(set.dense_index_of(9), Some(0));
    assert_eq!(set.get(9).map(|d| *d.get_data()), Some(90));
    assert!(set.get(5).is_none());
    assert!(!set.contains(5));
    assert!(set.remove(5).is_none());
    assert!(set.remove(1000).is_none());

    set.insert(2, Data::new(TypeId::of::<u32>(), "u32".to_string(), 21));
    assert_eq!(set.len(), 2);
    assert_eq!(set.iter().iter().map(|d| *d.get_data()).collect::<Vec<_>>(), vec![90, 21]);
    if let Some(d) = set.get_mut(9) {
        d.set_data(91);
    }
    assert_eq!(set.get(9).map(|d| *d.get_data()), Some(91));

    set.clear();
    assert!(set.is_empty());
    assert!(!set.contains(9));
}

#[test]
fn data_tags_its_payload() {
    let mut data = Data::new(TypeId::of::<u8>(), "u8".to_string(), 7u8);
    assert!(data.is(TypeId::of::<u8>()));
    assert!(!data.is(TypeId::of::<u16>()));
    assert_eq!(data.name(), "u8");
    assert_eq!(data.downcast_ref(TypeId::of::<u8>()), Some(&7));
    assert_eq!(data.downcast_ref(TypeId::of::<u16>()), None);
    *data.downcast_mut(TypeId::of::<u8>()).unwrap() = 8;
    assert!(data.downcast_mut(TypeId::of::<u16>()).is_none());
    *data.get_data_mut() += 1;
    assert_eq!(data.into_data(), 9);
}

#[test]
fn entity_parts() {
    let e = Entity::new(4, 2);
    assert_eq!(e.id(), 4);
    assert_eq!(e.generation(), 2);
    assert_ne!(e, Entity::new(4, 3));
    assert_eq!(e, Entity::new(4, 2));
}

#[test]
fn data_mut_and_type_check() {
    let mut storage = Storage::new();
    let entity = Entity::new(0, 0);
    two_components(&mut storage, entity);
    assert!(storage.has_component_by_type_id(entity, TypeId::of::<Velocity>()));
    assert!(!storage.has_component_by_type_id(entity, TypeId::of::<Acceleration>()));
    assert!(!storage.has_component_by_type_id(Entity::new(0, 1), TypeId::of::<Velocity>()));
    if let Some(d) = storage.get_data_mut(entity, TypeId::of::<Velocity>()) {
        d.set_data(Box::new(Velocity { dx: 2.0, dy: 3.0 }));
    }
    assert_eq!(component::<Velocity>(&storage, entity), Some(&Velocity { dx: 2.0, dy: 3.0 }));
    assert!(storage.get_data_mut(entity, TypeId::of::<Acceleration>()).is_none());
}

#[test]
fn sparse_set_iter_mut_and_archetype_len() {
    let mut set: SparseSet<u32> = SparseSet::new();
    set.insert(1, Data::new(TypeId::of::<u32>(), "u32".to_string(), 10));
    set.insert(4, Data::new(TypeId::of::<u32>(), "u32".to_string(), 40));
    for d in set.iter_mut() {
        let v = *d.get_data();
        d.set_data(v + 1);
    }
    assert_eq!(set.get(4).map(|d| *d.get_data()), Some(41));

    let mut archetype: Archetype<u32> = Archetype::new();
    archetype.insert(3, Data::new(TypeId::of::<u32>(), "u32".to_string(), 1));
    archetype.insert(3, Data::new(TypeId::of::<u8>(), "u8".to_string(), 2));
    archetype.insert(5, Data::new(TypeId::of::<u32>(), "u32".to_string(), 3));
    archetype.insert(5, Data::new(TypeId::of::<u8>(), "u8".to_string(), 4));
    assert_eq!(archetype.len(), 2);
    assert!(archetype.contains_entity(5));
    let row = archetype.remove(3);
    assert_eq!(row.iter().map(|d| *d.get_data()).collect::<Vec<_>>(), vec![1, 2]);
    assert_eq!(archetype.len(), 1);
    assert!(archetype.exclusively_contains_types(&[TypeId::of::<u8>(), TypeId::of::<u32>()]));
    assert!(!archetype.exclusively_contains_types(&[TypeId::of::<u8>()]));
}
