use ecs_game::ecs::component::{Component, ComponentStorage, VecStorage};
use ecs_game::ecs::entity::{Entity, EntityBuilder, EntityId, EntityManager};
use ecs_game::ecs::query::{EntityComponentQuery, Query};
use ecs_game::ecs::system::{phases_in_order, priority_slot, SystemPhase, SystemPriority};

#[derive(Debug, Clone, PartialEq)]
struct Health(i32);

impl Component for Health {
    fn name() -> &'static str {
        "Health"
    }
}

#[test]
fn entities_are_born_alive_and_die() {
    let mut manager = EntityManager::new();
    assert_eq!(manager.entity_count(), 0);
    let a = manager.create_entity();
    let b = manager.create_entity();
    assert_eq!(a.generation(), 0);
    assert!(manager.is_alive(a));
    assert!(manager.is_alive(b));
    assert_eq!(manager.entity_count(), 2);
    manager.destroy_entity(a);
    assert!(!manager.is_alive(a));
    assert!(manager.is_alive(b));
    assert_eq!(manager.entity_count(), 1);
    manager.destroy_entity(a);
    assert_eq!(manager.entity_count(), 1);
    assert!(!manager.is_alive(Entity::new()));
}

#[test]
fn builder_hands_out_its_entity() {
    let e = EntityBuilder::new().build();
    assert_eq!(e.generation(), 0);
    assert_eq!(e.id(), e.id());
    assert_ne!(EntityId::new(), EntityId::new());
}

#[test]
fn storage_reads_back_what_was_written() {
    let mut storage: VecStorage<Health> = VecStorage::new();
    let a = EntityId::new();
    let b = EntityId::new();
    assert_eq!(storage.insert(a, Health(10)), None);
    assert_eq!(storage.insert(b, Health(20)), None);
    assert_eq!(storage.get(a), Some(&Health(10)));
    assert_eq!(storage.insert(a, Health(11)), Some(Health(10)));
    assert_eq!(storage.get(a), Some(&Health(11)));
    storage.get_mut(b).unwrap().0 = 25;
    assert_eq!(storage.get(b), Some(&Health(25)));
    assert!(storage.get_mut(EntityId::new()).is_none());
    assert!(storage.has(a) && storage.has(b));
}

#[test]
fn storage_remove_keeps_the_others() {
    let mut storage: VecStorage<Health> = VecStorage::new();
    let ids: Vec<EntityId> = (0..5).map(|_| EntityId::new()).collect();
    for (k, id) in ids.iter().enumerate() {
        storage.insert(*id, Health(k as i32));
    }
    assert!(storage.remove(ids[1]));
    assert!(!storage.remove(ids[1]));
    assert!(!storage.has(ids[1]));
    assert_eq!(storage.get(ids[1]), None);
    for k in [0usize, 2, 3, 4] {
        assert_eq!(storage.get(ids[k]), Some(&Health(k as i32)));
    }
    let listed = storage.entity_ids();
    assert_eq!(listed.len(), 4);
    // the last slot moved into the freed one
    assert_eq!(listed, vec![ids[0], ids[4], ids[2], ids[3]]);
    storage.clear();
    assert!(storage.entity_ids().is_empty());
    assert!(!storage.has(ids[0]));
}

#[test]
fn queries_collect_entities_in_order() {
    let mut q: Query<Health> = Query::new();
    assert!(q.is_empty());
    let a = Entity::new();
    let b = Entity::new();
    let c = Entity::new();
    q.add_entity(a);
    q.add_entity(b);
    q.add_entity(c);
    assert_eq!(q.len(), 3);
    let mut storage: VecStorage<Health> = VecStorage::new();
    storage.insert(a.id(), Health(5));
    storage.insert(b.id(), Health(0));
    storage.insert(c.id(), Health(7));
    q.filter(&storage, |_, h: &Health| h.0 > 0);
    assert_eq!(q.entities(), vec![a, c]);
    q.filter(&storage, |_, _| false);
    assert!(q.is_empty());

    let mut eq: EntityComponentQuery<Health> = EntityComponentQuery::new();
    let d = Entity::new();
    eq.add_entity(b);
    eq.add_entity(d);
    eq.filter(&storage, |_, _| true).add_entity(a);
    assert_eq!(eq.len(), 2);
    assert!(!eq.is_empty());
    assert_eq!(eq.entities(), vec![b, a]);
}

#[test]
fn system_priorities_and_phases() {
    assert_eq!(SystemPriority::new(5).0, 5);
    assert_eq!(SystemPriority::default(), SystemPriority(0));
    assert_eq!(
        phases_in_order(),
        vec![SystemPhase::Init, SystemPhase::Input, SystemPhase::Update, SystemPhase::Render, SystemPhase::Shutdown]
    );
    let prios = vec![1u32, 3, 3, 7];
    assert_eq!(priority_slot(&prios, SystemPriority(0)), 0);
    assert_eq!(priority_slot(&prios, SystemPriority(2)), 1);
    let at3 = priority_slot(&prios, SystemPriority(3));
    assert!(at3 == 1 || at3 == 2);
    assert_eq!(priority_slot(&prios, SystemPriority(5)), 3);
    assert_eq!(priority_slot(&prios, SystemPriority(9)), 4);
    assert_eq!(priority_slot(&vec![], SystemPriority(4)), 0);
}

#[test]
fn init_does_nothing() {
    ecs_game::ecs::init();
}
