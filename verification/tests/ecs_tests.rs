use engine_core::component::ComponentStorage;
use engine_core::entity::Entity;
use engine_core::entity::EntityId;
use engine_core::world::World;

#[test]
fn entity_basics() {
    let id = EntityId::new(7);
    assert_eq!(id.idx(), 7);
    let e = Entity::new(id).with_name("camera");
    assert_eq!(e.id, id);
    assert_eq!(e.name, "camera");
    assert!(e.act);
    assert!(e.prt.is_none());
    assert!(e.chd.is_empty());
}

#[test]
fn child_links_dedupe_and_remove() {
    let mut e = Entity::new(EntityId::new(1));
    e.add_chd(EntityId::new(2));
    e.add_chd(EntityId::new(3));
    e.add_chd(EntityId::new(2));
    assert_eq!(e.chd, vec![EntityId::new(2), EntityId::new(3)]);
    e.del_chd(EntityId::new(2));
    assert_eq!(e.chd, vec![EntityId::new(3)]);
    e.del_chd(EntityId::new(9));
    assert_eq!(e.chd, vec![EntityId::new(3)]);
}

#[test]
fn spawn_assigns_fresh_ids() {
    let mut w = World::new();
    let a = w.spawn();
    let b = w.spawn_named("player");
    assert_ne!(a, b);
    assert_eq!(w.cnt(), 2);
    assert_eq!(w.get(b).expect("live").name, "player");
    assert!(w.get(EntityId::new(999)).is_none());
    let ids = w.entity_ids();
    assert_eq!(ids.len(), 2);
    assert!(ids.contains(&a) && ids.contains(&b));
}

#[test]
fn despawn_removes_subtrees() {
    let mut w = World::new();
    let root = w.spawn();
    let kid = w.spawn();
    let grandkid = w.spawn();
    let bystander = w.spawn();
    w.set_prt(kid, Some(root));
    w.set_prt(grandkid, Some(kid));
    assert!(w.despawn(kid));
    assert!(w.get(kid).is_none());
    assert!(w.get(grandkid).is_none());
    assert!(w.get(root).is_some());
    assert!(w.get(bystander).is_some());
    // the parent no longer lists the despawned child
    assert!(!w.get(root).unwrap().chd.contains(&kid));
    assert!(!w.despawn(kid));
    assert_eq!(w.cnt(), 2);
}

#[test]
fn reparenting_moves_child_links() {
    let mut w = World::new();
    let a = w.spawn();
    let b = w.spawn();
    let c = w.spawn();
    w.set_prt(c, Some(a));
    assert_eq!(w.get(c).unwrap().prt, Some(a));
    assert!(w.get(a).unwrap().chd.contains(&c));
    w.set_prt(c, Some(b));
    assert_eq!(w.get(c).unwrap().prt, Some(b));
    assert!(!w.get(a).unwrap().chd.contains(&c));
    assert!(w.get(b).unwrap().chd.contains(&c));
    w.set_prt(c, None);
    assert_eq!(w.get(c).unwrap().prt, None);
}

#[test]
fn clear_resets_the_registry() {
    let mut w = World::new();
    w.spawn();
    w.spawn();
    w.clr();
    assert_eq!(w.cnt(), 0);
    let again = w.spawn();
    assert_eq!(again.idx(), 1);
}

const POSITION: u32 = 0;
const HEALTH: u32 = 1;

#[test]
fn component_storage_round_trip() {
    let mut cs: ComponentStorage<i64> = ComponentStorage::new();
    let e1 = EntityId::new(1);
    let e2 = EntityId::new(2);
    cs.add(e1, POSITION, 10);
    cs.add(e1, HEALTH, 100);
    cs.add(e2, POSITION, 20);
    assert!(cs.has(e1, POSITION));
    assert_eq!(cs.get(e1, POSITION), Some(&10));
    assert_eq!(cs.get(e2, HEALTH), None);
    // replacing in place
    cs.add(e1, POSITION, 11);
    assert_eq!(cs.get(e1, POSITION), Some(&11));
    // in-place mutation
    if let Some(v) = cs.get_mut(e2, POSITION) {
        *v += 5;
    }
    assert_eq!(cs.get(e2, POSITION), Some(&25));
    // detach one
    assert_eq!(cs.del(e1, HEALTH), Some(100));
    assert!(!cs.has(e1, HEALTH));
    assert_eq!(cs.del(e1, HEALTH), None);
}

#[test]
fn del_all_and_entities_with() {
    let mut cs: ComponentStorage<&'static str> = ComponentStorage::new();
    let e1 = EntityId::new(1);
    let e2 = EntityId::new(2);
    let e3 = EntityId::new(3);
    cs.add(e1, POSITION, "a");
    cs.add(e2, POSITION, "b");
    cs.add(e2, HEALTH, "c");
    cs.add(e3, HEALTH, "d");
    let with_pos = cs.entities_with(POSITION);
    assert_eq!(with_pos.len(), 2);
    assert!(with_pos.contains(&e1) && with_pos.contains(&e2));
    cs.del_all(e2);
    assert!(!cs.has(e2, POSITION));
    assert!(!cs.has(e2, HEALTH));
    assert_eq!(cs.get(e1, POSITION), Some(&"a"));
    assert_eq!(cs.get(e3, HEALTH), Some(&"d"));
    assert_eq!(cs.entities_with(POSITION), vec![e1]);
}
