use winny::ecs::entity::{ArchId, ArchRow, Entities, Entity, MetaLocation, TableId, TableRow};

fn spawn_at_row(entities: &mut Entities, row: usize) -> Entity {
    entities.spawn(TableId(0), ArchId(0), TableRow(row), ArchRow(row))
}

#[test]
fn all_entity_mutations() {
    let mut entities = Entities::new();
    let e2 = spawn_at_row(&mut entities, 0);
    let e = spawn_at_row(&mut entities, 1);

    entities.despawn(e2);

    assert!(!entities.is_valid(e2));
    assert!(entities.is_valid(e));
    assert_eq!(entities.len(), 2);
}

#[test]
fn entity_handle_holds_generation_and_index() {
    let e = Entity::new(3, 7);
    assert_eq!(e.generation(), 3);
    assert_eq!(e.index(), 7);
    let top = Entity::new(u32::MAX, u32::MAX);
    assert_eq!(top.generation(), u32::MAX);
    assert_eq!(top.index(), u32::MAX as usize);
    assert_ne!(Entity::new(1, 2), Entity::new(2, 1));
}

#[test]
fn fresh_spawns_take_new_slots() {
    let mut entities = Entities::default();
    assert!(entities.is_empty());
    let a = spawn_at_row(&mut entities, 0);
    let b = spawn_at_row(&mut entities, 1);
    assert_eq!((a.generation(), a.index()), (0, 0));
    assert_eq!((b.generation(), b.index()), (0, 1));
    assert!(entities.is_valid(a) && entities.is_valid(b));
    assert_eq!(entities.meta(b).unwrap().location.table_row, TableRow(1));
    assert_eq!(entities.len(), 2);
}

#[test]
fn despawned_entity_has_no_meta() {
    let mut entities = Entities::new();
    let a = spawn_at_row(&mut entities, 0);
    entities.despawn(a);
    assert!(entities.meta(a).is_none());
    let slot = entities.meta_maybe_free(a).unwrap();
    assert!(slot.free);
    assert_eq!(slot.generation, 0);
}

#[test]
fn spawn_reuses_the_last_freed_slot() {
    let mut entities = Entities::new();
    let a = spawn_at_row(&mut entities, 0);
    let b = spawn_at_row(&mut entities, 1);
    entities.despawn(a);
    entities.despawn(b);
    let c = spawn_at_row(&mut entities, 5);
    assert_eq!(c.index(), 1);
    // The handle carries the slot's old generation while the slot moved on.
    assert_eq!(c.generation(), 0);
    assert_eq!(entities.meta_maybe_free(c).unwrap().generation, 1);
    assert!(!entities.is_valid(c));
    assert!(!entities.is_valid(b));
    assert_eq!(entities.len(), 2);
}

#[test]
fn reserve_counts_past_the_end_then_spawn_at_fills_it() {
    let mut entities = Entities::new();
    let r0 = entities.reserve();
    let r1 = entities.reserve();
    assert_eq!((r0.generation(), r0.index()), (0, 0));
    assert_eq!((r1.generation(), r1.index()), (0, 1));
    assert!(!entities.is_valid(r1));
    assert!(entities.meta(r1).is_none());
    entities.spawn_at(r1.generation(), r1, TableId(2), ArchId(3), TableRow(4), ArchRow(5));
    assert!(entities.is_valid(r1));
    assert!(!entities.is_valid(r0));
    assert_eq!(entities.len(), 2);
    assert!(entities.meta_maybe_free(r0).is_none());
    let m = entities.meta(r1).unwrap();
    assert_eq!(m.location.table_id, TableId(2));
    assert_eq!(m.location.archetype_id, ArchId(3));
    assert_eq!(m.location.arch_row, ArchRow(5));
}

#[test]
fn reserve_reuses_a_freed_slot_with_the_next_generation() {
    let mut entities = Entities::new();
    let a = spawn_at_row(&mut entities, 0);
    entities.despawn(a);
    let r = entities.reserve();
    assert_eq!((r.generation(), r.index()), (1, 0));
    assert!(!entities.is_valid(r));
    assert!(entities.meta(r).is_none());
    entities.spawn_at(r.generation(), r, TableId(0), ArchId(0), TableRow(9), ArchRow(9));
    assert!(entities.is_valid(r));
    assert!(!entities.is_valid(a));
}

#[test]
fn set_location_and_meta_mut_change_only_the_location() {
    let mut entities = Entities::new();
    let a = spawn_at_row(&mut entities, 0);
    let loc = MetaLocation::new(TableId(7), ArchId(8), TableRow(9), ArchRow(10));
    entities.set_location(a, loc);
    assert_eq!(entities.meta(a).unwrap().location, loc);
    entities.meta_mut(a).unwrap().location.table_row = TableRow(11);
    assert_eq!(entities.meta(a).unwrap().location.table_row, TableRow(11));
    assert!(entities.is_valid(a));
    entities.despawn(a);
    assert!(entities.meta_mut(a).is_none());
}

#[test]
fn valid_handle_survives_other_operations() {
    let mut entities = Entities::new();
    let a = spawn_at_row(&mut entities, 0);
    let b = spawn_at_row(&mut entities, 1);
    entities.despawn(b);
    let _c = spawn_at_row(&mut entities, 2);
    let _r = entities.reserve();
    entities.set_location(a, MetaLocation::new(TableId(1), ArchId(1), TableRow(3), ArchRow(3)));
    let d = spawn_at_row(&mut entities, 4);
    entities.despawn(d);
    assert!(entities.is_valid(a));
    assert_eq!(entities.meta(a).unwrap().location.table_row, TableRow(3));
}
