//! Unit tests of the storage backends, the type-erased map, archetypes
//! and the shape digest.

use archetype_ecs::Archetype;
use archetype_ecs::BorrowedGlobal;
use archetype_ecs::BorrowedPerArchetype;
use archetype_ecs::BorrowedPerEntity;
use archetype_ecs::BorrowedSparse;
use archetype_ecs::Components;
use archetype_ecs::ComponentData;
use archetype_ecs::EntityRecord;
use archetype_ecs::Global;
use archetype_ecs::PerArchetype;
use archetype_ecs::PerEntity;
use archetype_ecs::Sparse;
use archetype_ecs::Storage;
use archetype_ecs::StorageKind;
use archetype_ecs::Version;

#[test]
fn per_entity_column_reads_and_writes() {
    let mut storage = PerEntity::new();
    storage.write_at(0, 10);
    storage.write_at(1, 20);
    storage.write_at(0, 11);
    let borrow = storage.borrow();
    assert_eq!(borrow.read(0), Some(11));
    assert_eq!(borrow.read(1), Some(20));
    assert_eq!(borrow.read(2), None);
    assert_eq!(borrow.read_batch(), &vec![11, 20]);
    assert_eq!(borrow.version(), Version(0));
}

#[test]
fn per_entity_swap_compaction() {
    let mut storage = PerEntity::new();
    storage.write_at(0, 10);
    storage.write_at(1, 20);
    storage.write_at(2, 30);
    storage.remove_entity(0, 2);
    assert_eq!(storage.borrow().read_batch(), &vec![30, 20]);
}

#[test]
fn borrowed_per_entity_write_batch() {
    let mut cell = BorrowedPerEntity::new();
    cell.write_batch().push(5);
    cell.write(0, 6);
    assert_eq!(cell.read(0), Some(6));
}

#[test]
fn per_archetype_reads_one_value_for_every_row() {
    let storage = PerArchetype::new(42);
    assert_eq!(storage.borrow().read(0), Some(42));
    assert_eq!(storage.borrow().read(99), Some(42));
    assert_eq!(storage.borrow().read_batch(), 42);
    assert_eq!(BorrowedPerArchetype::new(7).version(), Version(0));
}

#[test]
fn global_reads_one_value_for_the_world() {
    let storage = Global::new(9);
    assert_eq!(storage.borrow().read(3), Some(9));
    assert_eq!(storage.borrow().read_batch(), 9);
    assert_eq!(BorrowedGlobal::new(8).version(), Version(0));
}

#[test]
fn sparse_reads_only_present_rows() {
    let mut storage = Sparse::new();
    storage.write(2, 200);
    storage.write(5, 500);
    assert_eq!(storage.borrow().read(2), Some(200));
    assert_eq!(storage.borrow().read(5), Some(500));
    assert_eq!(storage.borrow().read(0), None);
    assert_eq!(BorrowedSparse::new().version(), Version(0));
}

#[test]
fn sparse_remove_rekeys_top_row() {
    let mut storage = Sparse::new();
    storage.write(0, 100);
    storage.write(2, 300);
    // Row 0 leaves, row 2 (the top) moves into its place.
    storage.remove_entity(0, 2);
    assert_eq!(storage.borrow().read(0), Some(300));
    assert_eq!(storage.borrow().read(2), None);

    // A top row without an entry leaves the vacated row empty.
    let mut storage = Sparse::new();
    storage.write(0, 100);
    storage.remove_entity(0, 2);
    assert_eq!(storage.borrow().read(0), None);
}

#[test]
fn components_are_registered_once_and_found_by_tag() {
    let mut components = Components::new();
    components.add(1, Storage::PerEntity(PerEntity::new()));
    components.add(2, Storage::PerArchetype(PerArchetype::new(5)));
    assert!(components.get_storage(1).is_some());
    assert!(components.get_storage(3).is_none());
    match components.get_storage(2) {
        Some(Storage::PerArchetype(s)) => assert_eq!(s.cell.value, 5),
        _ => panic!("expected the per-archetype backend"),
    }
    match components.get_storage_mut(2) {
        Some(Storage::PerArchetype(s)) => assert_eq!(s.cell.value, 5),
        _ => panic!("expected the per-archetype backend"),
    }
}

#[test]
fn archetype_rows_and_requirements() {
    let mut archetype = Archetype::new(77);
    assert_eq!(archetype.get_requirements(), 77);
    assert_eq!(archetype.num_entities(), 0);
    let mut column = PerEntity::new();
    column.write_at(0, 0);
    let row = archetype.entity_write_slot();
    assert_eq!(row, 0);
    archetype.add_storage(1, Storage::PerEntity(column));
    assert_eq!(archetype.num_entities(), 1);
    assert!(archetype.get_storage(1).is_some());
    assert!(archetype.get_storage_mut(2).is_none());
    assert_eq!(archetype.components().get_storage(1).is_some(), true);
    archetype.remove_entity(0);
    assert_eq!(archetype.num_entities(), 0);
}

fn comp(id: u64, kind: StorageKind, value: u128) -> ComponentData {
    ComponentData { id, kind, value }
}

#[test]
fn shape_digest_is_order_independent() {
    let mut r1 = EntityRecord::new();
    r1.push(comp(1, StorageKind::PerEntity, 10));
    r1.push(comp(2, StorageKind::PerArchetype, 5));

    let mut r2 = EntityRecord::new();
    r2.push(comp(2, StorageKind::PerArchetype, 5));
    r2.push(comp(1, StorageKind::PerEntity, 99));

    // Same component types, same per-archetype value: the same shape
    // identifier, whatever the listing order and whatever the dense
    // values.
    assert_eq!(r1.requirements_digest(), r2.requirements_digest());

    // A different per-archetype value is a different shape.
    let mut r3 = EntityRecord::new();
    r3.push(comp(2, StorageKind::PerArchetype, 6));
    r3.push(comp(1, StorageKind::PerEntity, 10));
    assert_ne!(r1.requirements_digest(), r3.requirements_digest());

    // A different component type set is a different shape.
    let mut r4 = EntityRecord::new();
    r4.push(comp(1, StorageKind::PerEntity, 10));
    assert_ne!(r1.requirements_digest(), r4.requirements_digest());

    // The same type tag under a different strategy is a different shape.
    let mut r5 = EntityRecord::new();
    r5.push(comp(1, StorageKind::Sparse, 10));
    r5.push(comp(2, StorageKind::PerArchetype, 5));
    assert_ne!(r1.requirements_digest(), r5.requirements_digest());
}

#[test]
fn storage_reports_its_kind() {
    assert_eq!(
        Storage::PerEntity(PerEntity::new()).kind(),
        StorageKind::PerEntity
    );
    assert_eq!(
        Storage::PerArchetype(PerArchetype::new(0)).kind(),
        StorageKind::PerArchetype
    );
    assert_eq!(Storage::Sparse(Sparse::default()).kind(), StorageKind::Sparse);
    assert_eq!(Storage::Global(Global::new(0)).kind(), StorageKind::Global);
}

#[test]
fn record_builder_tracks_length() {
    let mut rec = EntityRecord::new();
    assert_eq!(rec.len(), 0);
    rec.push(comp(1, StorageKind::PerEntity, 1));
    assert_eq!(rec.len(), 1);
}
