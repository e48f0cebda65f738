//! End-to-end tests of the world: entity lifecycle and the three access
//! protocols.

use std::collections::HashMap;

use archetype_ecs::Batch;
use archetype_ecs::Component;
use archetype_ecs::ComponentData;
use archetype_ecs::CullArchetypes;
use archetype_ecs::EntityRecord;
use archetype_ecs::Process;
use archetype_ecs::Query;
use archetype_ecs::QueryData;
use archetype_ecs::ReadSpec;
use archetype_ecs::StorageKind;
use archetype_ecs::UniqueId;
use archetype_ecs::World;
use archetype_ecs::UNIQUE_ID_COMPONENT;

const LEVEL: u64 = 1;
const SOURCE_ID: u64 = 2;
const SAMPLING_RATE: u64 = 3;
const KIND: u64 = 4;
const TAG: u64 = 5;

/// Packs a short string into a component payload.
fn str_val(s: &str) -> u128 {
    s.bytes().fold(0u128, |acc, b| (acc << 8) | b as u128)
}

#[derive(Copy, Clone, Eq, PartialEq, Debug)]
struct Level(usize);
impl Component for Level {
    fn component_data(&self) -> ComponentData {
        ComponentData { id: LEVEL, kind: StorageKind::PerEntity, value: self.0 as u128 }
    }
}

#[derive(Copy, Clone, Eq, PartialEq, Debug, Hash)]
struct SourceId(u128);
impl Component for SourceId {
    fn component_data(&self) -> ComponentData {
        ComponentData { id: SOURCE_ID, kind: StorageKind::PerArchetype, value: self.0 }
    }
}

#[derive(Copy, Clone, Eq, PartialEq, Ord, PartialOrd, Debug)]
struct SamplingRate(u8);
impl Component for SamplingRate {
    fn component_data(&self) -> ComponentData {
        ComponentData { id: SAMPLING_RATE, kind: StorageKind::PerArchetype, value: self.0 as u128 }
    }
}

#[derive(Copy, Clone, Eq, PartialEq, Debug)]
struct Kind(&'static str);
impl Component for Kind {
    fn component_data(&self) -> ComponentData {
        ComponentData { id: KIND, kind: StorageKind::PerArchetype, value: str_val(self.0) }
    }
}

/// A sparse marker present on only some rows of an archetype.
#[derive(Copy, Clone, Eq, PartialEq, Debug)]
struct Tag(u128);
impl Component for Tag {
    fn component_data(&self) -> ComponentData {
        ComponentData { id: TAG, kind: StorageKind::Sparse, value: self.0 }
    }
}

fn record(parts: Vec<ComponentData>) -> EntityRecord {
    let mut r = EntityRecord::new();
    for c in parts {
        r.push(c);
    }
    r
}

/// Adds records under ascending identifiers starting at 0.
fn entities(records: Vec<EntityRecord>) -> World {
    let mut world = World::new();
    let mut next: u128 = 0;
    for rec in records {
        world.add_entity(UniqueId(next), rec);
        next += 1;
    }
    world
}

struct EntityCountsQuery {}
impl Query for EntityCountsQuery {
    type Output = HashMap<u128, usize>;
    fn reads(&self) -> Vec<ReadSpec> {
        vec![ReadSpec::Req(SOURCE_ID), ReadSpec::Req(UNIQUE_ID_COMPONENT)]
    }
    fn execute(&self, mut data: QueryData<'_>) -> Self::Output {
        let mut result: HashMap<u128, usize> = HashMap::new();
        while let Some(batch) = data.next() {
            let source_id = match &batch[0] {
                Batch::Single(v) => *v,
                _ => panic!("expected a per-archetype value"),
            };
            let ids_len = match &batch[1] {
                Batch::Column(col) => col.len(),
                _ => panic!("expected a dense column"),
            };
            *result.entry(source_id).or_default() += ids_len;
        }
        result
    }
}

struct CullSamplingRate(SamplingRate);
impl CullArchetypes for CullSamplingRate {
    fn reads(&self) -> Vec<ReadSpec> {
        vec![ReadSpec::Req(SAMPLING_RATE)]
    }
    fn should_cull(&self, data: &Vec<Batch>) -> bool {
        match &data[0] {
            Batch::Single(v) => *v >= self.0 .0 as u128,
            _ => false,
        }
    }
}

struct IncreaseLevelK {}
impl Process for IncreaseLevelK {
    fn reads(&self) -> Vec<ReadSpec> {
        vec![ReadSpec::Opt(KIND)]
    }
    fn writes(&self) -> Vec<u64> {
        vec![LEVEL]
    }
    fn execute(&self, read: &Vec<Batch>, write: &mut Vec<Vec<u128>>) {
        let add: u128 = match &read[0] {
            Batch::Missing => 1,
            Batch::Single(v) if *v == str_val("x") => 10,
            _ => 100,
        };
        for level in write[0].iter_mut() {
            *level += add;
        }
    }
}

struct IncreaseLevel {}
impl Process for IncreaseLevel {
    fn reads(&self) -> Vec<ReadSpec> {
        vec![]
    }
    fn writes(&self) -> Vec<u64> {
        vec![LEVEL]
    }
    fn execute(&self, _read: &Vec<Batch>, write: &mut Vec<Vec<u128>>) {
        for level in write[0].iter_mut() {
            *level += 1;
        }
    }
}

struct AddDelta(u128);
impl Process for AddDelta {
    fn reads(&self) -> Vec<ReadSpec> {
        vec![]
    }
    fn writes(&self) -> Vec<u64> {
        vec![LEVEL]
    }
    fn execute(&self, _read: &Vec<Batch>, write: &mut Vec<Vec<u128>>) {
        for level in write[0].iter_mut() {
            *level += self.0;
        }
    }
}

#[test]
fn can_add_rich_entity() {
    let world = entities(vec![
        record(vec![Level(1).component_data(), Kind("k").component_data()]),
    ]);

    let uid = UniqueId(0);

    assert_eq!(world.read_component(&uid, KIND), Some(str_val("k")));
    assert_eq!(world.read_component(&uid, LEVEL), Some(1));
    assert_eq!(world.read_component(&uid, SAMPLING_RATE), None);
}

#[test]
fn can_execute_query() {
    let world = entities(vec![
        record(vec![SourceId(0).component_data()]),
        record(vec![SourceId(1).component_data()]),
        record(vec![SourceId(1).component_data()]),
        record(vec![SourceId(1).component_data(), Kind("k").component_data()]),
        record(vec![SourceId(0).component_data()]),
        record(vec![SourceId(1).component_data()]),
        record(vec![SourceId(1).component_data()]),
    ]);

    let counts = world.execute_query(&EntityCountsQuery {});
    assert_eq!(counts.len(), 2);
    assert_eq!(counts.get(&0), Some(&2));
    assert_eq!(counts.get(&1), Some(&5));
}

#[test]
fn can_execute_update() {
    let mut world = entities(vec![
        record(vec![SamplingRate(2).component_data()]),
        record(vec![SamplingRate(1).component_data()]),
        record(vec![SamplingRate(3).component_data()]),
        record(vec![SamplingRate(1).component_data()]),
        record(vec![SamplingRate(2).component_data()]),
        record(vec![SamplingRate(3).component_data()]),
    ]);

    assert_eq!(world.entity_count(), 6);
    world.execute_update(&CullSamplingRate(SamplingRate(2)));
    assert_eq!(world.entity_count(), 2);
}

#[test]
fn can_write_system() {
    let mut world = entities(vec![
        record(vec![Level(1).component_data()]),
        record(vec![Level(1).component_data(), Kind("x").component_data()]),
    ]);

    world.execute_process(&IncreaseLevelK {});
    assert_eq!(world.read_component(&UniqueId(0), LEVEL), Some(2));
    assert_eq!(world.read_component(&UniqueId(1), LEVEL), Some(11));

    world.execute_process(&IncreaseLevel {});
    assert_eq!(world.read_component(&UniqueId(0), LEVEL), Some(3));
    assert_eq!(world.read_component(&UniqueId(1), LEVEL), Some(12));
}

#[test]
fn process_twice_adds_double() {
    let mut world = entities(vec![
        record(vec![Level(5).component_data()]),
        record(vec![Level(40).component_data()]),
    ]);

    world.execute_process(&AddDelta(7));
    world.execute_process(&AddDelta(7));
    assert_eq!(world.read_component(&UniqueId(0), LEVEL), Some(5 + 2 * 7));
    assert_eq!(world.read_component(&UniqueId(1), LEVEL), Some(40 + 2 * 7));
}

#[test]
fn process_cannot_overwrite_identifiers() {
    struct ZeroIds {}
    impl Process for ZeroIds {
        fn reads(&self) -> Vec<ReadSpec> {
            vec![]
        }
        fn writes(&self) -> Vec<u64> {
            vec![UNIQUE_ID_COMPONENT]
        }
        fn execute(&self, _read: &Vec<Batch>, write: &mut Vec<Vec<u128>>) {
            for v in write[0].iter_mut() {
                *v = 0;
            }
        }
    }

    let mut world = entities(vec![
        record(vec![Level(1).component_data()]),
        record(vec![Level(2).component_data()]),
    ]);
    world.execute_process(&ZeroIds {});
    // The identifier column is never writable: the directory still
    // resolves both entities.
    assert_eq!(
        world.read_component(&UniqueId(1), UNIQUE_ID_COMPONENT),
        Some(1)
    );
    assert_eq!(world.read_component(&UniqueId(1), LEVEL), Some(2));
}

#[test]
fn shape_changing_process_output_is_discarded() {
    struct GrowColumn {}
    impl Process for GrowColumn {
        fn reads(&self) -> Vec<ReadSpec> {
            vec![]
        }
        fn writes(&self) -> Vec<u64> {
            vec![LEVEL]
        }
        fn execute(&self, _read: &Vec<Batch>, write: &mut Vec<Vec<u128>>) {
            write[0].push(999);
        }
    }

    let mut world = entities(vec![record(vec![Level(1).component_data()])]);
    world.execute_process(&GrowColumn {});
    // A column whose length no longer matches the row count is dropped,
    // keeping every dense column as long as its archetype.
    assert_eq!(world.entity_count(), 1);
    assert_eq!(world.read_component(&UniqueId(0), LEVEL), Some(1));
}

#[test]
fn removal_compacts_and_keeps_directory() {
    let mut world = entities(vec![
        record(vec![Level(10).component_data()]),
        record(vec![Level(20).component_data()]),
        record(vec![Level(30).component_data()]),
    ]);

    assert_eq!(world.entity_count(), 3);
    // Removing the first row swaps the last row down; the moved entity
    // must still read its own values.
    world.remove_entity(UniqueId(0));
    assert_eq!(world.entity_count(), 2);
    assert_eq!(world.read_component(&UniqueId(0), LEVEL), None);
    assert_eq!(world.read_component(&UniqueId(1), LEVEL), Some(20));
    assert_eq!(world.read_component(&UniqueId(2), LEVEL), Some(30));
    assert_eq!(
        world.read_component(&UniqueId(2), UNIQUE_ID_COMPONENT),
        Some(2)
    );

    world.remove_entity(UniqueId(2));
    assert_eq!(world.entity_count(), 1);
    assert_eq!(world.read_component(&UniqueId(1), LEVEL), Some(20));
}

#[test]
fn removing_unknown_entity_is_tolerated() {
    let mut world = entities(vec![record(vec![Level(1).component_data()])]);
    world.remove_entity(UniqueId(77));
    assert_eq!(world.entity_count(), 1);
    assert_eq!(world.read_component(&UniqueId(0), LEVEL), Some(1));
}

#[test]
fn sparse_components_follow_swap_compaction() {
    // Both entities share one archetype; only the first carries the
    // sparse tag.
    let mut world = entities(vec![
        record(vec![Level(10).component_data(), Tag(111).component_data()]),
        record(vec![Level(20).component_data()]),
    ]);

    assert_eq!(world.entity_count(), 2);
    assert_eq!(world.read_component(&UniqueId(0), TAG), Some(111));
    assert_eq!(world.read_component(&UniqueId(1), TAG), None);

    // Removing the tagged row re-keys nothing onto the untagged one.
    world.remove_entity(UniqueId(0));
    assert_eq!(world.read_component(&UniqueId(1), TAG), None);
    assert_eq!(world.read_component(&UniqueId(1), LEVEL), Some(20));

    // And the other way around: the tagged top row keeps its tag when it
    // is moved down.
    let mut world = entities(vec![
        record(vec![Level(10).component_data()]),
        record(vec![Level(20).component_data(), Tag(222).component_data()]),
    ]);
    world.remove_entity(UniqueId(0));
    assert_eq!(world.read_component(&UniqueId(1), TAG), Some(222));
    assert_eq!(world.read_component(&UniqueId(1), LEVEL), Some(20));
}

#[test]
fn empty_record_keeps_only_identifier() {
    let mut world = World::new();
    world.add_entity(UniqueId(9), record(vec![]));
    assert_eq!(world.entity_count(), 1);
    assert_eq!(
        world.read_component(&UniqueId(9), UNIQUE_ID_COMPONENT),
        Some(9)
    );
    assert_eq!(world.read_component(&UniqueId(9), LEVEL), None);
}

#[test]
fn culled_slot_is_reused() {
    let mut world = entities(vec![
        record(vec![SamplingRate(9).component_data()]),
        record(vec![Level(3).component_data()]),
    ]);
    world.execute_update(&CullSamplingRate(SamplingRate(9)));
    assert_eq!(world.entity_count(), 1);

    // A later insertion may take the vacated slot; its data must be
    // fully readable.
    world.add_entity(UniqueId(50), record(vec![Level(4).component_data()]));
    assert_eq!(world.entity_count(), 2);
    assert_eq!(world.read_component(&UniqueId(50), LEVEL), Some(4));
    assert_eq!(world.read_component(&UniqueId(0), SAMPLING_RATE), None);
}

#[test]
fn optional_reads_match_every_archetype() {
    // The plain record comes first: were it inserted after the `Kind`
    // record, first-match would fold it into that archetype.
    let world = entities(vec![
        record(vec![Level(2).component_data()]),
        record(vec![Level(1).component_data(), Kind("a").component_data()]),
    ]);

    struct CountBatches {}
    impl Query for CountBatches {
        type Output = (usize, usize);
        fn reads(&self) -> Vec<ReadSpec> {
            vec![ReadSpec::Opt(KIND)]
        }
        fn execute(&self, mut data: QueryData<'_>) -> Self::Output {
            let mut present = 0;
            let mut missing = 0;
            while let Some(batch) = data.next() {
                match &batch[0] {
                    Batch::Missing => missing += 1,
                    _ => present += 1,
                }
            }
            (present, missing)
        }
    }

    let (present, missing) = world.execute_query(&CountBatches {});
    assert_eq!(present, 1);
    assert_eq!(missing, 1);
}

#[test]
fn insertion_groups_by_shape() {
    // Same component types and per-archetype values, listed in a
    // different order: one archetype, so one batch for both rows.
    let world = entities(vec![
        record(vec![Level(1).component_data(), SourceId(6).component_data()]),
        record(vec![SourceId(6).component_data(), Level(2).component_data()]),
        record(vec![Level(3).component_data(), SourceId(7).component_data()]),
    ]);

    let counts = world.execute_query(&EntityCountsQuery {});
    assert_eq!(counts.len(), 2);
    assert_eq!(counts.get(&6), Some(&2));
    assert_eq!(counts.get(&7), Some(&1));
}
