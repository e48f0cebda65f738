//! World-level laws of the insertion and removal protocols.
//!
//! These proof functions state, over the world's mathematical view, the
//! guarantees the protocols give beyond any single call: which archetype
//! a record lands in is decided by its shape alone, what was written can
//! be read back, and removal keeps every dense column exactly as long as
//! its archetype's row count.

use vstd::prelude::*;
use crate::archetype::{
    comp_satisfied, init_components, init_storage_view, rec_get, rec_has, rec_has_per_entity,
    rec_index_of, record_matches, write_one, written_components, ArchetypeView,
};
use crate::component::{record_distinct, record_wf, ComponentData, StorageKind,
    UNIQUE_ID_COMPONENT};
use crate::world::{
    first_empty_from, first_match_from, full_record, lemma_count_le_sum,
    lemma_first_empty_props, lemma_first_match_props, lemma_full_record, lemma_spec_add_wf,
    lemma_spec_remove_wf, purge_dangling, slot_count, spec_add, spec_remove, sum_counts,
    uid_column, world_arch_ok, EntitySlot, WorldView,
};
use crate::query::{batch_views_of, reads_match, BatchView};
use crate::update::Update;
use crate::storage::{compacted_view, ReadSpec, StorageView};

verus! {

/// Two records carry the same component shape: the same set of component
/// types with the same strategies, and the same values for per-archetype
/// stored components.
pub open spec fn shape_has(r: Seq<ComponentData>, c: ComponentData) -> bool {
    exists|j: int| 0 <= j < r.len() && (#[trigger] r[j]).id == c.id && r[j].kind == c.kind
        && (c.kind == StorageKind::PerArchetype ==> r[j].value == c.value)
}

pub open spec fn same_shape(r1: Seq<ComponentData>, r2: Seq<ComponentData>) -> bool {
    &&& forall|i: int| 0 <= i < r1.len() ==> shape_has(r2, #[trigger] r1[i])
    &&& forall|i: int| 0 <= i < r2.len() ==> shape_has(r1, #[trigger] r2[i])
}

/// Shape inclusion reads nothing of a record but its shape: two records
/// of the same shape match exactly the same archetypes.
pub proof fn lemma_same_shape_same_matching(
    r1: Seq<ComponentData>,
    r2: Seq<ComponentData>,
    m: Map<u64, StorageView>,
)
    requires
        same_shape(r1, r2),
    ensures
        record_matches(m, r1) == record_matches(m, r2),
{
    if record_matches(m, r1) {
        lemma_same_shape_matching_one_way(r1, r2, m);
    }
    if record_matches(m, r2) {
        lemma_same_shape_matching_one_way(r2, r1, m);
    }
}

proof fn lemma_same_shape_matching_one_way(
    r1: Seq<ComponentData>,
    r2: Seq<ComponentData>,
    m: Map<u64, StorageView>,
)
    requires
        same_shape(r1, r2),
        record_matches(m, r1),
    ensures
        record_matches(m, r2),
{
    assert forall|i: int| 0 <= i < r2.len() implies comp_satisfied(m, #[trigger] r2[i]) by {
        let c = r2[i];
        assert(shape_has(r1, c));
        let j = choose|j: int| 0 <= j < r1.len() && (#[trigger] r1[j]).id == c.id
            && r1[j].kind == c.kind
            && (c.kind == StorageKind::PerArchetype ==> r1[j].value == c.value);
        assert(comp_satisfied(m, r1[j]));
    }
    assert forall|id: u64| m.dom().contains(id) && (#[trigger] m[id]) is PerEntityView
        implies rec_has_per_entity(r2, id) by {
        assert(rec_has_per_entity(r1, id));
        let j = choose|j: int| 0 <= j < r1.len() && (#[trigger] r1[j]).id == id
            && r1[j].kind == StorageKind::PerEntity;
        assert(shape_has(r2, r1[j]));
        let k = choose|k: int| 0 <= k < r2.len() && (#[trigger] r2[k]).id == r1[j].id
            && r2[k].kind == r1[j].kind
            && (r1[j].kind == StorageKind::PerArchetype ==> r2[k].value == r1[j].value);
        assert(r2[k].id == id && r2[k].kind == StorageKind::PerEntity);
    }
}

/// Writing a matching record into an archetype does not change the
/// archetype's shape: the written archetype still matches the record.
pub proof fn lemma_written_still_matches(
    m: Map<u64, StorageView>,
    full: Seq<ComponentData>,
    row: usize,
)
    requires
        record_matches(m, full),
    ensures
        record_matches(written_components(m, full, row), full),
{
    let m2 = written_components(m, full, row);
    assert forall|i: int| 0 <= i < full.len() implies comp_satisfied(m2, #[trigger] full[i]) by {
        let c = full[i];
        assert(comp_satisfied(m, c));
        assert(m2.dom().contains(c.id));
        match c.kind {
            StorageKind::PerArchetype => {
                assert(m2[c.id] == (if rec_has(full, c.id) {
                    write_one(m[c.id], rec_get(full, c.id), row)
                } else {
                    m[c.id]
                }));
            }
            _ => {}
        }
    }
    assert forall|id: u64| m2.dom().contains(id) && (#[trigger] m2[id]) is PerEntityView
        implies rec_has_per_entity(full, id) by {
        assert(m.dom().contains(id));
        if !(m[id] is PerEntityView) {
            assert(!(m2[id] is PerEntityView));
        }
    }
}

/// A fresh archetype built from a record matches that record.
pub proof fn lemma_initialized_matches(full: Seq<ComponentData>)
    requires
        record_distinct(full),
    ensures
        record_matches(init_components(full), full),
{
    let m = init_components(full);
    assert forall|i: int| 0 <= i < full.len() implies comp_satisfied(m, #[trigger] full[i]) by {
        let c = full[i];
        assert(rec_has(full, c.id)) by {
            assert(full[i].id == c.id);
        }
        assert(rec_get(full, c.id) == c) by {
            let w = rec_index_of(full, c.id);
            assert(0 <= w < full.len() && full[w].id == c.id);
            if w != i {
                assert(full[w].id == full[i].id);
                assert(false);
            }
        }
        assert(m[c.id] == init_storage_view(c));
    }
    assert forall|id: u64| m.dom().contains(id) && (#[trigger] m[id]) is PerEntityView
        implies rec_has_per_entity(full, id) by {
        let w = rec_index_of(full, id);
        assert(0 <= w < full.len() && full[w].id == id);
        assert(m[id] == init_storage_view(full[w]));
        assert(full[w].kind == StorageKind::PerEntity);
    }
}

/// The first-match scan lands exactly where the first matching slot is.
pub proof fn lemma_first_match_exact(
    archs: Seq<Option<ArchetypeView>>,
    rec: Seq<ComponentData>,
    ai: int,
)
    requires
        0 <= ai < archs.len(),
        archs[ai] matches Some(a) && record_matches(a.components, rec),
        forall|j: int| 0 <= j < ai
            ==> !((#[trigger] archs[j]) matches Some(a2) && record_matches(a2.components, rec)),
    ensures
        first_match_from(archs, rec, 0) == Some(ai),
{
    lemma_first_match_from_exact(archs, rec, 0, ai);
}

proof fn lemma_first_match_from_exact(
    archs: Seq<Option<ArchetypeView>>,
    rec: Seq<ComponentData>,
    i: int,
    ai: int,
)
    requires
        0 <= i <= ai < archs.len(),
        archs[ai] matches Some(a) && record_matches(a.components, rec),
        forall|j: int| i <= j < ai
            ==> !((#[trigger] archs[j]) matches Some(a2) && record_matches(a2.components, rec)),
    ensures
        first_match_from(archs, rec, i) == Some(ai),
    decreases ai - i,
{
    if i < ai {
        lemma_first_match_from_exact(archs, rec, i + 1, ai);
    }
}

/// Shape-hash soundness, first half: two records with identical component
/// type sets and identical per-archetype-stored values, inserted one
/// after the other, land in the same archetype.
pub proof fn lemma_same_shape_same_archetype(
    w: WorldView,
    uid1: u128,
    r1: Seq<ComponentData>,
    uid2: u128,
    r2: Seq<ComponentData>,
)
    requires
        w.wf(),
        record_wf(r1),
        record_wf(r2),
        same_shape(r1, r2),
        !w.entities.dom().contains(uid1),
        !spec_add(w, uid1, r1).entities.dom().contains(uid2),
        sum_counts(w.archetypes) < usize::MAX,
        w.archetypes.len() < usize::MAX,
        sum_counts(spec_add(w, uid1, r1).archetypes) < usize::MAX,
        spec_add(w, uid1, r1).archetypes.len() < usize::MAX,
    ensures
        spec_add(spec_add(w, uid1, r1), uid2, r2).entities[uid2].archetype_index
            == spec_add(w, uid1, r1).entities[uid1].archetype_index,
{
    let full1 = full_record(uid1, r1);
    let full2 = full_record(uid2, r2);
    lemma_full_record(uid1, r1);
    lemma_full_record(uid2, r2);
    lemma_spec_add_wf(w, uid1, r1);
    let w1 = spec_add(w, uid1, r1);
    assert(same_shape(full1, full2)) by {
        assert forall|i: int| 0 <= i < full1.len() implies shape_has(full2, #[trigger] full1[i]) by {
            if i == 0 {
                assert(full2[0].id == full1[0].id && full2[0].kind == full1[0].kind);
            } else {
                assert(full1[i] == r1[i - 1]);
                assert(shape_has(r2, r1[i - 1]));
                let j = choose|j: int| 0 <= j < r2.len() && (#[trigger] r2[j]).id == r1[i - 1].id
                    && r2[j].kind == r1[i - 1].kind
                    && (r1[i - 1].kind == StorageKind::PerArchetype
                        ==> r2[j].value == r1[i - 1].value);
                assert(full2[j + 1] == r2[j]);
            }
        }
        assert forall|i: int| 0 <= i < full2.len() implies shape_has(full1, #[trigger] full2[i]) by {
            if i == 0 {
                assert(full1[0].id == full2[0].id && full1[0].kind == full2[0].kind);
            } else {
                assert(full2[i] == r2[i - 1]);
                assert(shape_has(r1, r2[i - 1]));
                let j = choose|j: int| 0 <= j < r1.len() && (#[trigger] r1[j]).id == r2[i - 1].id
                    && r1[j].kind == r2[i - 1].kind
                    && (r2[i - 1].kind == StorageKind::PerArchetype
                        ==> r1[j].value == r2[i - 1].value);
                assert(full1[j + 1] == r1[j]);
            }
        }
    }
    lemma_first_match_props(w.archetypes, full1, 0);
    let target = w1.entities[uid1].archetype_index as int;
    assert(w1.entities.dom().contains(uid1));
    assert(w1.entry_ok(uid1));
    assert(0 <= target < w1.archetypes.len());
    // The slot the first record landed in matches the first record.
    assert(w1.archetypes[target] matches Some(t)
        && record_matches(t.components, full1)) by {
        match first_match_from(w.archetypes, full1, 0) {
            Some(ai) => {
                let a = w.archetypes[ai]->Some_0;
                lemma_written_still_matches(a.components, full1, a.count as usize);
            }
            None => {
                lemma_initialized_matches(full1);
                lemma_first_empty_props(w.archetypes, 0);
            }
        }
    }
    // No earlier slot matches the first record, before or after it landed.
    assert forall|j: int| 0 <= j < target
        implies !((#[trigger] w1.archetypes[j]) matches Some(a2)
            && record_matches(a2.components, full1)) by {
        match first_match_from(w.archetypes, full1, 0) {
            Some(ai) => {
                assert(w1.archetypes[j] == w.archetypes[j]);
            }
            None => {
                lemma_first_empty_props(w.archetypes, 0);
                assert(w1.archetypes[j] == w.archetypes[j]);
            }
        }
    }
    // The same holds of the second record, shape for shape.
    assert(w1.archetypes[target] matches Some(t2)
        && record_matches(t2.components, full2)) by {
        let t = w1.archetypes[target]->Some_0;
        lemma_same_shape_same_matching(full1, full2, t.components);
    }
    assert forall|j: int| 0 <= j < target
        implies !((#[trigger] w1.archetypes[j]) matches Some(a2)
            && record_matches(a2.components, full2)) by {
        if w1.archetypes[j] is Some {
            let a2 = w1.archetypes[j]->Some_0;
            lemma_same_shape_same_matching(full1, full2, a2.components);
        }
    }
    lemma_first_match_exact(w1.archetypes, full2, target);
}

/// A shape difference that separates two records: the second carries a
/// component type the first lacks, or they disagree on a per-archetype
/// stored value, or on a type's strategy, or the first carries a dense
/// per-entity column the second does not fill.
pub open spec fn shape_separates(r1: Seq<ComponentData>, r2: Seq<ComponentData>) -> bool {
    ||| exists|i: int| 0 <= i < r2.len() && !rec_has(r1, (#[trigger] r2[i]).id)
    ||| exists|i: int, j: int| 0 <= i < r1.len() && 0 <= j < r2.len()
        && (#[trigger] r1[i]).id == (#[trigger] r2[j]).id && r1[i].kind != r2[j].kind
    ||| exists|i: int, j: int| 0 <= i < r1.len() && 0 <= j < r2.len()
        && (#[trigger] r1[i]).id == (#[trigger] r2[j]).id
        && r1[i].kind == StorageKind::PerArchetype && r2[j].kind == StorageKind::PerArchetype
        && r1[i].value != r2[j].value
    ||| exists|i: int| 0 <= i < r1.len() && (#[trigger] r1[i]).kind == StorageKind::PerEntity
        && !rec_has_per_entity(r2, r1[i].id)
}

/// Shape-hash soundness, second half (for records that create a fresh
/// archetype): a record separated in shape from the one that created an
/// archetype never lands in that archetype.
pub proof fn lemma_distinct_shape_distinct_archetype(
    w: WorldView,
    uid1: u128,
    r1: Seq<ComponentData>,
    uid2: u128,
    r2: Seq<ComponentData>,
)
    requires
        w.wf(),
        record_wf(r1),
        record_wf(r2),
        shape_separates(r1, r2),
        first_match_from(w.archetypes, full_record(uid1, r1), 0) is None,
        !w.entities.dom().contains(uid1),
        !spec_add(w, uid1, r1).entities.dom().contains(uid2),
        sum_counts(w.archetypes) < usize::MAX,
        w.archetypes.len() < usize::MAX,
        sum_counts(spec_add(w, uid1, r1).archetypes) < usize::MAX,
        spec_add(w, uid1, r1).archetypes.len() < usize::MAX,
    ensures
        spec_add(spec_add(w, uid1, r1), uid2, r2).entities[uid2].archetype_index
            != spec_add(w, uid1, r1).entities[uid1].archetype_index,
{
    let full1 = full_record(uid1, r1);
    let full2 = full_record(uid2, r2);
    lemma_full_record(uid1, r1);
    lemma_full_record(uid2, r2);
    lemma_spec_add_wf(w, uid1, r1);
    let w1 = spec_add(w, uid1, r1);
    lemma_first_empty_props(w.archetypes, 0);
    let target = w1.entities[uid1].archetype_index as int;
    let fresh = w1.archetypes[target]->Some_0;
    assert(fresh.components =~= init_components(full1));
    // The separation defeats matching against the fresh archetype.
    assert(!record_matches(fresh.components, full2)) by {
        let m1 = init_components(full1);
        if exists|i: int| 0 <= i < r2.len() && !rec_has(r1, (#[trigger] r2[i]).id) {
            let i = choose|i: int| 0 <= i < r2.len() && !rec_has(r1, (#[trigger] r2[i]).id);
            let c = r2[i];
            assert(full2[i + 1] == c);
            assert(!rec_has(full1, c.id)) by {
                if rec_has(full1, c.id) {
                    let j = rec_index_of(full1, c.id);
                    assert(full1[j].id == c.id);
                    if j == 0 {
                        assert(c.id == UNIQUE_ID_COMPONENT);
                    } else {
                        assert(full1[j] == r1[j - 1]);
                        assert(rec_has(r1, c.id)) by {
                            assert(r1[j - 1].id == c.id);
                        }
                    }
                    assert(false);
                }
            }
            assert(!m1.dom().contains(c.id));
            assert(!comp_satisfied(m1, c));
            assert(record_matches(m1, full2) ==> comp_satisfied(m1, full2[i + 1]));
        } else if exists|i: int, j: int| 0 <= i < r1.len() && 0 <= j < r2.len()
            && (#[trigger] r1[i]).id == (#[trigger] r2[j]).id && r1[i].kind != r2[j].kind {
            let (i, j) = choose|i: int, j: int| 0 <= i < r1.len() && 0 <= j < r2.len()
                && (#[trigger] r1[i]).id == (#[trigger] r2[j]).id && r1[i].kind != r2[j].kind;
            let c1 = r1[i];
            let c2 = r2[j];
            assert(full1[i + 1] == c1 && full2[j + 1] == c2);
            assert(rec_has(full1, c2.id)) by {
                assert(full1[i + 1].id == c2.id);
            }
            assert(rec_get(full1, c2.id) == c1) by {
                let v = rec_index_of(full1, c2.id);
                assert(0 <= v < full1.len() && full1[v].id == c2.id);
                if v != i + 1 {
                    assert(full1[v].id == full1[i + 1].id);
                    assert(false);
                }
            }
            assert(m1[c2.id] == init_storage_view(c1));
            assert(!comp_satisfied(m1, c2));
            assert(record_matches(m1, full2) ==> comp_satisfied(m1, full2[j + 1]));
        } else if exists|i: int, j: int| 0 <= i < r1.len() && 0 <= j < r2.len()
            && (#[trigger] r1[i]).id == (#[trigger] r2[j]).id
            && r1[i].kind == StorageKind::PerArchetype
            && r2[j].kind == StorageKind::PerArchetype && r1[i].value != r2[j].value {
            let (i, j) = choose|i: int, j: int| 0 <= i < r1.len() && 0 <= j < r2.len()
                && (#[trigger] r1[i]).id == (#[trigger] r2[j]).id
                && r1[i].kind == StorageKind::PerArchetype
                && r2[j].kind == StorageKind::PerArchetype && r1[i].value != r2[j].value;
            let c1 = r1[i];
            let c2 = r2[j];
            assert(full1[i + 1] == c1 && full2[j + 1] == c2);
            assert(rec_has(full1, c2.id)) by {
                assert(full1[i + 1].id == c2.id);
            }
            assert(rec_get(full1, c2.id) == c1) by {
                let v = rec_index_of(full1, c2.id);
                assert(0 <= v < full1.len() && full1[v].id == c2.id);
                if v != i + 1 {
                    assert(full1[v].id == full1[i + 1].id);
                    assert(false);
                }
            }
            assert(m1[c2.id] == init_storage_view(c1));
            assert(!comp_satisfied(m1, c2));
            assert(record_matches(m1, full2) ==> comp_satisfied(m1, full2[j + 1]));
        } else {
            let i = choose|i: int| 0 <= i < r1.len()
                && (#[trigger] r1[i]).kind == StorageKind::PerEntity
                && !rec_has_per_entity(r2, r1[i].id);
            let c1 = r1[i];
            assert(full1[i + 1] == c1);
            assert(rec_has(full1, c1.id)) by {
                assert(full1[i + 1].id == c1.id);
            }
            assert(rec_get(full1, c1.id) == c1) by {
                let v = rec_index_of(full1, c1.id);
                assert(0 <= v < full1.len() && full1[v].id == c1.id);
                if v != i + 1 {
                    assert(full1[v].id == full1[i + 1].id);
                    assert(false);
                }
            }
            assert(m1.dom().contains(c1.id) && m1[c1.id] is PerEntityView);
            assert(!rec_has_per_entity(full2, c1.id)) by {
                if rec_has_per_entity(full2, c1.id) {
                    let q = choose|q: int| 0 <= q < full2.len()
                        && (#[trigger] full2[q]).id == c1.id
                        && full2[q].kind == StorageKind::PerEntity;
                    assert(c1.id != UNIQUE_ID_COMPONENT);
                    assert(q != 0);
                    assert(full2[q] == r2[q - 1]);
                    assert(rec_has_per_entity(r2, c1.id)) by {
                        assert(r2[q - 1].id == c1.id
                            && r2[q - 1].kind == StorageKind::PerEntity);
                    }
                    assert(false);
                }
            }
        }
    }
    // So the second record's landing slot is some other slot.
    let target2 = spec_add(w1, uid2, r2).entities[uid2].archetype_index as int;
    lemma_first_match_props(w1.archetypes, full2, 0);
    lemma_first_empty_props(w1.archetypes, 0);
    lemma_spec_add_wf(w1, uid2, r2);
    match first_match_from(w1.archetypes, full2, 0) {
        Some(ai) => {
            assert(ai != target);
        }
        None => {
            match first_empty_from(w1.archetypes, 0) {
                Some(si) => {
                    assert(w1.archetypes[target] is Some);
                    assert(si != target);
                }
                None => {
                    assert(target < w1.archetypes.len());
                }
            }
        }
    }
}

/// Round-trip: immediately after an entity is inserted with a component
/// list, reading any component of the list under its identifier yields
/// the written value, reading the identifier component yields the
/// identifier, and a component type that neither its archetype nor the
/// world-level globals carry reads as none.
pub proof fn lemma_add_round_trip(w: WorldView, uid: u128, rec: Seq<ComponentData>)
    requires
        w.wf(),
        record_wf(rec),
        !w.entities.dom().contains(uid),
        sum_counts(w.archetypes) < usize::MAX,
        w.archetypes.len() < usize::MAX,
    ensures
        forall|i: int| 0 <= i < rec.len()
            ==> spec_add(w, uid, rec).read(uid, (#[trigger] rec[i]).id) == Some(rec[i].value),
        spec_add(w, uid, rec).read(uid, UNIQUE_ID_COMPONENT) == Some(uid),
        forall|comp: u64|
            !(#[trigger] spec_add(w, uid, rec).archetypes[
                spec_add(w, uid, rec).entities[uid].archetype_index as int
            ]->Some_0.components.dom().contains(comp)) && !w.globals.dom().contains(comp)
            ==> spec_add(w, uid, rec).read(uid, comp) == None::<u128>,
{
    let full = full_record(uid, rec);
    lemma_full_record(uid, rec);
    lemma_spec_add_wf(w, uid, rec);
    let w2 = spec_add(w, uid, rec);
    let slot = w2.entities[uid];
    let ai = slot.archetype_index as int;
    let row = slot.entity_index as int;
    lemma_first_match_props(w.archetypes, full, 0);
    lemma_first_empty_props(w.archetypes, 0);
    let t = w2.archetypes[ai]->Some_0;
    assert(w2.entry_ok(uid));
    assert forall|q: int| 0 <= q < full.len() implies
        w2.read(uid, (#[trigger] full[q]).id) == Some(full[q].value) by {
        let c = full[q];
        assert(rec_get(full, c.id) == c) by {
            let v = rec_index_of(full, c.id);
            assert(0 <= v < full.len() && full[v].id == c.id);
            if v != q {
                assert(full[v].id == full[q].id);
                assert(false);
            }
        }
        assert(rec_has(full, c.id)) by {
            assert(full[q].id == c.id);
        }
        match first_match_from(w.archetypes, full, 0) {
            Some(mi) => {
                let a = w.archetypes[mi]->Some_0;
                lemma_count_le_sum(w.archetypes, mi);
                assert(ai == mi && row == a.count);
                assert(comp_satisfied(a.components, full[q]));
                assert(t.components[c.id] == write_one(a.components[c.id], c, a.count as usize));
                assert(crate::archetype::storage_fits(a.components[c.id], a.count));
                match c.kind {
                    StorageKind::PerEntity => {
                        assert(t.components[c.id] matches StorageView::PerEntityView { values }
                            && values[row] == c.value);
                    }
                    _ => {}
                }
            }
            None => {
                assert(t.components[c.id] == init_storage_view(c));
            }
        }
    }
    assert(full[0].id == UNIQUE_ID_COMPONENT && full[0].value == uid);
    assert(w2.read(uid, UNIQUE_ID_COMPONENT) == Some(uid));
    assert forall|i: int| 0 <= i < rec.len() implies
        w2.read(uid, (#[trigger] rec[i]).id) == Some(rec[i].value) by {
        assert(full[i + 1] == rec[i]);
        assert(w2.read(uid, full[i + 1].id) == Some(full[i + 1].value));
    }
}

/// Inserting an entity reads and writes nothing of any other entity:
/// every other identifier reads exactly as before.
pub proof fn lemma_add_preserves_reads(w: WorldView, uid: u128, rec: Seq<ComponentData>)
    requires
        w.wf(),
        record_wf(rec),
        !w.entities.dom().contains(uid),
        sum_counts(w.archetypes) < usize::MAX,
        w.archetypes.len() < usize::MAX,
    ensures
        forall|id: u128, comp: u64| id != uid
            ==> #[trigger] spec_add(w, uid, rec).read(id, comp) == w.read(id, comp),
{
    let full = full_record(uid, rec);
    lemma_full_record(uid, rec);
    lemma_spec_add_wf(w, uid, rec);
    let w2 = spec_add(w, uid, rec);
    lemma_first_match_props(w.archetypes, full, 0);
    lemma_first_empty_props(w.archetypes, 0);
    let slot = w2.entities[uid];
    let ai = slot.archetype_index as int;
    assert forall|id: u128, comp: u64| id != uid implies
        #[trigger] w2.read(id, comp) == w.read(id, comp) by {
        if w.entities.dom().contains(id) {
            assert(w2.entities.dom().contains(id) && w2.entities[id] == w.entities[id]);
            assert(w.entry_ok(id));
            let s2 = w.entities[id];
            let ai2 = s2.archetype_index as int;
            if ai2 == ai {
                match first_match_from(w.archetypes, full, 0) {
                    Some(mi) => {
                        let a = w.archetypes[mi]->Some_0;
                        lemma_count_le_sum(w.archetypes, mi);
                        let m = a.components;
                        let m2 = w2.archetypes[ai]->Some_0.components;
                        let ei = s2.entity_index;
                        assert(ei < a.count);
                        if m.dom().contains(comp) {
                            assert(m2[comp] == (if rec_has(full, comp) {
                                write_one(m[comp], rec_get(full, comp), a.count as usize)
                            } else {
                                m[comp]
                            }));
                            assert(crate::archetype::storage_fits(m[comp], a.count));
                            match m[comp] {
                                StorageView::PerEntityView { values } => {
                                    assert(m2[comp] matches StorageView::PerEntityView {
                                        values: v2 } && v2[ei as int] == values[ei as int]);
                                }
                                StorageView::SparseView { rows } => {
                                    assert(m2[comp] matches StorageView::SparseView { rows: r2 }
                                        && r2.dom().contains(ei) == rows.dom().contains(ei)
                                        && (rows.dom().contains(ei) ==> r2[ei] == rows[ei]));
                                }
                                _ => {}
                            }
                        } else {
                            assert(!m2.dom().contains(comp));
                        }
                    }
                    None => {
                        match first_empty_from(w.archetypes, 0) {
                            Some(si) => {
                                assert(w.archetypes[si] is None);
                                assert(w.archetypes[ai2] is Some);
                                assert(false);
                            }
                            None => {
                                assert(ai == w.archetypes.len());
                                assert(ai2 < w.archetypes.len());
                                assert(false);
                            }
                        }
                    }
                }
            } else {
                assert(w2.archetypes[ai2] == w.archetypes[ai2]);
            }
        } else {
            assert(!w2.entities.dom().contains(id));
        }
    }
}

/// Removing an entity leaves every other entity's data readable exactly
/// as before: the swap-compaction of every backend is matched by the
/// directory fix-up for the entity whose row moved.
pub proof fn lemma_remove_preserves_reads(w: WorldView, uid: u128)
    requires
        w.wf(),
    ensures
        forall|id: u128, comp: u64| id != uid
            ==> #[trigger] spec_remove(w, uid).read(id, comp) == w.read(id, comp),
{
    let w2 = spec_remove(w, uid);
    lemma_spec_remove_wf(w, uid);
    if w.entities.dom().contains(uid) {
        let slot = w.entities[uid];
        assert(w.entry_ok(uid));
        let ai = slot.archetype_index as int;
        let index = slot.entity_index;
        let a = w.archetypes[ai]->Some_0;
        let col = crate::world::uid_column(a);
        crate::world::lemma_count_le_sum(w.archetypes, ai);
        let top = (a.count - 1) as usize;
        let moved = col[top as int];
        assert(w.row_ok(ai, top as int));
        assert(w.entities[moved] == (EntitySlot {
            archetype_index: slot.archetype_index,
            entity_index: top,
        }));
        assert forall|id: u128, comp: u64| id != uid implies
            #[trigger] w2.read(id, comp) == w.read(id, comp) by {
            if w.entities.dom().contains(id) {
                assert(w.entry_ok(id));
                let s2 = w.entities[id];
                let ai2 = s2.archetype_index as int;
                let ei = s2.entity_index;
                if ai2 == ai {
                    // The entity shares the compacted archetype.
                    assert(col[ei as int] == id);
                    assert(ei != index) by {
                        assert(col[index as int] == uid);
                    }
                    if a.count == 1 {
                        assert(ei < 1 && index < 1);
                        assert(false);
                    }
                    let m = a.components;
                    let m2 = w2.archetypes[ai]->Some_0.components;
                    assert(w2.entities.dom().contains(id));
                    if id == moved {
                        assert(ei == top);
                        assert(index != top);
                        assert(w2.entities[id] == slot);
                        // The moved entity reads its old values at its
                        // new row.
                        assert forall|c2: u64| m.dom().contains(c2) implies
                            read_at(m2[c2], index) == read_at(m[c2], top) by {
                            assert(m2[c2] == compacted_view(m[c2], index, top));
                            assert(crate::archetype::storage_fits(m[c2], a.count));
                        }
                        if m.dom().contains(comp) {
                            assert(read_at(m2[comp], index) == read_at(m[comp], top));
                        } else {
                            assert(!m2.dom().contains(comp));
                        }
                    } else {
                        assert(ei != top) by {
                            if ei == top {
                                assert(col[top as int] == id);
                            }
                        }
                        assert(w2.entities[id] == s2);
                        assert forall|c2: u64| m.dom().contains(c2) implies
                            read_at(m2[c2], ei) == read_at(m[c2], ei) by {
                            assert(m2[c2] == compacted_view(m[c2], index, top));
                            assert(crate::archetype::storage_fits(m[c2], a.count));
                        }
                        if m.dom().contains(comp) {
                            assert(read_at(m2[comp], ei) == read_at(m[comp], ei));
                        } else {
                            assert(!m2.dom().contains(comp));
                        }
                    }
                } else {
                    assert(w2.archetypes[ai2] == w.archetypes[ai2]);
                    assert(id != moved || index == top) by {
                        if id == moved && index != top {
                            assert(s2.archetype_index == slot.archetype_index);
                        }
                    }
                    assert(w2.entities.dom().contains(id) && w2.entities[id] == s2);
                }
            } else {
                assert(!w2.entities.dom().contains(id)) by {
                    if index != top && a.count > 1 && id == moved {
                        assert(w.entities.dom().contains(moved));
                    }
                }
            }
        }
    }
}

/// What one archetype-level cull does, as a function of the state: clear
/// exactly the occupied slots whose shape satisfies the read list and
/// whose batch values satisfy the predicate, then drop the directory
/// entries of the cleared slots.
pub open spec fn spec_cull(
    w: WorldView,
    reads: Seq<ReadSpec>,
    pred: spec_fn(Seq<BatchView>) -> bool,
) -> WorldView {
    let archs2 = Seq::new(w.archetypes.len(), |k: int| match w.archetypes[k] {
        Some(a) => if reads_match(a.components, w.globals, reads)
            && pred(batch_views_of(a.components, w.globals, reads)) {
            None
        } else {
            Some(a)
        },
        None => None::<ArchetypeView>,
    });
    WorldView {
        archetypes: archs2,
        entities: purge_dangling(w.entities, archs2),
        globals: w.globals,
    }
}

/// Culling preserves the world invariant.
pub proof fn lemma_spec_cull_wf(
    w: WorldView,
    reads: Seq<ReadSpec>,
    pred: spec_fn(Seq<BatchView>) -> bool,
)
    requires
        w.wf(),
    ensures
        spec_cull(w, reads, pred).wf(),
{
    let w2 = spec_cull(w, reads, pred);
    assert forall|id: u128| #[trigger] w2.entry_ok(id) by {
        if w2.entities.dom().contains(id) {
            assert(w.entry_ok(id));
            assert(w2.entities[id] == w.entities[id]);
        }
    }
    assert forall|ai: int, ei: int| #[trigger] w2.row_ok(ai, ei) by {
        if 0 <= ai < w2.archetypes.len()
            && (w2.archetypes[ai] matches Some(a) && 0 <= ei < a.count) {
            assert(w2.archetypes[ai] == w.archetypes[ai]);
            assert(w.row_ok(ai, ei));
            let r = uid_column(w.archetypes[ai]->Some_0)[ei];
            assert(w.entities.dom().contains(r));
            assert(w.entities[r].archetype_index as int == ai);
        }
    }
    assert forall|k: int| 0 <= k < w2.archetypes.len()
        implies slot_count(#[trigger] w2.archetypes[k]) <= slot_count(w.archetypes[k]) by {}
    crate::world::lemma_sum_counts_pointwise_le(w.archetypes, w2.archetypes);
}

/// A cull that keeps an entity's archetype reads nothing and writes
/// nothing of that entity.
pub proof fn lemma_cull_preserves_spared_reads(
    w: WorldView,
    reads: Seq<ReadSpec>,
    pred: spec_fn(Seq<BatchView>) -> bool,
    uid: u128,
)
    requires
        w.wf(),
        w.entities.dom().contains(uid) ==> (w.archetypes[
            w.entities[uid].archetype_index as int
        ] matches Some(a) && !(reads_match(a.components, w.globals, reads)
            && pred(batch_views_of(a.components, w.globals, reads)))),
    ensures
        forall|comp: u64|
            #[trigger] spec_cull(w, reads, pred).read(uid, comp) == w.read(uid, comp),
{
    let w2 = spec_cull(w, reads, pred);
    if w.entities.dom().contains(uid) {
        assert(w.entry_ok(uid));
        let ai = w.entities[uid].archetype_index as int;
        assert(w2.archetypes[ai] == w.archetypes[ai]);
        assert(w2.entities.dom().contains(uid) && w2.entities[uid] == w.entities[uid]);
    } else {
        assert(!w2.entities.dom().contains(uid));
    }
}

/// What one batch transform does, as a function of the state: each
/// archetype satisfying both lists has the transform's columns installed;
/// every other slot, the directory and the globals stay as they are.
pub open spec fn spec_process(
    w: WorldView,
    reads: Seq<ReadSpec>,
    writes: Seq<u64>,
    tf: spec_fn(Seq<BatchView>, Seq<Seq<u128>>) -> Seq<Seq<u128>>,
) -> WorldView {
    WorldView {
        archetypes: Seq::new(w.archetypes.len(), |k: int| match w.archetypes[k] {
            Some(a) => if reads_match(a.components, w.globals, reads)
                && crate::archetype::writes_match(a.components, writes) {
                Some(ArchetypeView {
                    count: a.count,
                    requirements: a.requirements,
                    components: crate::archetype::installed_components(
                        a.components,
                        writes,
                        crate::world::normalize_cols(
                            tf(
                                batch_views_of(a.components, w.globals, reads),
                                crate::world::write_cols_of(a.components, writes),
                            ),
                            writes.len(),
                        ),
                        a.count,
                    ),
                })
            } else {
                Some(a)
            },
            None => None::<ArchetypeView>,
        }),
        entities: w.entities,
        globals: w.globals,
    }
}

/// A batch transform preserves the world invariant.
pub proof fn lemma_spec_process_wf(
    w: WorldView,
    reads: Seq<ReadSpec>,
    writes: Seq<u64>,
    tf: spec_fn(Seq<BatchView>, Seq<Seq<u128>>) -> Seq<Seq<u128>>,
)
    requires
        w.wf(),
    ensures
        spec_process(w, reads, writes, tf).wf(),
{
    let w2 = spec_process(w, reads, writes, tf);
    assert forall|k: int| 0 <= k < w2.archetypes.len()
        implies crate::world::process_slot_rel(w.archetypes[k], #[trigger] w2.archetypes[k]) by {
        if w.archetypes[k] is Some {
            let a = w.archetypes[k]->Some_0;
            assert(world_arch_ok(a));
            if reads_match(a.components, w.globals, reads)
                && crate::archetype::writes_match(a.components, writes) {
                crate::archetype::lemma_installed_props(
                    a.components,
                    writes,
                    crate::world::normalize_cols(
                        tf(
                            batch_views_of(a.components, w.globals, reads),
                            crate::world::write_cols_of(a.components, writes),
                        ),
                        writes.len(),
                    ),
                    a.count,
                );
            }
        }
    }
    assert forall|k: int| 0 <= k < w2.archetypes.len()
        implies ((#[trigger] w2.archetypes[k]) matches Some(a3) ==> world_arch_ok(a3)) by {
        if w2.archetypes[k] is Some {
            let a3 = w2.archetypes[k]->Some_0;
            assert(crate::world::process_slot_rel(w.archetypes[k], w2.archetypes[k]));
            let a0 = w.archetypes[k]->Some_0;
            assert(world_arch_ok(a0));
            assert(crate::world::process_storage_rel(
                a0.components[UNIQUE_ID_COMPONENT],
                a3.components[UNIQUE_ID_COMPONENT],
                UNIQUE_ID_COMPONENT,
            ));
            assert forall|id: u64| a3.components.dom().contains(id)
                implies crate::archetype::storage_fits(
                    #[trigger] a3.components[id], a3.count) by {
                assert(crate::world::process_storage_rel(
                    a0.components[id], a3.components[id], id));
                assert(crate::archetype::storage_fits(a0.components[id], a0.count));
            }
        }
    }
    assert forall|id: u128| #[trigger] w2.entry_ok(id) by {
        if w2.entities.dom().contains(id) {
            assert(w.entry_ok(id));
            let slot = w.entities[id];
            assert(crate::world::process_slot_rel(
                w.archetypes[slot.archetype_index as int],
                w2.archetypes[slot.archetype_index as int],
            ));
            let a0 = w.archetypes[slot.archetype_index as int]->Some_0;
            assert(crate::world::process_storage_rel(
                a0.components[UNIQUE_ID_COMPONENT],
                w2.archetypes[slot.archetype_index as int]->Some_0.components[
                    UNIQUE_ID_COMPONENT],
                UNIQUE_ID_COMPONENT,
            ));
        }
    }
    assert forall|ai: int, ei: int| #[trigger] w2.row_ok(ai, ei) by {
        if 0 <= ai < w2.archetypes.len()
            && (w2.archetypes[ai] matches Some(a3) && 0 <= ei < a3.count) {
            assert(crate::world::process_slot_rel(w.archetypes[ai], w2.archetypes[ai]));
            let a0 = w.archetypes[ai]->Some_0;
            assert(w.row_ok(ai, ei));
            assert(crate::world::process_storage_rel(
                a0.components[UNIQUE_ID_COMPONENT],
                w2.archetypes[ai]->Some_0.components[UNIQUE_ID_COMPONENT],
                UNIQUE_ID_COMPONENT,
            ));
        }
    }
    assert forall|k: int| 0 <= k < w2.archetypes.len()
        implies slot_count(#[trigger] w2.archetypes[k]) <= slot_count(w.archetypes[k]) by {
        assert(crate::world::process_slot_rel(w.archetypes[k], w2.archetypes[k]));
    }
    crate::world::lemma_sum_counts_pointwise_le(w.archetypes, w2.archetypes);
}

/// Installing write columns leaves every component type outside the
/// write list — and always the identifier column — exactly as it was.
pub proof fn lemma_installed_unwritten(
    m: Map<u64, StorageView>,
    writes: Seq<u64>,
    cols: Seq<Seq<u128>>,
    count: nat,
    comp: u64,
)
    requires
        !writes.contains(comp) || comp == UNIQUE_ID_COMPONENT,
        m.dom().contains(comp),
    ensures
        crate::archetype::installed_components(m, writes, cols, count).dom().contains(comp),
        crate::archetype::installed_components(m, writes, cols, count)[comp] == m[comp],
    decreases writes.len(),
{
    if writes.len() > 0 {
        assert(!writes.drop_last().contains(comp) || comp == UNIQUE_ID_COMPONENT) by {
            if writes.drop_last().contains(comp) {
                let j = choose|j: int| 0 <= j < writes.drop_last().len()
                    && writes.drop_last()[j] == comp;
                assert(writes[j] == comp);
            }
        }
        lemma_installed_unwritten(m, writes.drop_last(), cols.drop_last(), count, comp);
        assert(writes.last() != comp || comp == UNIQUE_ID_COMPONENT) by {
            if writes.last() == comp {
                assert(writes[writes.len() - 1] == comp);
            }
        }
    }
}

/// A batch transform reads and writes nothing of a component type
/// outside its write list: every entity's read of such a type stays
/// exactly as it was.
pub proof fn lemma_process_preserves_unwritten_reads(
    w: WorldView,
    reads: Seq<ReadSpec>,
    writes: Seq<u64>,
    tf: spec_fn(Seq<BatchView>, Seq<Seq<u128>>) -> Seq<Seq<u128>>,
    uid: u128,
    comp: u64,
)
    requires
        w.wf(),
        !writes.contains(comp) || comp == UNIQUE_ID_COMPONENT,
    ensures
        spec_process(w, reads, writes, tf).read(uid, comp) == w.read(uid, comp),
{
    let w2 = spec_process(w, reads, writes, tf);
    if w.entities.dom().contains(uid) {
        assert(w.entry_ok(uid));
        let slot = w.entities[uid];
        let ai = slot.archetype_index as int;
        let a = w.archetypes[ai]->Some_0;
        assert(world_arch_ok(a));
        if reads_match(a.components, w.globals, reads)
            && crate::archetype::writes_match(a.components, writes) {
            let b = w2.archetypes[ai]->Some_0;
            crate::archetype::lemma_installed_props(
                a.components,
                writes,
                crate::world::normalize_cols(
                    tf(
                        batch_views_of(a.components, w.globals, reads),
                        crate::world::write_cols_of(a.components, writes),
                    ),
                    writes.len(),
                ),
                a.count,
            );
            if a.components.dom().contains(comp) {
                lemma_installed_unwritten(
                    a.components,
                    writes,
                    crate::world::normalize_cols(
                        tf(
                            batch_views_of(a.components, w.globals, reads),
                            crate::world::write_cols_of(a.components, writes),
                        ),
                        writes.len(),
                    ),
                    a.count,
                    comp,
                );
            } else {
                assert(!b.components.dom().contains(comp));
            }
        } else {
            assert(w2.archetypes[ai] == w.archetypes[ai]);
        }
    } else {
        assert(!w2.entities.dom().contains(uid));
    }
}

/// What `World::execute_update` ensures for a cull is exactly
/// `spec_cull`: the updater's `updated` relation plus the directory
/// purge pin the whole resulting state.
pub proof fn lemma_cull_update_result<T: crate::update::CullArchetypes>(
    culler: &T,
    before: WorldView,
    after: WorldView,
)
    requires
        culler.updated(before.globals, before.archetypes, after.archetypes),
        after.entities =~= purge_dangling(before.entities, after.archetypes),
        after.globals == before.globals,
    ensures
        after =~~= spec_cull(
            before,
            culler.read_list(),
            |data: Seq<BatchView>| culler.cull_spec(data),
        ),
{
    let target = spec_cull(
        before,
        culler.read_list(),
        |data: Seq<BatchView>| culler.cull_spec(data),
    );
    assert(after.archetypes =~= target.archetypes);
    assert(after.entities =~= target.entities);
}

/// What `World::execute_process` ensures is exactly `spec_process`: the
/// per-slot results pin the whole resulting state.
pub proof fn lemma_process_result<T: crate::process::Process>(
    p: &T,
    before: WorldView,
    after: WorldView,
)
    requires
        after.archetypes.len() == before.archetypes.len(),
        forall|k: int| 0 <= k < before.archetypes.len()
            ==> crate::world::process_result_ok(
                p,
                #[trigger] before.archetypes[k],
                after.archetypes[k],
                before.globals,
            ),
        after.entities == before.entities,
        after.globals == before.globals,
    ensures
        after =~~= spec_process(
            before,
            p.read_list(),
            p.write_list(),
            |r: Seq<BatchView>, c: Seq<Seq<u128>>| p.transform_spec(r, c),
        ),
{
    let target = spec_process(
        before,
        p.read_list(),
        p.write_list(),
        |r: Seq<BatchView>, c: Seq<Seq<u128>>| p.transform_spec(r, c),
    );
    assert forall|k: int| 0 <= k < before.archetypes.len()
        implies #[trigger] after.archetypes[k] =~~= target.archetypes[k] by {
        assert(crate::world::process_result_ok(
            p,
            before.archetypes[k],
            after.archetypes[k],
            before.globals,
        ));
    }
    assert(after.archetypes =~~= target.archetypes);
}

/// One world-changing call, as a value, so that laws can speak of whole
/// histories: an insertion, a removal, a cull pass, or a transform pass.
pub ghost enum WorldOp {
    AddOp { uid: u128, rec: Seq<ComponentData> },
    RemoveOp { uid: u128 },
    CullOp { reads: Seq<ReadSpec>, pred: spec_fn(Seq<BatchView>) -> bool },
    ProcessOp {
        reads: Seq<ReadSpec>,
        writes: Seq<u64>,
        tf: spec_fn(Seq<BatchView>, Seq<Seq<u128>>) -> Seq<Seq<u128>>,
    },
}

pub open spec fn apply_op(w: WorldView, op: WorldOp) -> WorldView {
    match op {
        WorldOp::AddOp { uid, rec } => spec_add(w, uid, rec),
        WorldOp::RemoveOp { uid } => spec_remove(w, uid),
        WorldOp::CullOp { reads, pred } => spec_cull(w, reads, pred),
        WorldOp::ProcessOp { reads, writes, tf } => spec_process(w, reads, writes, tf),
    }
}

/// The preconditions one call owes, making a history a real one.
pub open spec fn op_allowed(w: WorldView, op: WorldOp) -> bool {
    match op {
        WorldOp::AddOp { uid, rec } => {
            &&& record_wf(rec)
            &&& !w.entities.dom().contains(uid)
            &&& sum_counts(w.archetypes) < usize::MAX
            &&& w.archetypes.len() < usize::MAX
        }
        _ => true,
    }
}

pub open spec fn apply_ops(w: WorldView, ops: Seq<WorldOp>) -> WorldView
    decreases ops.len(),
{
    if ops.len() == 0 {
        w
    } else {
        apply_ops(apply_op(w, ops[0]), ops.drop_first())
    }
}

pub open spec fn ops_allowed(w: WorldView, ops: Seq<WorldOp>) -> bool
    decreases ops.len(),
{
    if ops.len() == 0 {
        true
    } else {
        op_allowed(w, ops[0]) && ops_allowed(apply_op(w, ops[0]), ops.drop_first())
    }
}

/// Whether one call leaves an entity and a set of its component types
/// alone: insertions and removals of other entities, culls that keep the
/// entity's archetype, and transforms that write none of those types.
pub open spec fn op_spares(w: WorldView, op: WorldOp, uid: u128, ids: Set<u64>) -> bool {
    match op {
        WorldOp::AddOp { uid: u, .. } => u != uid,
        WorldOp::RemoveOp { uid: u } => u != uid,
        WorldOp::CullOp { reads, pred } => w.entities.dom().contains(uid) ==> (w.archetypes[
            w.entities[uid].archetype_index as int
        ] matches Some(a) && !(reads_match(a.components, w.globals, reads)
            && pred(batch_views_of(a.components, w.globals, reads)))),
        WorldOp::ProcessOp { writes, .. } => forall|c: u64|
            ids.contains(c) ==> !writes.contains(c),
    }
}

pub open spec fn ops_spare(w: WorldView, ops: Seq<WorldOp>, uid: u128, ids: Set<u64>) -> bool
    decreases ops.len(),
{
    if ops.len() == 0 {
        true
    } else {
        op_spares(w, ops[0], uid, ids)
            && ops_spare(apply_op(w, ops[0]), ops.drop_first(), uid, ids)
    }
}

/// A history of calls that spares an entity and a set of its component
/// types reads nothing and writes nothing of them: those reads stay
/// exactly as they were.
pub proof fn lemma_reads_preserved_by_ops(
    w: WorldView,
    uid: u128,
    ids: Set<u64>,
    ops: Seq<WorldOp>,
)
    requires
        w.wf(),
        ops_allowed(w, ops),
        ops_spare(w, ops, uid, ids),
    ensures
        apply_ops(w, ops).wf(),
        forall|comp: u64| ids.contains(comp) || comp == UNIQUE_ID_COMPONENT
            ==> #[trigger] apply_ops(w, ops).read(uid, comp) == w.read(uid, comp),
    decreases ops.len(),
{
    if ops.len() > 0 {
        let w2 = apply_op(w, ops[0]);
        match ops[0] {
            WorldOp::AddOp { uid: u, rec: r } => {
                lemma_spec_add_wf(w, u, r);
                lemma_add_preserves_reads(w, u, r);
            }
            WorldOp::RemoveOp { uid: u } => {
                lemma_spec_remove_wf(w, u);
                lemma_remove_preserves_reads(w, u);
            }
            WorldOp::CullOp { reads, pred } => {
                lemma_spec_cull_wf(w, reads, pred);
                lemma_cull_preserves_spared_reads(w, reads, pred, uid);
            }
            WorldOp::ProcessOp { reads, writes, tf } => {
                lemma_spec_process_wf(w, reads, writes, tf);
                assert forall|comp: u64| ids.contains(comp) || comp == UNIQUE_ID_COMPONENT
                    implies #[trigger] w2.read(uid, comp) == w.read(uid, comp) by {
                    lemma_process_preserves_unwritten_reads(w, reads, writes, tf, uid, comp);
                }
            }
        }
        lemma_reads_preserved_by_ops(w2, uid, ids, ops.drop_first());
    }
}

/// The component types a record carries.
pub open spec fn rec_ids(rec: Seq<ComponentData>) -> Set<u64> {
    Set::new(|id: u64| rec_has(rec, id))
}

/// Round-trip, across history: once an entity is inserted with a
/// component list, every component of the list reads back as written
/// after any later insertions, removals, culls and transforms that spare
/// the entity — its identifier is never named again, its archetype is
/// never culled, and no transform writes one of its listed types.
pub proof fn lemma_round_trip_history(
    w: WorldView,
    uid: u128,
    rec: Seq<ComponentData>,
    ops: Seq<WorldOp>,
)
    requires
        w.wf(),
        record_wf(rec),
        !w.entities.dom().contains(uid),
        sum_counts(w.archetypes) < usize::MAX,
        w.archetypes.len() < usize::MAX,
        ops_allowed(spec_add(w, uid, rec), ops),
        ops_spare(spec_add(w, uid, rec), ops, uid, rec_ids(rec)),
    ensures
        apply_ops(spec_add(w, uid, rec), ops).wf(),
        forall|i: int| 0 <= i < rec.len()
            ==> apply_ops(spec_add(w, uid, rec), ops).read(uid, (#[trigger] rec[i]).id)
                == Some(rec[i].value),
        apply_ops(spec_add(w, uid, rec), ops).read(uid, UNIQUE_ID_COMPONENT) == Some(uid),
{
    lemma_spec_add_wf(w, uid, rec);
    lemma_add_round_trip(w, uid, rec);
    lemma_reads_preserved_by_ops(spec_add(w, uid, rec), uid, rec_ids(rec), ops);
    assert forall|i: int| 0 <= i < rec.len() implies
        apply_ops(spec_add(w, uid, rec), ops).read(uid, (#[trigger] rec[i]).id)
            == Some(rec[i].value) by {
        assert(rec_ids(rec).contains(rec[i].id)) by {
            assert(rec_has(rec, rec[i].id)) by {
                assert(rec[i].id == rec[i].id);
            }
        }
        assert(apply_ops(spec_add(w, uid, rec), ops).read(uid, rec[i].id)
            == spec_add(w, uid, rec).read(uid, rec[i].id));
    }
}

/// Inserting an entity grows the total entity count by exactly one.
pub proof fn lemma_add_increments_count(w: WorldView, uid: u128, rec: Seq<ComponentData>)
    requires
        w.wf(),
        record_wf(rec),
        !w.entities.dom().contains(uid),
        sum_counts(w.archetypes) < usize::MAX,
        w.archetypes.len() < usize::MAX,
    ensures
        sum_counts(spec_add(w, uid, rec).archetypes) == sum_counts(w.archetypes) + 1,
{
    let full = full_record(uid, rec);
    lemma_full_record(uid, rec);
    lemma_first_match_props(w.archetypes, full, 0);
    lemma_first_empty_props(w.archetypes, 0);
    match first_match_from(w.archetypes, full, 0) {
        Some(ai) => {
            let a = w.archetypes[ai]->Some_0;
            crate::world::lemma_sum_counts_update(
                w.archetypes,
                ai,
                Some(crate::world::arch_written(a, full)),
            );
        }
        None => {
            let fresh = crate::world::arch_initialized(full);
            match first_empty_from(w.archetypes, 0) {
                Some(si) => {
                    crate::world::lemma_sum_counts_update(w.archetypes, si, Some(fresh));
                }
                None => {
                    crate::world::lemma_sum_counts_push(w.archetypes, Some(fresh));
                }
            }
        }
    }
}

/// Removing a known entity shrinks the total entity count by exactly
/// one; removing an unknown identifier changes nothing.
pub proof fn lemma_remove_decrements_count(w: WorldView, uid: u128)
    requires
        w.wf(),
    ensures
        sum_counts(spec_remove(w, uid).archetypes) == sum_counts(w.archetypes)
            - (if w.entities.dom().contains(uid) { 1int } else { 0int }),
{
    if w.entities.dom().contains(uid) {
        let slot = w.entities[uid];
        assert(w.entry_ok(uid));
        let ai = slot.archetype_index as int;
        let a = w.archetypes[ai]->Some_0;
        crate::world::lemma_count_le_sum(w.archetypes, ai);
        if a.count == 1 {
            crate::world::lemma_sum_counts_update(w.archetypes, ai, None);
        } else {
            let top = (a.count - 1) as usize;
            let a2 = crate::archetype::ArchetypeView {
                count: (a.count - 1) as nat,
                requirements: a.requirements,
                components: crate::storage::components::compacted_map(
                    a.components,
                    slot.entity_index,
                    top,
                ),
            };
            crate::world::lemma_sum_counts_update(w.archetypes, ai, Some(a2));
        }
    }
}

/// What a single-row read of one backend's view yields.
pub open spec fn read_at(v: StorageView, row: usize) -> Option<u128> {
    match v {
        StorageView::PerEntityView { values } => if row < values.len() {
            Some(values[row as int])
        } else {
            None
        },
        StorageView::PerArchetypeView { value } => Some(value),
        StorageView::SparseView { rows } => if rows.dom().contains(row) {
            Some(rows[row])
        } else {
            None
        },
        StorageView::GlobalView { .. } => None,
    }
}

/// Row-compaction invariant: after a removal, every remaining archetype's
/// dense per-entity backends have length exactly equal to its entity
/// count — all backends of all archetypes at once.
pub open spec fn rows_compact(w: WorldView) -> bool {
    forall|ai: int| 0 <= ai < w.archetypes.len()
        ==> ((#[trigger] w.archetypes[ai]) matches Some(a)
            ==> (forall|id: u64| a.components.dom().contains(id)
                ==> ((#[trigger] a.components[id]) matches StorageView::PerEntityView { values }
                    ==> values.len() == a.count)))
}

pub proof fn lemma_row_compaction(w: WorldView, uid: u128)
    requires
        w.wf(),
    ensures
        rows_compact(spec_remove(w, uid)),
{
    lemma_spec_remove_wf(w, uid);
    let w2 = spec_remove(w, uid);
    assert forall|ai: int| 0 <= ai < w2.archetypes.len()
        implies ((#[trigger] w2.archetypes[ai]) matches Some(a)
            ==> (forall|id: u64| a.components.dom().contains(id)
                ==> ((#[trigger] a.components[id]) matches StorageView::PerEntityView { values }
                    ==> values.len() == a.count))) by {
        if w2.archetypes[ai] is Some {
            let a = w2.archetypes[ai]->Some_0;
            assert(world_arch_ok(a));
            assert forall|id: u64| a.components.dom().contains(id)
                implies ((#[trigger] a.components[id])
                    matches StorageView::PerEntityView { values }
                    ==> values.len() == a.count) by {
                assert(crate::archetype::storage_fits(a.components[id], a.count));
            }
        }
    }
}

} // verus!
