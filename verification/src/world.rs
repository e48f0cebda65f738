//! The entity directory: archetype slots, the mapping from stable entity
//! identity to (archetype, row), and the world-level global storage map.
//!
//! Archetypes are held in a sparse slot list: a freed archetype becomes an
//! empty slot, never removed, so archetype indices stay stable and may be
//! reused by later insertions.

use vstd::prelude::*;
use crate::archetype::{
    record_matches, rec_has, written_components, init_components, Archetype, ArchetypeFilter,
    ArchetypeInitializer, ArchetypeView, EntityWriter,
};
use crate::component::{record_distinct, record_wf, ComponentData, Component, EntityRecord, StorageKind,
    UNIQUE_ID_COMPONENT};
use crate::shape::shape_hash;
use crate::storage::components::{compacted_map, Components};
use crate::storage::{compacted_view, Batch, Storage, StorageView};

verus! {

/// An opaque, caller-assigned 128-bit entity identifier.  No two live
/// entities share one.
#[derive(Eq, PartialEq, Copy, Debug, Clone, Hash, Structural)]
pub struct UniqueId(pub u128);

impl Component for UniqueId {
    fn component_data(&self) -> ComponentData {
        ComponentData {
            id: UNIQUE_ID_COMPONENT,
            kind: StorageKind::PerEntity,
            value: self.0,
        }
    }
}

/// Where an entity lives: which archetype slot, and which row inside it.
#[derive(Eq, PartialEq, Copy, Clone, Structural, Debug)]
pub struct EntitySlot {
    pub archetype_index: usize,
    pub entity_index: usize,
}

pub open spec fn dir_unique(s: Seq<(u128, EntitySlot)>) -> bool {
    forall|i: int, j: int|
        #![trigger s[i].0, s[j].0]
        0 <= i < j < s.len() ==> s[i].0 != s[j].0
}

pub open spec fn dir_has(s: Seq<(u128, EntitySlot)>, id: u128) -> bool {
    exists|i: int| 0 <= i < s.len() && (#[trigger] s[i]).0 == id
}

pub open spec fn dir_index_of(s: Seq<(u128, EntitySlot)>, id: u128) -> int {
    choose|i: int| 0 <= i < s.len() && (#[trigger] s[i]).0 == id
}

pub open spec fn dir_get(s: Seq<(u128, EntitySlot)>, id: u128) -> EntitySlot {
    s[dir_index_of(s, id)].1
}

/// The mathematical view of the directory: identifier to slot.
pub open spec fn dir_map(s: Seq<(u128, EntitySlot)>) -> Map<u128, EntitySlot> {
    Map::new(|id: u128| dir_has(s, id), |id: u128| dir_get(s, id))
}

/// The directory from unique identifier to (archetype, row).
#[derive(Debug)]
pub struct EntityDirectory {
    pub entries: Vec<(u128, EntitySlot)>,
}

impl View for EntityDirectory {
    type V = Map<u128, EntitySlot>;

    open spec fn view(&self) -> Map<u128, EntitySlot> {
        dir_map(self.entries@)
    }
}

impl EntityDirectory {
    pub open spec fn wf(self) -> bool {
        dir_unique(self.entries@)
    }

    pub fn new() -> (r: Self)
        ensures
            r.entries@ == Seq::<(u128, EntitySlot)>::empty(),
            r@ =~= Map::<u128, EntitySlot>::empty(),
            r.wf(),
    {
        let r = EntityDirectory { entries: Vec::new() };
        proof {
            assert(forall|id: u128| !dir_has(r.entries@, id));
        }
        r
    }

    pub fn get(&self, id: u128) -> (r: Option<EntitySlot>)
        requires
            self.wf(),
        ensures
            r == (if self@.dom().contains(id) {
                Some(self@[id])
            } else {
                None::<EntitySlot>
            }),
    {
        let n = self.entries.len();
        let mut i: usize = 0;
        while i < n
            invariant
                n == self.entries@.len(),
                0 <= i <= n,
                self.wf(),
                forall|j: int| 0 <= j < i ==> (#[trigger] self.entries@[j]).0 != id,
            decreases n - i,
        {
            let (key, slot) = self.entries[i];
            if key == id {
                proof {
                    assert(dir_has(self.entries@, id));
                    let w = dir_index_of(self.entries@, id);
                    assert(self.entries@[w].0 == id);
                    assert(w == i);
                }
                return Some(slot);
            }
            i += 1;
        }
        proof {
            assert(!dir_has(self.entries@, id));
        }
        None
    }

    /// Records a new identifier.  A duplicate identifier is a contract
    /// violation, excluded here by precondition.
    pub fn insert(&mut self, id: u128, slot: EntitySlot)
        requires
            old(self).wf(),
            !old(self)@.dom().contains(id),
        ensures
            final(self).wf(),
            final(self).entries@ == old(self).entries@.push((id, slot)),
            final(self)@ =~= old(self)@.insert(id, slot),
    {
        let ghost old_entries = self.entries@;
        self.entries.push((id, slot));
        proof {
            lemma_dir_push(old_entries, id, slot);
        }
    }

    /// Rewrites the slot of an identifier that is already present (the
    /// fix-up step after swap-compaction moves an entity's row).
    pub fn update(&mut self, id: u128, slot: EntitySlot)
        requires
            old(self).wf(),
            old(self)@.dom().contains(id),
        ensures
            final(self).wf(),
            final(self).entries@ == old(self).entries@.update(
                dir_index_of(old(self).entries@, id),
                (id, slot),
            ),
            final(self)@ =~= old(self)@.insert(id, slot),
    {
        let ghost old_entries = self.entries@;
        let n = self.entries.len();
        let mut i: usize = 0;
        while i < n
            invariant
                n == self.entries@.len(),
                0 <= i <= n,
                self.wf(),
                self.entries@ == old_entries,
                old_entries == old(self).entries@,
                dir_has(old_entries, id),
                forall|j: int| 0 <= j < i ==> (#[trigger] self.entries@[j]).0 != id,
            decreases n - i,
        {
            let (key, _) = self.entries[i];
            if key == id {
                self.entries.set(i, (id, slot));
                proof {
                    let w = dir_index_of(old_entries, id);
                    assert(old_entries[w].0 == id);
                    assert(w == i);
                    lemma_dir_update(old_entries, i as int, id, slot);
                }
                return;
            }
            i += 1;
        }
        proof {
            assert(!dir_has(old_entries, id));
            assert(false);
        }
    }

    /// Deletes an identifier, handing back its slot if it was present.
    pub fn remove(&mut self, id: u128) -> (r: Option<EntitySlot>)
        requires
            old(self).wf(),
        ensures
            final(self).wf(),
            final(self)@ =~= old(self)@.remove(id),
            r == (if old(self)@.dom().contains(id) {
                Some(old(self)@[id])
            } else {
                None::<EntitySlot>
            }),
    {
        let ghost old_entries = self.entries@;
        let n = self.entries.len();
        let mut i: usize = 0;
        while i < n
            invariant
                n == self.entries@.len(),
                0 <= i <= n,
                self.wf(),
                self.entries@ == old_entries,
                old_entries == old(self).entries@,
                forall|j: int| 0 <= j < i ==> (#[trigger] self.entries@[j]).0 != id,
            decreases n - i,
        {
            let (key, slot) = self.entries[i];
            if key == id {
                let _ = self.entries.swap_remove(i);
                proof {
                    assert(dir_has(old_entries, id));
                    let w = dir_index_of(old_entries, id);
                    assert(old_entries[w].0 == id);
                    assert(w == i);
                    lemma_dir_swap_remove(old_entries, i as int);
                }
                return Some(slot);
            }
            i += 1;
        }
        proof {
            assert(!dir_has(self.entries@, id));
            assert(self@ =~= self@.remove(id));
        }
        None
    }

    pub fn len(&self) -> (n: usize)
        ensures
            n == self.entries@.len(),
    {
        self.entries.len()
    }
}

proof fn lemma_dir_push(s: Seq<(u128, EntitySlot)>, id: u128, slot: EntitySlot)
    requires
        dir_unique(s),
        !dir_has(s, id),
    ensures
        dir_unique(s.push((id, slot))),
        dir_map(s.push((id, slot))) =~= dir_map(s).insert(id, slot),
{
    let t = s.push((id, slot));
    assert(t[s.len() as int].0 == id);
    assert forall|k: u128| #[trigger] dir_has(t, k) implies (k == id || dir_has(s, k)) by {
        let w = dir_index_of(t, k);
        if w < s.len() {
            assert(s[w].0 == k);
        }
    }
    assert forall|k: u128| k != id && dir_has(s, k) implies dir_has(t, k) by {
        let w = dir_index_of(s, k);
        assert(t[w].0 == k);
    }
    assert forall|k: u128| #[trigger] dir_has(t, k) implies
        t[dir_index_of(t, k)].1 == (if k == id { slot } else { s[dir_index_of(s, k)].1 }) by {
        let w = dir_index_of(t, k);
        assert(0 <= w < t.len() && t[w].0 == k);
        if k == id {
            if w < s.len() {
                assert(s[w].0 == id);
                assert(dir_has(s, id));
            }
            assert(w == s.len() as int);
        } else {
            assert(w != s.len() as int);
            let v = dir_index_of(s, k);
            assert(0 <= v < s.len() && s[v].0 == k);
            assert(t[v].0 == k);
            assert(v == w);
        }
    }
}

proof fn lemma_dir_update(s: Seq<(u128, EntitySlot)>, i: int, id: u128, slot: EntitySlot)
    requires
        dir_unique(s),
        0 <= i < s.len(),
        s[i].0 == id,
    ensures
        dir_unique(s.update(i, (id, slot))),
        dir_map(s.update(i, (id, slot))) =~= dir_map(s).insert(id, slot),
{
    let t = s.update(i, (id, slot));
    assert forall|k: u128| dir_has(t, k) <==> dir_has(s, k) by {
        if dir_has(t, k) {
            let w = dir_index_of(t, k);
            assert(s[if w == i { i } else { w }].0 == k);
        }
        if dir_has(s, k) {
            let w = dir_index_of(s, k);
            assert(t[if w == i { i } else { w }].0 == k);
        }
    }
    assert forall|k: u128| #[trigger] dir_has(t, k) implies
        t[dir_index_of(t, k)].1 == (if k == id { slot } else { s[dir_index_of(s, k)].1 }) by {
        let w = dir_index_of(t, k);
        assert(0 <= w < t.len() && t[w].0 == k);
        if k == id {
            assert(w == i);
        } else {
            assert(w != i);
            let v = dir_index_of(s, k);
            assert(0 <= v < s.len() && s[v].0 == k);
            assert(v == w);
        }
    }
}

proof fn lemma_dir_swap_remove(s: Seq<(u128, EntitySlot)>, i: int)
    requires
        dir_unique(s),
        0 <= i < s.len(),
    ensures
        dir_unique(s.update(i, s.last()).drop_last()),
        dir_map(s.update(i, s.last()).drop_last()) =~= dir_map(s).remove(s[i].0),
{
    let key = s[i].0;
    let t = s.update(i, s.last()).drop_last();
    assert(t.len() == s.len() - 1);
    assert forall|k: u128| #[trigger] dir_has(t, k) implies (k != key && dir_has(s, k)) by {
        let w = dir_index_of(t, k);
        if w == i {
            assert(s[s.len() - 1].0 == k);
            if i < s.len() - 1 {
                assert(s[i].0 != s[s.len() - 1].0);
            }
        } else {
            assert(s[w].0 == k);
            if k == key {
                assert(s[i].0 == k);
            }
        }
    }
    assert forall|k: u128| k != key && dir_has(s, k) implies dir_has(t, k) by {
        let w = dir_index_of(s, k);
        assert(s[w].0 == k);
        assert(w != i);
        if w == s.len() - 1 {
            if i < s.len() - 1 {
                assert(t[i].0 == k);
            }
        } else {
            assert(t[w].0 == k);
        }
    }
    assert forall|k: u128| #[trigger] dir_has(t, k) implies
        t[dir_index_of(t, k)].1 == s[dir_index_of(s, k)].1 by {
        let w = dir_index_of(t, k);
        assert(0 <= w < t.len() && t[w].0 == k);
        let v = dir_index_of(s, k);
        assert(0 <= v < s.len() && s[v].0 == k);
        if w == i {
            assert(t[w] == s[s.len() - 1]);
            assert(s[s.len() - 1].0 == k);
            assert(v == s.len() - 1);
        } else {
            assert(t[w] == s[w]);
            assert(s[w].0 == k);
            assert(v == w);
        }
    }
}

/// What a world denotes: the archetype slots, the directory, and the
/// global storages.
#[verifier::ext_equal]
pub ghost struct WorldView {
    pub archetypes: Seq<Option<ArchetypeView>>,
    pub entities: Map<u128, EntitySlot>,
    pub globals: Map<u64, StorageView>,
}

/// The entity directory: archetype slots, the identifier directory, and
/// the world-level global storage map.
#[derive(Debug)]
pub struct World {
    pub archetypes: Vec<Option<Archetype>>,
    pub entities: EntityDirectory,
    pub globals: Components,
}

impl View for World {
    type V = WorldView;

    open spec fn view(&self) -> WorldView {
        WorldView {
            archetypes: crate::archetype::arch_views(self.archetypes@),
            entities: self.entities@,
            globals: self.globals@,
        }
    }
}

/// An inserted record as it is stored: the identifier component first,
/// then the caller's components.
pub open spec fn full_record(uid: u128, rec: Seq<ComponentData>) -> Seq<ComponentData> {
    seq![ComponentData { id: UNIQUE_ID_COMPONENT, kind: StorageKind::PerEntity, value: uid }]
        + rec
}

/// The first occupied slot, scanning from `i`, whose shape includes the
/// record; first match is authoritative.
pub open spec fn first_match_from(
    archs: Seq<Option<ArchetypeView>>,
    rec: Seq<ComponentData>,
    i: int,
) -> Option<int>
    decreases archs.len() - i,
{
    if i < 0 || i >= archs.len() {
        None
    } else if archs[i] matches Some(a) && record_matches(a.components, rec) {
        Some(i)
    } else {
        first_match_from(archs, rec, i + 1)
    }
}

/// The first empty slot, scanning from `i`.
pub open spec fn first_empty_from(archs: Seq<Option<ArchetypeView>>, i: int) -> Option<int>
    decreases archs.len() - i,
{
    if i < 0 || i >= archs.len() {
        None
    } else if archs[i] is None {
        Some(i)
    } else {
        first_empty_from(archs, i + 1)
    }
}

/// An archetype after a record is written into its next row.
pub open spec fn arch_written(a: ArchetypeView, rec: Seq<ComponentData>) -> ArchetypeView {
    ArchetypeView {
        count: a.count + 1,
        requirements: a.requirements,
        components: written_components(a.components, rec, a.count as usize),
    }
}

/// A fresh archetype created from a record: one row, the record's shape
/// identifier, one backend per component.
pub open spec fn arch_initialized(rec: Seq<ComponentData>) -> ArchetypeView {
    ArchetypeView {
        count: 1,
        requirements: shape_hash(rec),
        components: init_components(rec),
    }
}

/// The archetype slots after inserting a full record: the first matching
/// archetype grows by a row, or a fresh archetype takes the first empty
/// slot or a new one.
pub open spec fn spec_add_archetypes(
    archs: Seq<Option<ArchetypeView>>,
    full: Seq<ComponentData>,
) -> Seq<Option<ArchetypeView>> {
    match first_match_from(archs, full, 0) {
        Some(ai) => archs.update(ai, Some(arch_written(archs[ai]->Some_0, full))),
        None => {
            let fresh = arch_initialized(full);
            match first_empty_from(archs, 0) {
                Some(si) => archs.update(si, Some(fresh)),
                None => archs.push(Some(fresh)),
            }
        }
    }
}

/// The (archetype, row) pair an inserted full record lands at.
pub open spec fn spec_add_slot(
    archs: Seq<Option<ArchetypeView>>,
    full: Seq<ComponentData>,
) -> EntitySlot {
    match first_match_from(archs, full, 0) {
        Some(ai) => EntitySlot {
            archetype_index: ai as usize,
            entity_index: slot_count(archs[ai]) as usize,
        },
        None => match first_empty_from(archs, 0) {
            Some(si) => EntitySlot { archetype_index: si as usize, entity_index: 0 },
            None => EntitySlot { archetype_index: archs.len() as usize, entity_index: 0 },
        },
    }
}

/// What `remove_entity` does: nothing for an unknown identifier;
/// otherwise the directory entry is deleted, the owning archetype
/// swap-compacts the row away, the entity moved down from the top row has
/// its directory entry rewritten to its new row, and an archetype whose
/// count reaches zero has its slot cleared.
pub open spec fn spec_remove(w: WorldView, uid: u128) -> WorldView {
    if !w.entities.dom().contains(uid) {
        w
    } else {
        let slot = w.entities[uid];
        let ai = slot.archetype_index as int;
        let a = w.archetypes[ai]->Some_0;
        let top = (a.count - 1) as usize;
        let removed = w.entities.remove(uid);
        if a.count == 1 {
            WorldView {
                archetypes: w.archetypes.update(ai, None),
                entities: removed,
                globals: w.globals,
            }
        } else {
            let a2 = ArchetypeView {
                count: (a.count - 1) as nat,
                requirements: a.requirements,
                components: compacted_map(a.components, slot.entity_index, top),
            };
            WorldView {
                archetypes: w.archetypes.update(ai, Some(a2)),
                entities: if slot.entity_index != top {
                    removed.insert(uid_column(a)[top as int], slot)
                } else {
                    removed
                },
                globals: w.globals,
            }
        }
    }
}

/// What `add_entity` does, as a function of the prior state and the
/// arguments: the shape-matching/creation protocol followed by one
/// directory insertion.
pub open spec fn spec_add(w: WorldView, uid: u128, rec: Seq<ComponentData>) -> WorldView {
    let full = full_record(uid, rec);
    WorldView {
        archetypes: spec_add_archetypes(w.archetypes, full),
        entities: w.entities.insert(uid, spec_add_slot(w.archetypes, full)),
        globals: w.globals,
    }
}

pub open spec fn slot_count(a: Option<ArchetypeView>) -> int {
    match a {
        Some(v) => v.count as int,
        None => 0,
    }
}

/// The total number of live entities: each occupied slot contributes its
/// row count.
pub open spec fn sum_counts(s: Seq<Option<ArchetypeView>>) -> int
    decreases s.len(),
{
    if s.len() == 0 {
        0
    } else {
        sum_counts(s.drop_last()) + slot_count(s.last())
    }
}

/// What a batch transform may do to one backend: rewrite a dense
/// per-entity column without changing its length, leave the identifier
/// column and every other strategy untouched.
pub open spec fn process_storage_rel(v: StorageView, w: StorageView, id: u64) -> bool {
    match v {
        StorageView::PerEntityView { values } => {
            &&& w matches StorageView::PerEntityView { values: values2 }
            &&& values2.len() == values.len()
            &&& (id == UNIQUE_ID_COMPONENT ==> values2 == values)
        }
        _ => w == v,
    }
}

/// What a batch transform may do to one archetype: same row count, same
/// shape identifier, same component types, each backend within
/// `process_storage_rel`.
pub open spec fn process_arch_rel(a: ArchetypeView, b: ArchetypeView) -> bool {
    &&& b.count == a.count
    &&& b.requirements == a.requirements
    &&& b.components.dom() =~= a.components.dom()
    &&& forall|id: u64| a.components.dom().contains(id)
        ==> process_storage_rel(#[trigger] a.components[id], b.components[id], id)
}

/// What a batch transform may do to one slot: empty stays empty, occupied
/// stays occupied within `process_arch_rel`.
pub open spec fn process_slot_rel(o: Option<ArchetypeView>, f: Option<ArchetypeView>) -> bool {
    match o {
        None => f is None,
        Some(a) => f matches Some(b) && process_arch_rel(a, b),
    }
}

/// The values a write list's columns currently hold in an archetype's
/// map (meaningful where the write list resolves as dense columns).
pub open spec fn write_cols_of(m: Map<u64, StorageView>, writes: Seq<u64>) -> Seq<Seq<u128>> {
    Seq::new(writes.len(), |k: int| m[writes[k]]->values)
}

/// Pares or pads a transform's returned columns to one per write entry;
/// a padded empty column installs nothing.
pub open spec fn normalize_cols(cols: Seq<Seq<u128>>, n: nat) -> Seq<Seq<u128>> {
    Seq::new(n, |k: int| if k < cols.len() {
        cols[k]
    } else {
        Seq::<u128>::empty()
    })
}

/// What one pass of a batch transform does to one slot: an archetype that
/// satisfies both the read list and the write list keeps its count and
/// shape identifier and has the transform's returned columns — applied to
/// exactly this archetype's batch values and current write columns —
/// installed; every other slot is left exactly as it was.
pub open spec fn process_result_ok<T: crate::process::Process>(
    p: &T,
    o: Option<ArchetypeView>,
    f: Option<ArchetypeView>,
    globals: Map<u64, StorageView>,
) -> bool {
    let reads = p.read_list();
    let writes = p.write_list();
    match o {
        None => f is None,
        Some(a) => if crate::query::reads_match(a.components, globals, reads)
            && crate::archetype::writes_match(a.components, writes) {
            f matches Some(b)
                && b.count == a.count
                && b.requirements == a.requirements
                && b.components =~= crate::archetype::installed_components(
                    a.components,
                    writes,
                    normalize_cols(
                        p.transform_spec(
                            crate::query::batch_views_of(a.components, globals, reads),
                            write_cols_of(a.components, writes),
                        ),
                        writes.len(),
                    ),
                    a.count,
                )
        } else {
            f == Some(a)
        },
    }
}

/// The old directory restricted to entries whose archetype slot is still
/// occupied.
pub open spec fn purge_dangling(
    entities: Map<u128, EntitySlot>,
    archs: Seq<Option<ArchetypeView>>,
) -> Map<u128, EntitySlot> {
    Map::new(
        |id: u128| entities.dom().contains(id)
            && entities[id].archetype_index < archs.len()
            && archs[entities[id].archetype_index as int] is Some,
        |id: u128| entities[id],
    )
}

/// Clearing slots never increases the total entity count.
pub proof fn lemma_sum_counts_pointwise_le(
    s1: Seq<Option<ArchetypeView>>,
    s2: Seq<Option<ArchetypeView>>,
)
    requires
        s1.len() == s2.len(),
        forall|i: int| 0 <= i < s1.len()
            ==> slot_count(#[trigger] s2[i]) <= slot_count(s1[i]),
    ensures
        sum_counts(s2) <= sum_counts(s1),
    decreases s1.len(),
{
    if s1.len() > 0 {
        lemma_sum_counts_pointwise_le(s1.drop_last(), s2.drop_last());
        assert(slot_count(s2.last()) <= slot_count(s1.last()));
    }
}

pub proof fn lemma_sum_counts_nonneg(s: Seq<Option<ArchetypeView>>)
    ensures
        0 <= sum_counts(s),
    decreases s.len(),
{
    if s.len() > 0 {
        lemma_sum_counts_nonneg(s.drop_last());
    }
}

/// Extending a prefix by one slot adds that slot's count.
pub proof fn lemma_sum_counts_take_step(s: Seq<Option<ArchetypeView>>, i: int)
    requires
        0 <= i < s.len(),
    ensures
        sum_counts(s.take(i + 1)) == sum_counts(s.take(i)) + slot_count(s[i]),
{
    assert(s.take(i + 1).drop_last() =~= s.take(i));
    assert(s.take(i + 1).last() == s[i]);
}

/// A prefix never counts more than the whole.
pub proof fn lemma_sum_counts_take_le(s: Seq<Option<ArchetypeView>>, i: int)
    requires
        0 <= i <= s.len(),
    ensures
        sum_counts(s.take(i)) <= sum_counts(s),
    decreases s.len() - i,
{
    if i == s.len() {
        assert(s.take(i) =~= s);
    } else {
        lemma_sum_counts_take_step(s, i);
        lemma_sum_counts_take_le(s, i + 1);
        assert(slot_count(s[i]) >= 0);
    }
}

/// One occupied slot never counts more than the whole.
pub proof fn lemma_count_le_sum(s: Seq<Option<ArchetypeView>>, ai: int)
    requires
        0 <= ai < s.len(),
    ensures
        slot_count(s[ai]) <= sum_counts(s),
{
    lemma_sum_counts_take_step(s, ai);
    lemma_sum_counts_take_le(s, ai + 1);
    lemma_sum_counts_nonneg(s.take(ai));
}

/// The dense column of entity identifiers every archetype carries.
pub open spec fn uid_column(a: ArchetypeView) -> Seq<u128> {
    a.components[UNIQUE_ID_COMPONENT]->values
}

/// An archetype as the world holds it: well formed, never empty, and
/// carrying the identifier column.
pub open spec fn world_arch_ok(a: ArchetypeView) -> bool {
    &&& a.count >= 1
    &&& a.components.dom().contains(UNIQUE_ID_COMPONENT)
    &&& a.components[UNIQUE_ID_COMPONENT] is PerEntityView
    &&& forall|id: u64| a.components.dom().contains(id)
        ==> crate::archetype::storage_fits(#[trigger] a.components[id], a.count)
}

impl WorldView {
    /// One directory entry points at a live row whose identifier column
    /// names its own identifier.
    pub open spec fn entry_ok(self, id: u128) -> bool {
        self.entities.dom().contains(id) ==> {
            let slot = self.entities[id];
            &&& slot.archetype_index < self.archetypes.len()
            &&& self.archetypes[slot.archetype_index as int] matches Some(a)
            &&& slot.entity_index < a.count
            &&& uid_column(a)[slot.entity_index as int] == id
        }
    }

    /// One live row is indexed by the directory under its identifier.
    pub open spec fn row_ok(self, ai: int, ei: int) -> bool {
        (0 <= ai < self.archetypes.len()
            && (self.archetypes[ai] matches Some(a) && 0 <= ei < a.count)) ==> {
            let a = self.archetypes[ai]->Some_0;
            let id = uid_column(a)[ei];
            &&& self.entities.dom().contains(id)
            &&& self.entities[id] == (EntitySlot {
                archetype_index: ai as usize,
                entity_index: ei as usize,
            })
        }
    }

    /// The world invariant at the level of what it denotes: every occupied
    /// slot holds a compact, identifier-carrying archetype; the directory
    /// and the rows index each other exactly; no global backend strays
    /// into an archetype and only globals live in the world map; and the
    /// total entity count fits the machine.
    pub open spec fn wf(self) -> bool {
        &&& forall|ai: int| 0 <= ai < self.archetypes.len()
            ==> ((#[trigger] self.archetypes[ai]) matches Some(a) ==> world_arch_ok(a))
        &&& forall|id: u128| #[trigger] self.entry_ok(id)
        &&& forall|ai: int, ei: int| #[trigger] self.row_ok(ai, ei)
        &&& forall|id: u64| self.globals.dom().contains(id)
            ==> (#[trigger] self.globals[id]) is GlobalView
        &&& sum_counts(self.archetypes) <= usize::MAX
        &&& self.archetypes.len() <= usize::MAX
    }

    /// What reading one component of one entity yields: directory lookup,
    /// then the owning archetype's backend for the type (or the world map
    /// for a global), then a single-row read — none at any missing step.
    pub open spec fn read(self, id: u128, comp: u64) -> Option<u128> {
        if !self.entities.dom().contains(id) {
            None
        } else {
            let slot = self.entities[id];
            if slot.archetype_index >= self.archetypes.len() {
                None
            } else {
                match self.archetypes[slot.archetype_index as int] {
                    None => None,
                    Some(a) => {
                        if a.components.dom().contains(comp) {
                            match a.components[comp] {
                                StorageView::PerEntityView { values } => {
                                    if slot.entity_index < values.len() {
                                        Some(values[slot.entity_index as int])
                                    } else {
                                        None
                                    }
                                }
                                StorageView::PerArchetypeView { value } => Some(value),
                                StorageView::SparseView { rows } => {
                                    if rows.dom().contains(slot.entity_index) {
                                        Some(rows[slot.entity_index])
                                    } else {
                                        None
                                    }
                                }
                                StorageView::GlobalView { .. } => None,
                            }
                        } else {
                            if self.globals.dom().contains(comp) {
                                match self.globals[comp] {
                                    StorageView::GlobalView { global_value } => Some(global_value),
                                    _ => None,
                                }
                            } else {
                                None
                            }
                        }
                    }
                }
            }
        }
    }
}

impl Default for World {
    fn default() -> (r: Self)
        ensures
            r.wf(),
            r@.archetypes == Seq::<Option<ArchetypeView>>::empty(),
            r@.entities =~= Map::<u128, EntitySlot>::empty(),
            r@.globals =~= Map::<u64, StorageView>::empty(),
    {
        World::new()
    }
}

impl World {
    /// Representation conditions under the view: association lists carry
    /// distinct keys and every backend keeps its own conditions.
    pub open spec fn wf_rep(self) -> bool {
        &&& self.globals.wf()
        &&& self.entities.wf()
        &&& forall|ai: int| 0 <= ai < self.archetypes@.len()
            ==> ((#[trigger] self.archetypes@[ai]) matches Some(a) ==> a.components.wf())
    }

    pub open spec fn wf(self) -> bool {
        &&& self.wf_rep()
        &&& self@.wf()
    }

    pub fn new() -> (r: Self)
        ensures
            r.wf(),
            r@.archetypes == Seq::<Option<ArchetypeView>>::empty(),
            r@.entities =~= Map::<u128, EntitySlot>::empty(),
            r@.globals =~= Map::<u64, StorageView>::empty(),
    {
        let r = World {
            archetypes: Vec::new(),
            entities: EntityDirectory::new(),
            globals: Components::new(),
        };
        proof {
            assert(r@.archetypes =~= Seq::<Option<ArchetypeView>>::empty());
            assert forall|id: u128| #[trigger] r@.entry_ok(id) by {
                assert(!dir_has(r.entities.entries@, id));
            }
            assert forall|ai: int, ei: int| #[trigger] r@.row_ok(ai, ei) by {}
        }
        r
    }

    /// How many entities are live: the sum of every occupied slot's row
    /// count.
    pub fn entity_count(&self) -> (n: usize)
        requires
            self.wf(),
        ensures
            n == sum_counts(self@.archetypes),
    {
        let len = self.archetypes.len();
        let mut total: usize = 0;
        let mut i: usize = 0;
        while i < len
            invariant
                len == self.archetypes@.len(),
                0 <= i <= len,
                self.wf(),
                total == sum_counts(self@.archetypes.take(i as int)),
            decreases len - i,
        {
            proof {
                lemma_sum_counts_take_step(self@.archetypes, i as int);
                lemma_sum_counts_take_le(self@.archetypes, i + 1 as int);
            }
            match &self.archetypes[i] {
                Some(a) => {
                    total = total + a.num_entities();
                }
                None => {}
            }
            i += 1;
        }
        proof {
            assert(self@.archetypes.take(len as int) =~= self@.archetypes);
        }
        total
    }

    /// Adds an entity under a fresh identifier.  The record is extended
    /// with the identifier component, written into the first archetype
    /// whose shape includes it, or into a fresh archetype placed in the
    /// first empty slot (or a new one), and the directory records the
    /// (archetype, row) pair.  The resulting state is a function of the
    /// prior state and the arguments alone: insertion is deterministic.
    #[verifier::loop_isolation(false)]
    pub fn add_entity(&mut self, unique_id: UniqueId, entity: EntityRecord)
        requires
            old(self).wf(),
            record_wf(entity.components@),
            !old(self)@.entities.dom().contains(unique_id.0),
            sum_counts(old(self)@.archetypes) < usize::MAX,
            old(self)@.archetypes.len() < usize::MAX,
        ensures
            final(self).wf(),
            final(self)@ == spec_add(old(self)@, unique_id.0, entity.components@),
            forall|i: int| 0 <= i < entity.components@.len()
                ==> final(self)@.read(unique_id.0, (#[trigger] entity.components@[i]).id)
                    == Some(entity.components@[i].value),
            final(self)@.read(unique_id.0, UNIQUE_ID_COMPONENT) == Some(unique_id.0),
            forall|id: u128, comp: u64| id != unique_id.0
                ==> #[trigger] final(self)@.read(id, comp) == old(self)@.read(id, comp),
    {
        let ghost w0 = self@;
        let ghost rec = entity.components@;
        let mut full = EntityRecord::new();
        full.push(ComponentData {
            id: UNIQUE_ID_COMPONENT,
            kind: StorageKind::PerEntity,
            value: unique_id.0,
        });
        let n = entity.components.len();
        let mut k: usize = 0;
        while k < n
            invariant
                n == rec.len(),
                0 <= k <= n,
                rec == entity.components@,
                full.components@ == full_record(unique_id.0, rec).take(k + 1 as int),
            decreases n - k,
        {
            proof {
                assert(full_record(unique_id.0, rec).take(k + 2 as int).drop_last()
                    =~= full_record(unique_id.0, rec).take(k + 1 as int));
            }
            full.push(entity.components[k]);
            k += 1;
        }
        proof {
            assert(full.components@ =~= full_record(unique_id.0, rec));
            lemma_full_record(unique_id.0, rec);
        }
        let slot = self.add_entity_inner(full);
        self.entities.insert(unique_id.0, slot);
        proof {
            lemma_spec_add_wf(w0, unique_id.0, rec);
            assert(self@ =~~= spec_add(w0, unique_id.0, rec));
            crate::laws::lemma_add_round_trip(w0, unique_id.0, rec);
            crate::laws::lemma_add_preserves_reads(w0, unique_id.0, rec);
        }
    }

    /// Finds or creates the archetype for a full record (identifier
    /// component first) and writes the record into a fresh row of it.
    #[verifier::loop_isolation(false)]
    fn add_entity_inner(&mut self, entity: EntityRecord) -> (slot: EntitySlot)
        requires
            old(self).wf(),
            record_distinct(entity.components@),
            entity.components@.len() > 0,
            entity.components@[0].id == UNIQUE_ID_COMPONENT,
            entity.components@[0].kind == StorageKind::PerEntity,
            sum_counts(old(self)@.archetypes) < usize::MAX,
            old(self)@.archetypes.len() < usize::MAX,
        ensures
            final(self).wf_rep(),
            final(self).entities == old(self).entities,
            final(self).globals == old(self).globals,
            final(self)@.archetypes =~= spec_add_archetypes(
                old(self)@.archetypes,
                entity.components@,
            ),
            slot == spec_add_slot(old(self)@.archetypes, entity.components@),
    {
        let ghost archs0 = self@.archetypes;
        let ghost rec = entity.components@;
        // First try writing it into a matching archetype: slot order,
        // first match wins.
        let n = self.archetypes.len();
        let mut i: usize = 0;
        while i < n
            invariant
                n == self.archetypes@.len(),
                0 <= i <= n,
                self == old(self),
                archs0 == self@.archetypes,
                rec == entity.components@,
                old(self).wf(),
                first_match_from(archs0, rec, 0) == first_match_from(archs0, rec, i as int),
            decreases n - i,
        {
            let matched = match &self.archetypes[i] {
                Some(archetype) => entity.includes(archetype),
                None => false,
            };
            if matched {
                proof {
                    assert(first_match_from(archs0, rec, i as int) == Some(i as int));
                    lemma_count_le_sum(archs0, i as int);
                }
                let slot_ref = &mut self.archetypes[i];
                let row: usize;
                match slot_ref {
                    Some(archetype) => {
                        proof {
                            assert(Some(*archetype) == old(self).archetypes@[i as int]);
                            assert(archetype@ == archs0[i as int]->Some_0);
                            assert((archetype.num_entities as int)
                                == slot_count(archs0[i as int]));
                            assert(archetype.num_entities < usize::MAX);
                            assert(archetype.components.wf());
                            assert(record_matches(archetype@.components, rec));
                        }
                        row = archetype.entity_write_slot();
                        proof {
                            assert forall|q: int| 0 <= q < rec.len()
                                implies crate::archetype::write_ready(
                                    archetype@.components,
                                    #[trigger] rec[q],
                                    row,
                                ) by {
                                assert(crate::archetype::comp_satisfied(
                                    archs0[i as int]->Some_0.components, rec[q]));
                                if rec[q].kind == StorageKind::PerEntity {
                                    assert(crate::archetype::storage_fits(
                                        archs0[i as int]->Some_0.components[rec[q].id],
                                        archs0[i as int]->Some_0.count,
                                    ));
                                }
                            }
                        }
                        entity.write(archetype, row);
                        proof {
                            assert(archetype@ =~~= arch_written(archs0[i as int]->Some_0, rec));
                            assert(archetype.components.wf());
                        }
                    }
                    None => {
                        proof {
                            assert(false);
                        }
                        row = 0;
                    }
                }
                proof {
                    assert(self.archetypes@[i as int] matches Some(na)
                        && na@ == arch_written(archs0[i as int]->Some_0, rec)
                        && na.components.wf());
                    assert(forall|k: int| 0 <= k < self.archetypes@.len() && k != i
                        ==> self.archetypes@[k] == old(self).archetypes@[k]);
                    assert(self@.archetypes =~= spec_add_archetypes(archs0, rec));
                    assert(slot_count(archs0[i as int]) == archs0[i as int]->Some_0.count);
                }
                return EntitySlot { archetype_index: i, entity_index: row };
            }
            i += 1;
        }
        proof {
            assert(first_match_from(archs0, rec, 0) == None::<int>);
        }
        // No archetype matches: create a new one with the record's shape
        // identifier, reserve row 0 and initialize a backend for every
        // component the record carries.
        let requirements = entity.requirements_digest();
        let mut archetype = Archetype::new(requirements);
        let row = archetype.entity_write_slot();
        proof {
            assert(row == 0);
        }
        entity.initialize(&mut archetype);
        proof {
            assert(archetype@ =~~= arch_initialized(rec));
        }
        // Place it into the first empty slot, or append a new slot if
        // none is empty.
        let mut j: usize = 0;
        while j < n
            invariant
                n == self.archetypes@.len(),
                0 <= j <= n,
                self == old(self),
                archs0 == self@.archetypes,
                archetype@ == arch_initialized(rec),
                archetype.components.wf(),
                old(self).wf(),
                first_match_from(archs0, rec, 0) is None,
                first_empty_from(archs0, 0) == first_empty_from(archs0, j as int),
            decreases n - j,
        {
            let empty = match &self.archetypes[j] {
                Some(_) => false,
                None => true,
            };
            if empty {
                proof {
                    assert(first_empty_from(archs0, j as int) == Some(j as int));
                }
                self.archetypes.set(j, Some(archetype));
                proof {
                    assert(self@.archetypes =~= spec_add_archetypes(archs0, rec));
                }
                return EntitySlot { archetype_index: j, entity_index: 0 };
            }
            j += 1;
        }
        proof {
            assert(first_empty_from(archs0, 0) == None::<int>);
        }
        self.archetypes.push(Some(archetype));
        proof {
            assert(self@.archetypes =~= spec_add_archetypes(archs0, rec));
        }
        EntitySlot { archetype_index: n, entity_index: 0 }
    }

    /// Removes an entity: deletes its directory entry, swap-compacts its
    /// row out of the owning archetype, rewrites the directory entry of
    /// whichever entity the compaction moved, and clears the archetype's
    /// slot when its last entity leaves.  Removing an unknown identifier
    /// is tolerated as a no-op.
    pub fn remove_entity(&mut self, unique_id: UniqueId)
        requires
            old(self).wf(),
        ensures
            final(self).wf(),
            final(self)@ == spec_remove(old(self)@, unique_id.0),
            forall|id: u128, comp: u64| id != unique_id.0
                ==> #[trigger] final(self)@.read(id, comp) == old(self)@.read(id, comp),
    {
        let ghost w0 = self@;
        let slot = match self.entities.remove(unique_id.0) {
            Some(slot) => slot,
            None => {
                proof {
                    assert(self@ =~~= spec_remove(w0, unique_id.0));
                    crate::laws::lemma_remove_preserves_reads(w0, unique_id.0);
                }
                return;
            }
        };
        proof {
            assert(w0.entry_ok(unique_id.0));
            lemma_spec_remove_wf(w0, unique_id.0);
        }
        // The identifier of the entity occupying the top row, which the
        // compaction will move into the vacated row.
        let (count, moved_uid) = match &self.archetypes[slot.archetype_index] {
            Some(archetype) => {
                let c = archetype.num_entities();
                let mu = match archetype.get_storage(UNIQUE_ID_COMPONENT) {
                    Some(storage) => {
                        match storage {
                            Storage::PerEntity(s) => {
                                match s.borrow().read(c - 1) {
                                    Some(v) => v,
                                    None => {
                                        proof {
                                            assert(false);
                                        }
                                        0
                                    }
                                }
                            }
                            _ => {
                                proof {
                                    assert(false);
                                }
                                0
                            }
                        }
                    }
                    None => {
                        proof {
                            assert(false);
                        }
                        0
                    }
                };
                (c, mu)
            }
            None => {
                proof {
                    assert(false);
                }
                (0, 0)
            }
        };
        proof {
            assert(moved_uid == uid_column(w0.archetypes[slot.archetype_index as int]->Some_0)[
                count - 1]);
        }
        if count == 1 {
            // The archetype's last entity leaves: clear the slot; its
            // index may be reused by a future insertion.
            self.archetypes.set(slot.archetype_index, None);
            proof {
                assert(self@ =~~= spec_remove(w0, unique_id.0));
                crate::laws::lemma_remove_preserves_reads(w0, unique_id.0);
            }
            return;
        }
        let slot_ref = &mut self.archetypes[slot.archetype_index];
        match slot_ref {
            Some(archetype) => {
                proof {
                    assert(Some(*archetype)
                        == old(self).archetypes@[slot.archetype_index as int]);
                }
                archetype.remove_entity(slot.entity_index);
            }
            None => {
                proof {
                    assert(false);
                }
            }
        }
        if slot.entity_index != count - 1 {
            proof {
                assert(w0.row_ok(slot.archetype_index as int, count - 1));
                assert(dir_has(self.entities.entries@, moved_uid));
            }
            self.entities.update(moved_uid, slot);
        }
        proof {
            assert(self@ =~~= spec_remove(w0, unique_id.0));
            crate::laws::lemma_remove_preserves_reads(w0, unique_id.0);
        }
    }

    /// Runs a read-only query: hands it the lazy per-archetype batch
    /// sequence over this world and returns whatever it folds the
    /// batches into.  The world itself is untouched.
    pub fn execute_query<T: crate::query::Query>(&self, query: &T) -> T::Output
        requires
            self.wf(),
    {
        let reads = query.reads();
        let query_data = crate::query::QueryData::new(&self.globals, &self.archetypes, reads);
        query.execute(query_data)
    }

    /// Runs an archetype-level cull: each slot is kept exactly as it was
    /// or cleared — exactly as the updater's own `updated` relation says
    /// — and directory entries of discarded archetypes are dropped with
    /// them.
    #[verifier::loop_isolation(false)]
    pub fn execute_update<T: crate::update::Update>(&mut self, update: &T)
        requires
            old(self).wf(),
        ensures
            final(self).wf(),
            update.updated(
                old(self)@.globals,
                old(self)@.archetypes,
                final(self)@.archetypes,
            ),
            final(self)@.globals == old(self)@.globals,
            final(self)@.archetypes.len() == old(self)@.archetypes.len(),
            forall|k: int| 0 <= k < old(self)@.archetypes.len()
                ==> (#[trigger] final(self)@.archetypes[k]) == old(self)@.archetypes[k]
                    || final(self)@.archetypes[k] is None,
            final(self)@.entities =~= purge_dangling(
                old(self)@.entities,
                final(self)@.archetypes,
            ),
    {
        update.execute(&self.globals, &mut self.archetypes);
        // Entries of culled archetypes would dangle: drop them, so every
        // remaining entry still points at a live row.
        let ghost entries0 = self.entities.entries@;
        let n = self.archetypes.len();
        let m = self.entities.entries.len();
        let mut kept: Vec<(u128, EntitySlot)> = Vec::new();
        let mut e: usize = 0;
        while e < m
            invariant
                m == entries0.len(),
                entries0 == self.entities.entries@,
                n == self.archetypes@.len(),
                0 <= e <= m,
                dir_unique(kept@),
                forall|k: int| 0 <= k < kept@.len() ==> {
                    let j = dir_index_of(entries0, (#[trigger] kept@[k]).0);
                    &&& 0 <= j < e
                    &&& entries0[j] == kept@[k]
                    &&& entries0[j].1.archetype_index < n
                    &&& self.archetypes@[entries0[j].1.archetype_index as int] is Some
                },
                forall|j: int| 0 <= j < e && (#[trigger] entries0[j]).1.archetype_index < n
                    && self.archetypes@[entries0[j].1.archetype_index as int] is Some
                    ==> dir_has(kept@, entries0[j].0),
            decreases m - e,
        {
            let (id, slot) = self.entities.entries[e];
            proof {
                assert(dir_has(entries0, id)) by {
                    assert(entries0[e as int].0 == id);
                }
                assert(dir_index_of(entries0, id) == e) by {
                    let j = dir_index_of(entries0, id);
                    assert(0 <= j < m && entries0[j].0 == id);
                    if j != e {
                        assert(entries0[j].0 == entries0[e as int].0);
                        assert(false);
                    }
                }
            }
            let keep = if slot.archetype_index < n {
                match &self.archetypes[slot.archetype_index] {
                    Some(_) => true,
                    None => false,
                }
            } else {
                false
            };
            if keep {
                proof {
                    if dir_has(kept@, id) {
                        let k = dir_index_of(kept@, id);
                        assert(0 <= k < kept@.len() && kept@[k].0 == id);
                        assert(dir_index_of(entries0, kept@[k].0) < e);
                        assert(false);
                    }
                }
                let ghost kept0 = kept@;
                kept.push((id, slot));
                proof {
                    assert(kept@ == kept0.push((id, slot)));
                    assert(kept@[kept@.len() - 1] == entries0[e as int]);
                    assert forall|k: int| 0 <= k < kept@.len() implies {
                        let j = dir_index_of(entries0, (#[trigger] kept@[k]).0);
                        &&& 0 <= j <= e
                        &&& entries0[j] == kept@[k]
                        &&& entries0[j].1.archetype_index < n
                        &&& self.archetypes@[entries0[j].1.archetype_index as int] is Some
                    } by {
                        if k < kept@.len() - 1 {
                            assert(kept@[k] == kept0[k]);
                        } else {
                            assert(kept@[k] == entries0[e as int]);
                            assert(dir_index_of(entries0, kept@[k].0) == e);
                        }
                    }
                    assert forall|j: int| 0 <= j <= e
                        && (#[trigger] entries0[j]).1.archetype_index < n
                        && self.archetypes@[entries0[j].1.archetype_index as int] is Some
                        implies dir_has(kept@, entries0[j].0) by {
                        if j < e {
                            assert(dir_has(kept0, entries0[j].0));
                            let k = dir_index_of(kept0, entries0[j].0);
                            assert(kept@[k].0 == entries0[j].0);
                        } else {
                            assert(kept@[kept@.len() - 1].0 == entries0[e as int].0);
                        }
                    }
                }
            }
            e += 1;
        }
        self.entities = EntityDirectory { entries: kept };
        proof {
            let w0 = old(self)@;
            let archs2 = self@.archetypes;
            assert forall|k: int| 0 <= k < archs2.len() implies
                ((#[trigger] archs2[k]) == w0.archetypes[k] || archs2[k] is None) by {
                assert(self.archetypes@[k] == old(self).archetypes@[k]
                    || self.archetypes@[k] is None);
            }
            assert(self.wf_rep()) by {
                assert forall|k: int| 0 <= k < self.archetypes@.len()
                    implies ((#[trigger] self.archetypes@[k]) matches Some(a)
                        ==> a.components.wf()) by {
                    assert(self.archetypes@[k] == old(self).archetypes@[k]
                        || self.archetypes@[k] is None);
                }
            }
            // The kept entries denote exactly the old directory restricted
            // to surviving slots.
            assert forall|id: u128| dir_has(kept@, id) implies
                (dir_has(entries0, id)
                    && dir_get(entries0, id).archetype_index < n
                    && archs2[dir_get(entries0, id).archetype_index as int] is Some
                    && dir_get(kept@, id) == dir_get(entries0, id)) by {
                let k = dir_index_of(kept@, id);
                assert(0 <= k < kept@.len() && kept@[k].0 == id);
                let j = dir_index_of(entries0, kept@[k].0);
                assert(0 <= j < m && entries0[j] == kept@[k]);
                assert(entries0[j].0 == id);
            }
            assert forall|id: u128| dir_has(entries0, id)
                && dir_get(entries0, id).archetype_index < n
                && archs2[dir_get(entries0, id).archetype_index as int] is Some
                implies dir_has(kept@, id) by {
                let j = dir_index_of(entries0, id);
                assert(0 <= j < m && entries0[j].0 == id);
                assert(entries0[j].1 == dir_get(entries0, id));
            }
            assert(self@.entities =~= purge_dangling(w0.entities, archs2));
            // The invariant survives: kept entries point at unchanged
            // archetypes, whose rows still index them.
            assert forall|id: u128| #[trigger] self@.entry_ok(id) by {
                if self@.entities.dom().contains(id) {
                    assert(w0.entry_ok(id));
                    assert(self@.entities[id] == w0.entities[id]);
                }
            }
            assert forall|ai: int, ei: int| #[trigger] self@.row_ok(ai, ei) by {
                if 0 <= ai < archs2.len()
                    && (archs2[ai] matches Some(a) && 0 <= ei < a.count) {
                    assert(archs2[ai] == w0.archetypes[ai]);
                    assert(w0.row_ok(ai, ei));
                    let r = uid_column(w0.archetypes[ai]->Some_0)[ei];
                    assert(w0.entities.dom().contains(r));
                    assert(w0.entities[r].archetype_index as int == ai);
                }
            }
            lemma_sum_counts_pointwise_le(w0.archetypes, archs2);
        }
    }

    /// Runs a batch transform.  For every archetype whose shape satisfies
    /// both the read list and the write list, the transform receives that
    /// archetype's read batches and copies of its write columns, and its
    /// returned columns are installed through
    /// `Archetype::install_write_columns`; every other slot is left
    /// exactly as it was.  Directory, globals, row counts, shape
    /// identifiers and the identifier columns are untouched, so row
    /// alignment and the world invariant survive any transform.
    #[verifier::loop_isolation(false)]
    pub fn execute_process<T: crate::process::Process>(&mut self, process: &T)
        requires
            old(self).wf(),
        ensures
            final(self).wf(),
            final(self).entities == old(self).entities,
            final(self).globals == old(self).globals,
            final(self)@.archetypes.len() == old(self)@.archetypes.len(),
            forall|k: int| 0 <= k < old(self)@.archetypes.len()
                ==> process_result_ok(
                    process,
                    #[trigger] old(self)@.archetypes[k],
                    final(self)@.archetypes[k],
                    old(self)@.globals,
                ),
    {
        let reads = process.reads();
        let writes = process.writes();
        let ghost rl = process.read_list();
        let ghost wl = process.write_list();
        let ghost g0 = self@.globals;
        let n = self.archetypes.len();
        let mut i: usize = 0;
        while i < n
            invariant
                n == self.archetypes@.len(),
                n == old(self).archetypes@.len(),
                0 <= i <= n,
                self.entities == old(self).entities,
                self.globals == old(self).globals,
                reads@ == rl,
                writes@ == wl,
                forall|k: int| 0 <= k < i
                    ==> process_result_ok(
                        process,
                        old(self)@.archetypes[k],
                        #[trigger] self@.archetypes[k],
                        g0,
                    ),
                forall|k: int| i <= k < n
                    ==> (#[trigger] self.archetypes@[k]) == old(self).archetypes@[k],
                forall|k: int| 0 <= k < n
                    ==> ((#[trigger] self.archetypes@[k]) matches Some(a)
                        ==> a.components.wf()),
            decreases n - i,
        {
            let ghost w_start = self@;
            // Read phase: resolve the read list, resolve the write list
            // as dense columns, and copy the write columns out.
            let mut matched = true;
            let mut read_batch: Vec<Batch> = Vec::new();
            let mut cols: Vec<Vec<u128>> = Vec::new();
            match &self.archetypes[i] {
                Some(archetype) => {
                    match crate::query::resolve_reads(archetype, &self.globals, &reads) {
                        Some(b) => {
                            read_batch = b;
                            proof {
                                crate::query::lemma_batch_ok_views(
                                    read_batch@,
                                    archetype@.components,
                                    g0,
                                    rl,
                                );
                            }
                        }
                        None => {
                            matched = false;
                        }
                    }
                    let ghost m = archetype@.components;
                    let wn = writes.len();
                    let mut writes_ok = true;
                    let mut k: usize = 0;
                    while k < wn
                        invariant
                            wn == writes@.len(),
                            0 <= k <= wn,
                            cols@.len() == k,
                            m == archetype@.components,
                            archetype.components.wf(),
                            writes_ok == crate::archetype::writes_match(m, wl.take(k as int)),
                            writes_ok ==> forall|j: int| 0 <= j < k
                                ==> (#[trigger] cols@[j])@ == m[wl[j]]->values,
                        decreases wn - k,
                    {
                        let id = writes[k];
                        let ok = if id == UNIQUE_ID_COMPONENT {
                            false
                        } else {
                            match archetype.get_storage(id) {
                                Some(storage) => {
                                    match storage {
                                        Storage::PerEntity(s) => {
                                            cols.push(crate::query::copy_column(&s.cell.values));
                                            true
                                        }
                                        _ => false,
                                    }
                                }
                                None => false,
                            }
                        };
                        if !ok {
                            writes_ok = false;
                            cols.push(Vec::new());
                        }
                        proof {
                            assert(wl.take(k + 1 as int).drop_last() =~= wl.take(k as int));
                            if writes_ok {
                                assert(crate::archetype::writes_match(m, wl.take(k + 1 as int)))
                                    by {
                                    assert forall|q: int| 0 <= q < k + 1 implies
                                        ((#[trigger] wl.take(k + 1 as int)[q])
                                            != UNIQUE_ID_COMPONENT
                                            && m.dom().contains(wl.take(k + 1 as int)[q])
                                            && m[wl.take(k + 1 as int)[q]] is PerEntityView) by {
                                        if q < k {
                                            assert(wl.take(k as int)[q] == wl[q]);
                                        }
                                    }
                                }
                            } else {
                                if crate::archetype::writes_match(m, wl.take(k + 1 as int)) {
                                    assert forall|q: int| 0 <= q < k implies
                                        ((#[trigger] wl.take(k as int)[q]) != UNIQUE_ID_COMPONENT
                                            && m.dom().contains(wl.take(k as int)[q])
                                            && m[wl.take(k as int)[q]] is PerEntityView) by {
                                        assert(wl.take(k + 1 as int)[q] == wl[q]);
                                    }
                                    assert(wl.take(k + 1 as int)[k as int] == wl[k as int]);
                                    assert(false);
                                }
                            }
                        }
                        k += 1;
                    }
                    proof {
                        assert(wl.take(wn as int) =~= wl);
                    }
                    if !writes_ok {
                        matched = false;
                    }
                }
                None => {
                    matched = false;
                }
            }
            if matched {
                let ghost a0 = self@.archetypes[i as int];
                let ghost av0 = a0->Some_0;
                proof {
                    assert(cols@.map_values(|c: Vec<u128>| c@)
                        =~= write_cols_of(av0.components, wl));
                    assert(read_batch@.map_values(|b: Batch| crate::query::batch_view(b))
                        =~= crate::query::batch_views_of(av0.components, g0, rl));
                }
                process.execute(&read_batch, &mut cols);
                let ghost tf_out = cols@.map_values(|c: Vec<u128>| c@);
                proof {
                    assert(tf_out == process.transform_spec(
                        crate::query::batch_views_of(av0.components, g0, rl),
                        write_cols_of(av0.components, wl),
                    ));
                }
                // The transform owes one column per write entry; pare or
                // pad so installation sees exactly that (a padded empty
                // column installs nothing).
                while cols.len() > writes.len()
                    invariant
                        writes@ == wl,
                        cols@.len() >= tf_out.len() || cols@.len() >= wl.len(),
                        forall|j: int| 0 <= j < cols@.len()
                            ==> (#[trigger] cols@[j])@ == (if j < tf_out.len() {
                                tf_out[j]
                            } else {
                                Seq::<u128>::empty()
                            }),
                    decreases cols@.len(),
                {
                    let _ = cols.pop();
                }
                while cols.len() < writes.len()
                    invariant
                        writes@ == wl,
                        cols@.len() <= wl.len(),
                        cols@.len() >= tf_out.len() || cols@.len() >= wl.len(),
                        forall|j: int| 0 <= j < cols@.len()
                            ==> (#[trigger] cols@[j])@ == (if j < tf_out.len() {
                                tf_out[j]
                            } else {
                                Seq::<u128>::empty()
                            }),
                    decreases wl.len() - cols@.len(),
                {
                    cols.push(Vec::new());
                }
                proof {
                    assert(cols@.map_values(|c: Vec<u128>| c@)
                        =~= normalize_cols(tf_out, wl.len()));
                }
                let slot_ref = &mut self.archetypes[i];
                match slot_ref {
                    Some(archetype) => {
                        proof {
                            assert(Some(archetype@) == a0);
                        }
                        archetype.install_write_columns(&writes, &cols);
                    }
                    None => {
                        proof {
                            assert(false);
                        }
                    }
                }
                proof {
                    assert(self@.archetypes[i as int] matches Some(b)
                        && b.count == av0.count
                        && b.requirements == av0.requirements
                        && b.components =~= crate::archetype::installed_components(
                            av0.components,
                            wl,
                            normalize_cols(tf_out, wl.len()),
                            av0.count,
                        ));
                    assert(process_result_ok(
                        process,
                        old(self)@.archetypes[i as int],
                        self@.archetypes[i as int],
                        g0,
                    ));
                }
            } else {
                proof {
                    assert(process_result_ok(
                        process,
                        old(self)@.archetypes[i as int],
                        self@.archetypes[i as int],
                        g0,
                    ));
                }
            }
            proof {
                assert forall|k: int| 0 <= k < i + 1 implies process_result_ok(
                    process,
                    old(self)@.archetypes[k],
                    #[trigger] self@.archetypes[k],
                    g0,
                ) by {
                    if k < i {
                        assert(process_result_ok(
                            process,
                            old(self)@.archetypes[k],
                            w_start.archetypes[k],
                            g0,
                        ));
                        assert(self@.archetypes[k] == w_start.archetypes[k]);
                    }
                }
            }
            i += 1;
        }
        proof {
            let w0 = old(self)@;
            let archs2 = self@.archetypes;
            // Each slot's change fits the permitted relation, so the
            // invariant survives.
            assert forall|k: int| 0 <= k < archs2.len()
                implies process_slot_rel(#[trigger] w0.archetypes[k], archs2[k]) by {
                assert(process_result_ok(process, w0.archetypes[k], archs2[k], g0));
                if w0.archetypes[k] is Some {
                    let a = w0.archetypes[k]->Some_0;
                    assert(world_arch_ok(a));
                    if crate::query::reads_match(a.components, g0, rl)
                        && crate::archetype::writes_match(a.components, wl) {
                        crate::archetype::lemma_installed_props(
                            a.components,
                            wl,
                            normalize_cols(
                                process.transform_spec(
                                    crate::query::batch_views_of(a.components, g0, rl),
                                    write_cols_of(a.components, wl),
                                ),
                                wl.len(),
                            ),
                            a.count,
                        );
                    }
                }
            }
            assert forall|k: int| 0 <= k < archs2.len()
                implies ((#[trigger] archs2[k]) matches Some(a3) ==> world_arch_ok(a3)) by {
                if archs2[k] is Some {
                    let a3 = archs2[k]->Some_0;
                    assert(process_slot_rel(w0.archetypes[k], archs2[k]));
                    let a0 = w0.archetypes[k]->Some_0;
                    assert(world_arch_ok(a0));
                    assert(process_storage_rel(
                        a0.components[UNIQUE_ID_COMPONENT],
                        a3.components[UNIQUE_ID_COMPONENT],
                        UNIQUE_ID_COMPONENT,
                    ));
                    assert forall|id: u64| a3.components.dom().contains(id)
                        implies crate::archetype::storage_fits(
                            #[trigger] a3.components[id], a3.count) by {
                        assert(process_storage_rel(a0.components[id], a3.components[id], id));
                        assert(crate::archetype::storage_fits(a0.components[id], a0.count));
                    }
                }
            }
            assert forall|id: u128| #[trigger] self@.entry_ok(id) by {
                if self@.entities.dom().contains(id) {
                    assert(w0.entry_ok(id));
                    let slot = w0.entities[id];
                    assert(process_slot_rel(
                        w0.archetypes[slot.archetype_index as int],
                        archs2[slot.archetype_index as int],
                    ));
                    let a0 = w0.archetypes[slot.archetype_index as int]->Some_0;
                    assert(process_storage_rel(
                        a0.components[UNIQUE_ID_COMPONENT],
                        archs2[slot.archetype_index as int]->Some_0.components[
                            UNIQUE_ID_COMPONENT],
                        UNIQUE_ID_COMPONENT,
                    ));
                }
            }
            assert forall|ai: int, ei: int| #[trigger] self@.row_ok(ai, ei) by {
                if 0 <= ai < archs2.len()
                    && (archs2[ai] matches Some(a3) && 0 <= ei < a3.count) {
                    assert(process_slot_rel(w0.archetypes[ai], archs2[ai]));
                    let a0 = w0.archetypes[ai]->Some_0;
                    assert(w0.row_ok(ai, ei));
                    assert(process_storage_rel(
                        a0.components[UNIQUE_ID_COMPONENT],
                        archs2[ai]->Some_0.components[UNIQUE_ID_COMPONENT],
                        UNIQUE_ID_COMPONENT,
                    ));
                }
            }
            assert forall|k: int| 0 <= k < archs2.len()
                implies slot_count(#[trigger] archs2[k]) <= slot_count(w0.archetypes[k]) by {
                assert(process_slot_rel(w0.archetypes[k], archs2[k]));
            }
            lemma_sum_counts_pointwise_le(w0.archetypes, archs2);
        }
    }

    /// Reads one component of one entity: none for an unknown entity, an
    /// absent component, or a row the sparse backend does not carry.
    pub fn read_component(&self, entity: &UniqueId, comp: u64) -> (r: Option<u128>)
        requires
            self.wf(),
        ensures
            r == self@.read(entity.0, comp),
    {
        let slot = match self.entities.get(entity.0) {
            Some(slot) => slot,
            None => {
                return None;
            }
        };
        proof {
            assert(self@.entry_ok(entity.0));
        }
        let archetype = match &self.archetypes[slot.archetype_index] {
            Some(a) => a,
            None => {
                return None;
            }
        };
        match archetype.get_storage(comp) {
            Some(storage) => {
                match storage {
                    Storage::PerEntity(s) => s.borrow().read(slot.entity_index),
                    Storage::PerArchetype(s) => s.borrow().read(slot.entity_index),
                    Storage::Sparse(s) => s.borrow().read(slot.entity_index),
                    Storage::Global(_) => None,
                }
            }
            None => {
                match self.globals.get_storage(comp) {
                    Some(storage) => {
                        match storage {
                            Storage::Global(s) => s.borrow().read(slot.entity_index),
                            _ => None,
                        }
                    }
                    None => None,
                }
            }
        }
    }
}

/// The stored form of a caller's record: one more component at the front
/// (the identifier), distinct tags throughout.
pub proof fn lemma_full_record(uid: u128, rec: Seq<ComponentData>)
    requires
        record_wf(rec),
    ensures
        full_record(uid, rec).len() == rec.len() + 1,
        full_record(uid, rec)[0] == (ComponentData {
            id: UNIQUE_ID_COMPONENT,
            kind: StorageKind::PerEntity,
            value: uid,
        }),
        forall|i: int| 0 <= i < rec.len() ==> full_record(uid, rec)[i + 1] == #[trigger] rec[i],
        record_distinct(full_record(uid, rec)),
        crate::archetype::rec_has(full_record(uid, rec), UNIQUE_ID_COMPONENT),
        crate::archetype::rec_get(full_record(uid, rec), UNIQUE_ID_COMPONENT)
            == full_record(uid, rec)[0],
        crate::archetype::rec_has_per_entity(full_record(uid, rec), UNIQUE_ID_COMPONENT),
{
    let full = full_record(uid, rec);
    assert forall|i: int, j: int| 0 <= i < j < full.len() implies full[i].id != full[j].id by {
        if i == 0 {
            assert(full[j] == rec[j - 1]);
        } else {
            assert(full[i] == rec[i - 1] && full[j] == rec[j - 1]);
        }
    }
    assert forall|i: int| 0 <= i < full.len()
        implies (#[trigger] full[i]).kind != StorageKind::Global by {
        if i > 0 {
            assert(full[i] == rec[i - 1]);
        }
    }
    assert(full[0].id == UNIQUE_ID_COMPONENT);
    assert(crate::archetype::rec_has(full, UNIQUE_ID_COMPONENT));
    let w = crate::archetype::rec_index_of(full, UNIQUE_ID_COMPONENT);
    assert(0 <= w < full.len() && full[w].id == UNIQUE_ID_COMPONENT);
    if w != 0 {
        assert(full[0].id == full[w].id);
        assert(false);
    }
}

/// Where the first-match scan lands: at an occupied, matching slot with
/// none matching earlier, or nowhere when none matches at all.
pub proof fn lemma_first_match_props(
    archs: Seq<Option<ArchetypeView>>,
    rec: Seq<ComponentData>,
    i: int,
)
    requires
        0 <= i <= archs.len(),
    ensures
        match first_match_from(archs, rec, i) {
            Some(ai) => i <= ai < archs.len()
                && (archs[ai] matches Some(a) && record_matches(a.components, rec))
                && (forall|j: int| i <= j < ai
                    ==> !((#[trigger] archs[j]) matches Some(a2)
                        && record_matches(a2.components, rec))),
            None => forall|j: int| i <= j < archs.len()
                ==> !((#[trigger] archs[j]) matches Some(a2)
                    && record_matches(a2.components, rec)),
        },
    decreases archs.len() - i,
{
    if i < archs.len() {
        if archs[i] matches Some(a) && record_matches(a.components, rec) {
        } else {
            lemma_first_match_props(archs, rec, i + 1);
        }
    }
}

/// Where the first-empty scan lands.
pub proof fn lemma_first_empty_props(archs: Seq<Option<ArchetypeView>>, i: int)
    requires
        0 <= i <= archs.len(),
    ensures
        match first_empty_from(archs, i) {
            Some(si) => i <= si < archs.len() && archs[si] is None,
            None => forall|j: int| i <= j < archs.len() ==> !((#[trigger] archs[j]) is None),
        },
    decreases archs.len() - i,
{
    if i < archs.len() {
        if archs[i] is None {
        } else {
            lemma_first_empty_props(archs, i + 1);
        }
    }
}

pub proof fn lemma_sum_counts_update(
    s: Seq<Option<ArchetypeView>>,
    i: int,
    v: Option<ArchetypeView>,
)
    requires
        0 <= i < s.len(),
    ensures
        sum_counts(s.update(i, v)) == sum_counts(s) - slot_count(s[i]) + slot_count(v),
    decreases s.len(),
{
    let t = s.update(i, v);
    if i == s.len() - 1 {
        assert(t.drop_last() =~= s.drop_last());
        assert(t.last() == v);
    } else {
        assert(t.drop_last() =~= s.drop_last().update(i, v));
        assert(t.last() == s.last());
        lemma_sum_counts_update(s.drop_last(), i, v);
    }
}

pub proof fn lemma_sum_counts_push(s: Seq<Option<ArchetypeView>>, v: Option<ArchetypeView>)
    ensures
        sum_counts(s.push(v)) == sum_counts(s) + slot_count(v),
{
    assert(s.push(v).drop_last() =~= s);
    assert(s.push(v).last() == v);
}

/// Writing a matching record into an archetype's next row keeps it a
/// well-formed world archetype: the identifier column grows by the new
/// identifier, every dense column by one value, and sparse rows stay in
/// range.
pub proof fn lemma_arch_written_ok(a: ArchetypeView, full: Seq<ComponentData>)
    requires
        world_arch_ok(a),
        record_matches(a.components, full),
        record_distinct(full),
        full.len() > 0,
        full[0].id == UNIQUE_ID_COMPONENT,
        full[0].kind == StorageKind::PerEntity,
        a.count < usize::MAX,
    ensures
        world_arch_ok(arch_written(a, full)),
        arch_written(a, full).components.dom() =~= a.components.dom(),
        uid_column(arch_written(a, full)) =~= uid_column(a).push(full[0].value),
        uid_column(arch_written(a, full)).len() == a.count + 1,
{
    let a2 = arch_written(a, full);
    let m = a.components;
    let m2 = a2.components;
    assert(m2.dom() =~= m.dom());
    assert(crate::archetype::rec_has(full, UNIQUE_ID_COMPONENT)) by {
        assert(full[0].id == UNIQUE_ID_COMPONENT);
    }
    assert(crate::archetype::rec_get(full, UNIQUE_ID_COMPONENT) == full[0]) by {
        let w = crate::archetype::rec_index_of(full, UNIQUE_ID_COMPONENT);
        assert(0 <= w < full.len() && full[w].id == UNIQUE_ID_COMPONENT);
        if w != 0 {
            assert(full[0].id == full[w].id);
            assert(false);
        }
    }
    assert(m2[UNIQUE_ID_COMPONENT] == crate::archetype::write_one(
        m[UNIQUE_ID_COMPONENT],
        full[0],
        a.count as usize,
    ));
    assert forall|id: u64| m2.dom().contains(id)
        implies crate::archetype::storage_fits(#[trigger] m2[id], a2.count) by {
        assert(crate::archetype::storage_fits(m[id], a.count));
        if crate::archetype::rec_has(full, id) {
            let c = crate::archetype::rec_get(full, id);
            let w = crate::archetype::rec_index_of(full, id);
            assert(0 <= w < full.len() && full[w].id == id && full[w] == c);
            assert(crate::archetype::comp_satisfied(m, full[w]));
            match m[id] {
                StorageView::PerEntityView { values } => {
                    assert(crate::archetype::rec_has_per_entity(full, id));
                    let q = choose|q: int| 0 <= q < full.len() && (#[trigger] full[q]).id == id
                        && full[q].kind == StorageKind::PerEntity;
                    assert(q == w);
                    assert(c.kind == StorageKind::PerEntity);
                }
                StorageView::SparseView { rows } => {
                    match c.kind {
                        StorageKind::Sparse => {
                            assert forall|k: usize|
                                #[trigger] rows.insert(a.count as usize, c.value).dom().contains(k)
                                implies k < a2.count by {
                                if k != a.count as usize {
                                    assert(rows.dom().contains(k));
                                }
                            }
                        }
                        StorageKind::PerEntity => {
                            assert(m[id] is PerEntityView);
                            assert(false);
                        }
                        StorageKind::PerArchetype => {
                            assert(m[id] is PerArchetypeView);
                            assert(false);
                        }
                        StorageKind::Global => {
                            assert(false);
                        }
                    }
                }
                _ => {}
            }
        } else {
            if m[id] is PerEntityView {
                assert(crate::archetype::rec_has_per_entity(full, id));
                let q = choose|q: int| 0 <= q < full.len() && (#[trigger] full[q]).id == id
                    && full[q].kind == StorageKind::PerEntity;
                assert(crate::archetype::rec_has(full, id));
                assert(false);
            }
        }
    }
}

/// A fresh archetype built from a stored record is a well-formed world
/// archetype whose identifier column holds exactly the new identifier.
pub proof fn lemma_arch_initialized_ok(full: Seq<ComponentData>)
    requires
        record_distinct(full),
        full.len() > 0,
        full[0].id == UNIQUE_ID_COMPONENT,
        full[0].kind == StorageKind::PerEntity,
    ensures
        world_arch_ok(arch_initialized(full)),
        uid_column(arch_initialized(full)) =~= seq![full[0].value],
{
    let a = arch_initialized(full);
    crate::archetype::lemma_init_fits(full);
    assert(crate::archetype::rec_has(full, UNIQUE_ID_COMPONENT)) by {
        assert(full[0].id == UNIQUE_ID_COMPONENT);
    }
    assert(crate::archetype::rec_get(full, UNIQUE_ID_COMPONENT) == full[0]) by {
        let w = crate::archetype::rec_index_of(full, UNIQUE_ID_COMPONENT);
        assert(0 <= w < full.len() && full[w].id == UNIQUE_ID_COMPONENT);
        if w != 0 {
            assert(full[0].id == full[w].id);
            assert(false);
        }
    }
    assert(a.components[UNIQUE_ID_COMPONENT]
        == crate::archetype::init_storage_view(full[0]));
}

/// Removal preserves the world invariant: the swap-compaction is matched
/// by the directory fix-up, so every remaining directory entry still
/// names its own row and every remaining row is still indexed.
pub proof fn lemma_spec_remove_wf(w: WorldView, uid: u128)
    requires
        w.wf(),
    ensures
        spec_remove(w, uid).wf(),
{
    if w.entities.dom().contains(uid) {
        let slot = w.entities[uid];
        assert(w.entry_ok(uid));
        let ai = slot.archetype_index as int;
        let index = slot.entity_index;
        let a = w.archetypes[ai]->Some_0;
        let col = uid_column(a);
        lemma_count_le_sum(w.archetypes, ai);
        assert(a.count <= usize::MAX);
        let top = (a.count - 1) as usize;
        let w2 = spec_remove(w, uid);
        let moved = col[top as int];
        assert(w.row_ok(ai, top as int));
        assert(w.entities.dom().contains(moved) && w.entities[moved] == (EntitySlot {
            archetype_index: slot.archetype_index,
            entity_index: top,
        }));
        lemma_sum_counts_nonneg(w.archetypes);
        if a.count == 1 {
            lemma_sum_counts_update(w.archetypes, ai, None);
            // No other entry points into the cleared slot: its only row
            // was the removed entity's.
            assert forall|id: u128| #[trigger] w2.entry_ok(id) by {
                if w2.entities.dom().contains(id) {
                    assert(id != uid);
                    assert(w.entry_ok(id));
                    let s2 = w.entities[id];
                    if s2.archetype_index as int == ai {
                        assert(s2.entity_index < 1);
                        assert(uid_column(a)[0] == id);
                        assert(uid_column(a)[index as int] == uid);
                        assert(false);
                    }
                }
            }
            assert forall|k: int, ei: int| #[trigger] w2.row_ok(k, ei) by {
                if 0 <= k < w2.archetypes.len()
                    && (w2.archetypes[k] matches Some(a3) && 0 <= ei < a3.count) {
                    assert(k != ai);
                    assert(w2.archetypes[k] == w.archetypes[k]);
                    let r = uid_column(w.archetypes[k]->Some_0)[ei];
                    assert(w.row_ok(k, ei));
                    assert(r != uid) by {
                        if r == uid {
                            assert(w.entities[r] == (EntitySlot {
                                archetype_index: k as usize,
                                entity_index: ei as usize,
                            }));
                        }
                    }
                }
            }
        } else {
            let a2 = ArchetypeView {
                count: (a.count - 1) as nat,
                requirements: a.requirements,
                components: compacted_map(a.components, index, top),
            };
            lemma_sum_counts_update(w.archetypes, ai, Some(a2));
            // The compacted archetype is still a world archetype.
            assert(world_arch_ok(a2)) by {
                assert forall|id: u64| a2.components.dom().contains(id)
                    implies crate::archetype::storage_fits(#[trigger] a2.components[id], a2.count) by {
                    assert(crate::archetype::storage_fits(a.components[id], a.count));
                    assert(a2.components[id] == compacted_view(a.components[id], index, top));
                    match a.components[id] {
                        StorageView::SparseView { rows } => {
                            let new_rows = (if index != top && rows.dom().contains(top) {
                                rows.remove(top).insert(index, rows[top])
                            } else {
                                rows.remove(index)
                            });
                            assert forall|k: usize| #[trigger] new_rows.dom().contains(k)
                                implies k < top by {
                                assert(rows.dom().contains(k) || k == index);
                            }
                        }
                        _ => {}
                    }
                }
            }
            let col2 = uid_column(a2);
            assert(col2 =~= col.update(index as int, col[top as int]).drop_last());
            if index != top {
                assert(moved != uid) by {
                    if moved == uid {
                        assert(w.entities[moved] == slot);
                    }
                }
            }
            // Every remaining directory entry still names its own row.
            assert forall|id: u128| #[trigger] w2.entry_ok(id) by {
                if w2.entities.dom().contains(id) {
                    assert(id != uid);
                    if index != top && id == moved {
                        assert(w2.entities[id] == slot);
                        assert(col2[index as int] == moved);
                    } else {
                        assert(w.entry_ok(id));
                        let s2 = w.entities[id];
                        assert(w2.entities[id] == s2);
                        if s2.archetype_index as int == ai {
                            let ei = s2.entity_index;
                            assert(col[ei as int] == id);
                            assert(ei != index) by {
                                assert(col[index as int] == uid);
                            }
                            assert(ei != top) by {
                                if ei == top {
                                    assert(col[top as int] == id);
                                }
                            }
                            assert(col2[ei as int] == col[ei as int]);
                        }
                    }
                }
            }
            // Every remaining row is still indexed.
            assert forall|k: int, ei: int| #[trigger] w2.row_ok(k, ei) by {
                if 0 <= k < w2.archetypes.len()
                    && (w2.archetypes[k] matches Some(a3) && 0 <= ei < a3.count) {
                    let a3 = w2.archetypes[k]->Some_0;
                    if k == ai {
                        assert(a3 == a2);
                        if index != top && ei == index {
                            assert(col2[ei] == moved);
                            assert(w2.entities.dom().contains(moved));
                            assert(w2.entities[moved] == slot);
                        } else {
                            assert(col2[ei] == col[ei]);
                            let r = col[ei];
                            assert(w.row_ok(k, ei));
                            assert(w.entities[r] == (EntitySlot {
                                archetype_index: slot.archetype_index,
                                entity_index: ei as usize,
                            }));
                            assert(r != uid) by {
                                if r == uid {
                                    assert(w.entities[r] == slot);
                                }
                            }
                            assert(r != moved || !(index != top)) by {
                                if r == moved && index != top {
                                    assert(w.entities[r] == (EntitySlot {
                                        archetype_index: slot.archetype_index,
                                        entity_index: top,
                                    }));
                                }
                            }
                        }
                    } else {
                        assert(w2.archetypes[k] == w.archetypes[k]);
                        let r = uid_column(w.archetypes[k]->Some_0)[ei];
                        assert(w.row_ok(k, ei));
                        assert(w.entities[r] == (EntitySlot {
                            archetype_index: k as usize,
                            entity_index: ei as usize,
                        }));
                        assert(r != uid) by {
                            if r == uid {
                                assert(w.entities[r] == slot);
                            }
                        }
                        assert(!(index != top && r == moved)) by {
                            if index != top && r == moved {
                                assert(w.entities[r] == (EntitySlot {
                                    archetype_index: slot.archetype_index,
                                    entity_index: top,
                                }));
                            }
                        }
                    }
                }
            }
        }
    }
}

/// Insertion preserves the world invariant.
pub proof fn lemma_spec_add_wf(w: WorldView, uid: u128, rec: Seq<ComponentData>)
    requires
        w.wf(),
        record_wf(rec),
        !w.entities.dom().contains(uid),
        sum_counts(w.archetypes) < usize::MAX,
        w.archetypes.len() < usize::MAX,
    ensures
        spec_add(w, uid, rec).wf(),
{
    let full = full_record(uid, rec);
    lemma_full_record(uid, rec);
    let w2 = spec_add(w, uid, rec);
    let slot = spec_add_slot(w.archetypes, full);
    lemma_first_match_props(w.archetypes, full, 0);
    lemma_first_empty_props(w.archetypes, 0);
    // The target slot and its archetype after insertion.
    let ai = slot.archetype_index as int;
    let row = slot.entity_index as int;
    match first_match_from(w.archetypes, full, 0) {
        Some(mi) => {
            let a = w.archetypes[mi]->Some_0;
            lemma_count_le_sum(w.archetypes, mi);
            lemma_arch_written_ok(a, full);
            lemma_sum_counts_update(w.archetypes, mi, Some(arch_written(a, full)));
            assert(ai == mi && row == a.count);
        }
        None => {
            lemma_arch_initialized_ok(full);
            match first_empty_from(w.archetypes, 0) {
                Some(si) => {
                    lemma_sum_counts_update(w.archetypes, si, Some(arch_initialized(full)));
                    assert(ai == si && row == 0);
                }
                None => {
                    lemma_sum_counts_push(w.archetypes, Some(arch_initialized(full)));
                    assert(ai == w.archetypes.len() && row == 0);
                }
            }
        }
    }
    assert(0 <= ai < w2.archetypes.len());
    assert(w2.archetypes[ai] matches Some(t) && world_arch_ok(t));
    let target = w2.archetypes[ai]->Some_0;
    assert(uid_column(target)[row] == uid);
    assert(row + 1 == target.count);
    // Unchanged slots stay well formed.
    assert forall|k: int| 0 <= k < w2.archetypes.len()
        implies ((#[trigger] w2.archetypes[k]) matches Some(a3) ==> world_arch_ok(a3)) by {
        if k != ai {
            assert(w2.archetypes[k] == w.archetypes[k]);
        }
    }
    // Rows of the target archetype below the new row are untouched.
    assert forall|ei: int| 0 <= ei < row implies
        (w.archetypes[ai] matches Some(a0)
            && #[trigger] uid_column(target)[ei] == uid_column(a0)[ei]
            && ei < a0.count) by {
    }
    // Every directory entry still points at its row.
    assert forall|id: u128| #[trigger] w2.entry_ok(id) by {
        if w2.entities.dom().contains(id) {
            if id == uid {
                assert(w2.entities[id] == slot);
            } else {
                assert(w.entry_ok(id));
                let s0 = w.entities[id];
                assert(w2.entities[id] == s0);
                if s0.archetype_index as int == ai {
                    assert(w.archetypes[ai] matches Some(a0));
                }
            }
        }
    }
    // Every row is still indexed.
    assert forall|k: int, ei: int| #[trigger] w2.row_ok(k, ei) by {
        if 0 <= k < w2.archetypes.len()
            && (w2.archetypes[k] matches Some(a3) && 0 <= ei < a3.count) {
            let a3 = w2.archetypes[k]->Some_0;
            if k == ai {
                if ei == row {
                    assert(uid_column(a3)[ei] == uid);
                    assert(w2.entities[uid] == slot);
                } else {
                    assert(w.archetypes[k] matches Some(a0));
                    let a0 = w.archetypes[k]->Some_0;
                    assert(w.row_ok(k, ei));
                    assert(uid_column(a3)[ei] == uid_column(a0)[ei]);
                    assert(uid_column(a0)[ei] != uid) by {
                        if uid_column(a0)[ei] == uid {
                            assert(w.entities.dom().contains(uid));
                        }
                    }
                }
            } else {
                assert(w2.archetypes[k] == w.archetypes[k]);
                let a0 = w.archetypes[k]->Some_0;
                assert(w.row_ok(k, ei));
                assert(uid_column(a0)[ei] != uid) by {
                    if uid_column(a0)[ei] == uid {
                        assert(w.entities.dom().contains(uid));
                    }
                }
            }
        }
    }
}

} // verus!
