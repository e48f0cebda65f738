//! Archetypes: groups of entities sharing an identical component shape.
//!
//! An archetype owns one type-erased storage map, an entity (row) count and
//! a 64-bit shape identifier.  Rows are allocated by reserving the next
//! index and removed by swap-compaction.  The invariant the world relies
//! on: the row count equals the length of every dense per-entity column.

use vstd::prelude::*;
use vstd::multiset::Multiset;
use unordered_hash::UnorderedHasher;
use crate::component::{ComponentData, EntityRecord, StorageKind, record_distinct,
    UNIQUE_ID_COMPONENT};
use crate::shape::{
    hasher_finish, hasher_new, hasher_write, kind_tag_of, shape_contrib, shape_hash, shape_writes,
    hasher_writes,
};
use crate::storage::components::{comp_index_of, lemma_comp_update, Components};
use crate::storage::components::compacted_map;
use crate::storage::per_entity::PerEntity;
use crate::storage::per_archetype::PerArchetype;
use crate::storage::sparse::Sparse;
use crate::storage::{compacted_view, storage_inv, Storage, StorageView};

verus! {

/// What an archetype denotes: a row count, a shape identifier, and the
/// views of its storage backends.
#[verifier::ext_equal]
pub ghost struct ArchetypeView {
    pub count: nat,
    pub requirements: u64,
    pub components: Map<u64, StorageView>,
}

/// A group of entities that all have exactly the same set of component
/// types, backed by one storage instance per component type.
#[derive(Debug)]
pub struct Archetype {
    pub num_entities: usize,
    pub components: Components,
    pub requirements: u64,
}

impl View for Archetype {
    type V = ArchetypeView;

    open spec fn view(&self) -> ArchetypeView {
        ArchetypeView {
            count: self.num_entities as nat,
            requirements: self.requirements,
            components: self.components@,
        }
    }
}

/// Whether one backend's data covers exactly the rows of an archetype with
/// `count` entities.  Globals never live in an archetype's map.
pub open spec fn storage_fits(v: StorageView, count: nat) -> bool {
    match v {
        StorageView::PerEntityView { values } => values.len() == count,
        StorageView::SparseView { rows } => forall|k: usize|
            #[trigger] rows.dom().contains(k) ==> k < count,
        StorageView::PerArchetypeView { .. } => true,
        StorageView::GlobalView { .. } => false,
    }
}

impl Archetype {
    /// Row count == length of every dense per-entity column, sparse rows
    /// in range, and the storage map itself well formed.
    pub open spec fn wf(self) -> bool {
        &&& self.components.wf()
        &&& forall|id: u64| self.components@.dom().contains(id)
            ==> storage_fits(#[trigger] self.components@[id], self.num_entities as nat)
    }

    pub fn new(requirements: u64) -> (r: Self)
        ensures
            r.num_entities == 0,
            r.components@ =~= Map::<u64, StorageView>::empty(),
            r.components.entries@ == Seq::<(u64, Storage)>::empty(),
            r.requirements == requirements,
            r.wf(),
    {
        Archetype { num_entities: 0, components: Components::new(), requirements }
    }

    pub fn num_entities(&self) -> (n: usize)
        ensures
            n == self.num_entities,
    {
        self.num_entities
    }

    /// Reserves the next row index, growing the count by one.  The caller
    /// owes a write of every dense column at that row before the archetype
    /// is well formed again.
    pub fn entity_write_slot(&mut self) -> (row: usize)
        requires
            old(self).num_entities < usize::MAX,
        ensures
            row == old(self).num_entities,
            final(self).num_entities == old(self).num_entities + 1,
            final(self).components == old(self).components,
            final(self).requirements == old(self).requirements,
    {
        let result = self.num_entities;
        self.num_entities = self.num_entities + 1;
        result
    }

    /// Removes one row: decrements the count and asks every backend to
    /// compact away the row, passing the pre-decrement top row as the row
    /// being vacated.
    pub fn remove_entity(&mut self, index: usize)
        requires
            old(self).wf(),
            index < old(self).num_entities,
        ensures
            final(self).wf(),
            final(self).num_entities == old(self).num_entities - 1,
            final(self).requirements == old(self).requirements,
            final(self).components@ =~= compacted_map(
                old(self).components@,
                index,
                (old(self).num_entities - 1) as usize,
            ),
    {
        self.num_entities = self.num_entities - 1;
        let top = self.num_entities;
        proof {
            assert forall|id: u64| old(self).components@.dom().contains(id)
                implies crate::storage::compact_ready(#[trigger] old(self).components@[id], index, top) by {
                assert(storage_fits(old(self).components@[id], old(self).num_entities as nat));
            }
        }
        self.components.remove_entity(index, top);
        proof {
            assert forall|id: u64| self.components@.dom().contains(id)
                implies storage_fits(#[trigger] self.components@[id], self.num_entities as nat) by {
                assert(self.components@[id] == compacted_view(old(self).components@[id], index, top));
                assert(storage_fits(old(self).components@[id], (top + 1) as nat));
                match old(self).components@[id] {
                    StorageView::SparseView { rows } => {
                        let new_rows = (if index != top && rows.dom().contains(top) {
                            rows.remove(top).insert(index, rows[top])
                        } else {
                            rows.remove(index)
                        });
                        assert forall|k: usize| #[trigger] new_rows.dom().contains(k)
                            implies k < top by {
                            assert(rows.dom().contains(k) || k == index);
                        }
                    }
                    _ => {}
                }
            }
        }
    }

    /// Typed lookup of the backend for a component type; none when the
    /// type is absent from this archetype.
    pub fn get_storage(&self, id: u64) -> (r: Option<&Storage>)
        requires
            self.components.wf(),
        ensures
            match r {
                Some(s) => self@.components.dom().contains(id) && s@ == self@.components[id]
                    && storage_inv(*s),
                None => !self@.components.dom().contains(id),
            },
    {
        self.components.get_storage(id)
    }

    /// Exclusive typed lookup of the backend for a component type.
    pub fn get_storage_mut(&mut self, id: u64) -> (r: Option<&mut Storage>)
        requires
            old(self).components.wf(),
        ensures
            final(self).num_entities == old(self).num_entities,
            final(self).requirements == old(self).requirements,
            match r {
                Some(s) => old(self)@.components.dom().contains(id)
                    && *s == old(self).components.entries@[
                        comp_index_of(old(self).components.entries@, id)].1
                    && s@ == old(self)@.components[id]
                    && storage_inv(*s)
                    && final(self).components.entries@ == old(self).components.entries@.update(
                        comp_index_of(old(self).components.entries@, id),
                        (id, *final(s)),
                    ),
                None => !old(self)@.components.dom().contains(id)
                    && *final(self) == *old(self),
            },
    {
        self.components.get_storage_mut(id)
    }

    /// Registers the backend for a component type this archetype carries.
    /// Registering a type twice is a contract violation, excluded here by
    /// precondition.
    pub fn add_storage(&mut self, id: u64, storage: Storage)
        requires
            old(self).components.wf(),
            !old(self).components@.dom().contains(id),
            storage_inv(storage),
        ensures
            final(self).components.wf(),
            final(self).components@ =~= old(self).components@.insert(id, storage@),
            final(self).num_entities == old(self).num_entities,
            final(self).requirements == old(self).requirements,
    {
        self.components.add(id, storage);
    }

    /// Installs a batch transform's returned write columns, one per entry
    /// of the write list: each non-identifier column whose length still
    /// matches the row count replaces its dense backend; the identifier
    /// column, absent or non-dense types, and length-changing columns are
    /// left untouched, so the row count can never break.
    #[verifier::loop_isolation(false)]
    pub fn install_write_columns(&mut self, writes: &Vec<u64>, cols: &Vec<Vec<u128>>)
        requires
            old(self).components.wf(),
            cols@.len() == writes@.len(),
        ensures
            final(self).components.wf(),
            final(self).num_entities == old(self).num_entities,
            final(self).requirements == old(self).requirements,
            final(self).components@ =~= installed_components(
                old(self).components@,
                writes@,
                cols@.map_values(|c: Vec<u128>| c@),
                old(self).num_entities as nat,
            ),
    {
        let ghost m0 = self.components@;
        let ghost colvs = cols@.map_values(|c: Vec<u128>| c@);
        let count = self.num_entities;
        let wn = writes.len();
        let mut k: usize = 0;
        while k < wn
            invariant
                wn == writes@.len(),
                cols@.len() == wn,
                0 <= k <= wn,
                self.components.wf(),
                self.num_entities == old(self).num_entities,
                self.requirements == old(self).requirements,
                self.components@ =~= installed_components(
                    m0,
                    writes@.take(k as int),
                    colvs.take(k as int),
                    count as nat,
                ),
            decreases wn - k,
        {
            let id = writes[k];
            let new_col = crate::query::copy_column(&cols[k]);
            let ghost pre = *self;
            if id != crate::component::UNIQUE_ID_COMPONENT && new_col.len() == count {
                match self.components.get_storage_mut(id) {
                    Some(storage) => {
                        match storage {
                            Storage::PerEntity(s) => {
                                s.set_column(new_col);
                            }
                            _ => {}
                        }
                    }
                    None => {}
                }
                proof {
                    if pre.components@.dom().contains(id) {
                        let pos = comp_index_of(pre.components.entries@, id);
                        lemma_comp_update(
                            pre.components.entries@,
                            pos,
                            id,
                            self.components.entries@[pos].1,
                        );
                    }
                }
            }
            proof {
                assert(writes@.take(k + 1 as int).drop_last() =~= writes@.take(k as int));
                assert(colvs.take(k + 1 as int).drop_last() =~= colvs.take(k as int));
                assert(writes@.take(k + 1 as int).last() == id);
                assert(colvs.take(k + 1 as int).last() == cols@[k as int]@);
                assert(self.components@ =~= install_one(
                    pre.components@,
                    id,
                    cols@[k as int]@,
                    count as nat,
                ));
            }
            k += 1;
        }
        proof {
            assert(writes@.take(wn as int) =~= writes@);
            assert(colvs.take(wn as int) =~= colvs);
        }
    }

    /// The 64-bit shape identifier this archetype was created with.
    pub fn get_requirements(&self) -> (r: u64)
        ensures
            r == self.requirements,
    {
        self.requirements
    }

    pub fn components(&self) -> (r: &Components)
        ensures
            *r == self.components,
    {
        &self.components
    }
}

/// The archetype slots as the contracts see them.
pub open spec fn arch_views(s: Seq<Option<Archetype>>) -> Seq<Option<ArchetypeView>> {
    s.map_values(|a: Option<Archetype>| match a {
        Some(x) => Some(x@),
        None => None,
    })
}

/// Combined write resolution: every entry of a write list must be a dense
/// per-entity column of the archetype, and never the identifier column,
/// or the whole list fails to resolve for that archetype.
pub open spec fn writes_match(m: Map<u64, StorageView>, writes: Seq<u64>) -> bool {
    forall|k: int| 0 <= k < writes.len()
        ==> ((#[trigger] writes[k]) != UNIQUE_ID_COMPONENT
            && m.dom().contains(writes[k])
            && m[writes[k]] is PerEntityView)
}

/// What installing one returned write column does: a non-identifier
/// column whose length still matches the row count replaces its dense
/// backend; anything else leaves the map untouched.
pub open spec fn install_one(
    m: Map<u64, StorageView>,
    id: u64,
    col: Seq<u128>,
    count: nat,
) -> Map<u64, StorageView> {
    if id != UNIQUE_ID_COMPONENT && col.len() == count && m.dom().contains(id)
        && m[id] is PerEntityView {
        m.insert(id, StorageView::PerEntityView { values: col })
    } else {
        m
    }
}

/// What installing a whole list of returned write columns does, one
/// entry after the other (a later entry for the same type wins).
pub open spec fn installed_components(
    m: Map<u64, StorageView>,
    writes: Seq<u64>,
    cols: Seq<Seq<u128>>,
    count: nat,
) -> Map<u64, StorageView>
    decreases writes.len(),
{
    if writes.len() == 0 {
        m
    } else {
        install_one(
            installed_components(m, writes.drop_last(), cols.drop_last(), count),
            writes.last(),
            cols.last(),
            count,
        )
    }
}

/// Installing columns never touches the identifier column, never changes
/// a row count's worth of anything else's length, and never changes the
/// set of component types.
pub proof fn lemma_installed_props(
    m: Map<u64, StorageView>,
    writes: Seq<u64>,
    cols: Seq<Seq<u128>>,
    count: nat,
)
    requires
        forall|id: u64| m.dom().contains(id) ==> storage_fits(#[trigger] m[id], count),
    ensures
        installed_components(m, writes, cols, count).dom() =~= m.dom(),
        forall|id: u64| m.dom().contains(id) ==> storage_fits(
            #[trigger] installed_components(m, writes, cols, count)[id],
            count,
        ),
        forall|id: u64| m.dom().contains(id) ==> crate::world::process_storage_rel(
            #[trigger] m[id],
            installed_components(m, writes, cols, count)[id],
            id,
        ),
    decreases writes.len(),
{
    if writes.len() > 0 {
        lemma_installed_props(m, writes.drop_last(), cols.drop_last(), count);
    }
}

/// Whether a record has an entry for a component type.
pub open spec fn rec_has(rec: Seq<ComponentData>, id: u64) -> bool {
    exists|i: int| 0 <= i < rec.len() && (#[trigger] rec[i]).id == id
}

pub open spec fn rec_index_of(rec: Seq<ComponentData>, id: u64) -> int {
    choose|i: int| 0 <= i < rec.len() && (#[trigger] rec[i]).id == id
}

pub open spec fn rec_get(rec: Seq<ComponentData>, id: u64) -> ComponentData {
    rec[rec_index_of(rec, id)]
}

/// Whether a record carries a dense per-entity component of a type.
pub open spec fn rec_has_per_entity(rec: Seq<ComponentData>, id: u64) -> bool {
    exists|i: int| 0 <= i < rec.len() && (#[trigger] rec[i]).id == id
        && rec[i].kind == StorageKind::PerEntity
}

/// Whether one component of a record is satisfiable by the backends of an
/// archetype: its type must be present with the right strategy, and a
/// per-archetype-stored component must match by value.
pub open spec fn comp_satisfied(m: Map<u64, StorageView>, c: ComponentData) -> bool {
    match c.kind {
        StorageKind::PerEntity => m.dom().contains(c.id)
            && m[c.id] is PerEntityView,
        StorageKind::PerArchetype => m.dom().contains(c.id)
            && (m[c.id] matches StorageView::PerArchetypeView { value } && value == c.value),
        StorageKind::Sparse => m.dom().contains(c.id)
            && m[c.id] is SparseView,
        StorageKind::Global => false,
    }
}

/// Shape inclusion: every component the record carries is satisfiable by
/// the archetype's backends, and every dense per-entity column of the
/// archetype is covered by the record, so that a row written from the
/// record fills every column.
pub open spec fn record_matches(m: Map<u64, StorageView>, rec: Seq<ComponentData>) -> bool {
    &&& forall|i: int| 0 <= i < rec.len() ==> comp_satisfied(m, #[trigger] rec[i])
    &&& forall|id: u64| m.dom().contains(id) && (#[trigger] m[id]) is PerEntityView
        ==> rec_has_per_entity(rec, id)
}

/// The backend a fresh archetype gets for one record component, holding
/// that component's value at row 0.
pub open spec fn init_storage_view(c: ComponentData) -> StorageView {
    match c.kind {
        StorageKind::PerEntity => StorageView::PerEntityView { values: seq![c.value] },
        StorageKind::PerArchetype => StorageView::PerArchetypeView { value: c.value },
        StorageKind::Sparse => StorageView::SparseView {
            rows: Map::<usize, u128>::empty().insert(0usize, c.value),
        },
        StorageKind::Global => StorageView::GlobalView { global_value: c.value },
    }
}

/// The storage map a fresh archetype gets from a record.
pub open spec fn init_components(rec: Seq<ComponentData>) -> Map<u64, StorageView> {
    Map::new(
        |id: u64| rec_has(rec, id),
        |id: u64| init_storage_view(rec_get(rec, id)),
    )
}

/// What writing one record component at a row does to its backend: dense
/// columns grow by the value, sparse columns gain the row, per-archetype
/// values are never touched by per-entity writes.
pub open spec fn write_one(v: StorageView, c: ComponentData, index: usize) -> StorageView {
    match v {
        StorageView::PerEntityView { values } => if c.kind == StorageKind::PerEntity {
            StorageView::PerEntityView { values: values.push(c.value) }
        } else {
            v
        },
        StorageView::SparseView { rows } => if c.kind == StorageKind::Sparse {
            StorageView::SparseView { rows: rows.insert(index, c.value) }
        } else {
            v
        },
        _ => v,
    }
}

/// What writing a whole record at a row does to an archetype's storage
/// map.
pub open spec fn written_components(
    m: Map<u64, StorageView>,
    rec: Seq<ComponentData>,
    index: usize,
) -> Map<u64, StorageView> {
    Map::new(
        |id: u64| m.dom().contains(id),
        |id: u64| if rec_has(rec, id) {
            write_one(m[id], rec_get(rec, id), index)
        } else {
            m[id]
        },
    )
}

/// A record component is ready to be written at a row when its backend is
/// present with the right strategy and, for a dense column, the row is
/// exactly the next unused one.
pub open spec fn write_ready(m: Map<u64, StorageView>, c: ComponentData, index: usize) -> bool {
    match c.kind {
        StorageKind::PerEntity => m.dom().contains(c.id)
            && (m[c.id] matches StorageView::PerEntityView { values } && values.len() == index),
        StorageKind::PerArchetype => m.dom().contains(c.id)
            && m[c.id] is PerArchetypeView,
        StorageKind::Sparse => m.dom().contains(c.id)
            && m[c.id] is SparseView,
        StorageKind::Global => false,
    }
}

/// Builds a fresh archetype's storages from an entity's data.
pub trait ArchetypeInitializer {
    /// The archetypes this initializer may run on.
    spec fn can_initialize(&self, archetype: Archetype) -> bool;

    /// What initializing leaves behind.
    spec fn initialized(&self, before: Archetype, after: Archetype) -> bool;

    fn initialize(self, archetype: &mut Archetype)
        requires
            self.can_initialize(*old(archetype)),
        ensures
            self.initialized(*old(archetype), *final(archetype)),
    ;
}

/// Tests whether an archetype's shape includes an entity's data.
pub trait ArchetypeFilter {
    /// What inclusion means for this entity representation.
    spec fn includes_spec(&self, archetype: Archetype) -> bool;

    fn includes(&self, archetype: &Archetype) -> (r: bool)
        requires
            archetype.components.wf(),
        ensures
            r == self.includes_spec(*archetype),
    ;
}

/// Writes an entity's data into an archetype's backends at a row, and
/// states the entity's contribution to the archetype shape identifier.
pub trait EntityWriter {
    /// The archetype states a write at `index` is allowed in.
    spec fn can_write(&self, archetype: Archetype, index: usize) -> bool;

    /// What the write leaves behind.
    spec fn written(&self, before: Archetype, after: Archetype, index: usize) -> bool;

    /// The bag of shape contributions this entity adds to a hasher.
    spec fn requirement_writes(&self) -> Multiset<(u64, u8, u128)>;

    fn write(self, archetype: &mut Archetype, index: usize)
        requires
            self.can_write(*old(archetype), index),
        ensures
            self.written(*old(archetype), *final(archetype), index),
    ;

    fn add_archetype_requirements(&self, hasher: &mut UnorderedHasher)
        ensures
            hasher_writes(*final(hasher)) == hasher_writes(*old(hasher)).add(
                self.requirement_writes(),
            ),
    ;
}

impl ArchetypeFilter for EntityRecord {
    open spec fn includes_spec(&self, archetype: Archetype) -> bool {
        record_matches(archetype@.components, self.components@)
    }

    fn includes(&self, archetype: &Archetype) -> (r: bool) {
        let rec_len = self.components.len();
        let mut i: usize = 0;
        while i < rec_len
            invariant
                rec_len == self.components@.len(),
                0 <= i <= rec_len,
                archetype.components.wf(),
                forall|j: int| 0 <= j < i
                    ==> comp_satisfied(archetype@.components, #[trigger] self.components@[j]),
            decreases rec_len - i,
        {
            let c = self.components[i];
            let satisfied = match archetype.get_storage(c.id) {
                Some(storage) => {
                    match storage {
                        Storage::PerEntity(_) => c.kind == StorageKind::PerEntity,
                        Storage::PerArchetype(s) => c.kind == StorageKind::PerArchetype
                            && s.cell.value == c.value,
                        Storage::Sparse(_) => c.kind == StorageKind::Sparse,
                        Storage::Global(_) => false,
                    }
                }
                None => false,
            };
            if !satisfied {
                proof {
                    assert(!comp_satisfied(archetype@.components, self.components@[i as int]));
                }
                return false;
            }
            i += 1;
        }
        // Every component of the record is satisfiable; now every dense
        // column of the archetype must be covered by the record.
        let n = archetype.components.entries.len();
        let mut j: usize = 0;
        while j < n
            invariant
                n == archetype.components.entries@.len(),
                0 <= j <= n,
                archetype.components.wf(),
                forall|k: int| 0 <= k < rec_len
                    ==> comp_satisfied(archetype@.components, #[trigger] self.components@[k]),
                rec_len == self.components@.len(),
                forall|k: int| 0 <= k < j
                    && (#[trigger] archetype.components.entries@[k]).1@ is PerEntityView
                    ==> rec_has_per_entity(self.components@, archetype.components.entries@[k].0),
            decreases n - j,
        {
            let entry_id = archetype.components.entries[j].0;
            let is_dense = match &archetype.components.entries[j].1 {
                Storage::PerEntity(_) => true,
                _ => false,
            };
            if is_dense {
                if !self.has_per_entity(entry_id) {
                    proof {
                        let m = archetype@.components;
                        assert(crate::storage::components::comp_has_id(
                            archetype.components.entries@, entry_id));
                        let w = comp_index_of(archetype.components.entries@, entry_id);
                        assert(archetype.components.entries@[w].0 == entry_id);
                        assert(w == j);
                        assert(m.dom().contains(entry_id) && m[entry_id] is PerEntityView);
                    }
                    return false;
                }
            }
            j += 1;
        }
        proof {
            let m = archetype@.components;
            assert forall|id: u64| m.dom().contains(id) && (#[trigger] m[id]) is PerEntityView
                implies rec_has_per_entity(self.components@, id) by {
                let w = comp_index_of(archetype.components.entries@, id);
                assert(archetype.components.entries@[w].0 == id);
                assert(archetype.components.entries@[w].1@ == m[id]);
            }
        }
        true
    }
}

impl EntityRecord {
    /// Whether this record carries a dense per-entity component of a type.
    pub fn has_per_entity(&self, id: u64) -> (r: bool)
        ensures
            r == rec_has_per_entity(self.components@, id),
    {
        let n = self.components.len();
        let mut i: usize = 0;
        while i < n
            invariant
                n == self.components@.len(),
                0 <= i <= n,
                forall|j: int| 0 <= j < i ==> !((#[trigger] self.components@[j]).id == id
                    && self.components@[j].kind == StorageKind::PerEntity),
            decreases n - i,
        {
            let c = self.components[i];
            if c.id == id {
                match c.kind {
                    StorageKind::PerEntity => {
                        return true;
                    }
                    _ => {}
                }
            }
            i += 1;
        }
        false
    }

    /// The shape identifier an archetype created from this record gets.
    pub fn requirements_digest(&self) -> (r: u64)
        ensures
            r == shape_hash(self.components@),
    {
        let mut hasher = hasher_new();
        self.add_archetype_requirements(&mut hasher);
        proof {
            assert(hasher_writes(hasher) =~= shape_writes(self.components@));
        }
        hasher_finish(&hasher)
    }
}

impl ArchetypeInitializer for EntityRecord {
    /// A fresh archetype with its first row reserved and no storages yet.
    open spec fn can_initialize(&self, archetype: Archetype) -> bool {
        &&& archetype.components.wf()
        &&& archetype@.components.dom() =~= Set::<u64>::empty()
        &&& record_distinct(self.components@)
    }

    open spec fn initialized(&self, before: Archetype, after: Archetype) -> bool {
        &&& after.components@ =~= init_components(self.components@)
        &&& after.components.wf()
        &&& after.num_entities == before.num_entities
        &&& after.requirements == before.requirements
    }

    fn initialize(self, archetype: &mut Archetype) {
        let ghost rec = self.components@;
        let n = self.components.len();
        let mut i: usize = 0;
        while i < n
            invariant
                n == rec.len(),
                0 <= i <= n,
                rec == self.components@,
                record_distinct(rec),
                archetype.components.wf(),
                archetype.num_entities == old(archetype).num_entities,
                archetype.requirements == old(archetype).requirements,
                archetype@.components =~= init_components(rec.take(i as int)),
            decreases n - i,
        {
            let c = self.components[i];
            proof {
                if rec_has(rec.take(i as int), c.id) {
                    let w = rec_index_of(rec.take(i as int), c.id);
                    assert(rec[w].id == c.id);
                    assert(false);
                }
            }
            let storage = match c.kind {
                StorageKind::PerEntity => {
                    let mut s = PerEntity::new();
                    s.write_at(0, c.value);
                    Storage::PerEntity(s)
                }
                StorageKind::PerArchetype => Storage::PerArchetype(PerArchetype::new(c.value)),
                StorageKind::Sparse => {
                    let mut s = Sparse::new();
                    s.write(0, c.value);
                    Storage::Sparse(s)
                }
                StorageKind::Global => {
                    // Excluded by `record_distinct`: globals are world-level.
                    proof {
                        assert(rec[i as int].kind != StorageKind::Global);
                        assert(false);
                    }
                    Storage::PerArchetype(PerArchetype::new(c.value))
                }
            };
            proof {
                assert(storage@ == init_storage_view(c));
            }
            archetype.add_storage(c.id, storage);
            proof {
                let prefix = rec.take(i as int);
                let next = rec.take(i + 1 as int);
                assert(next.drop_last() =~= prefix);
                assert(next.last() == c);
                assert forall|id: u64| rec_has(next, id)
                    implies (id == c.id || rec_has(prefix, id)) by {
                    let w = rec_index_of(next, id);
                    if w < i {
                        assert(prefix[w].id == id);
                    }
                }
                assert forall|id: u64| rec_has(prefix, id) implies rec_has(next, id) by {
                    let w = rec_index_of(prefix, id);
                    assert(next[w].id == id);
                }
                assert(rec_has(next, c.id)) by {
                    assert(next[i as int].id == c.id);
                }
                assert forall|id: u64| #[trigger] rec_has(next, id)
                    implies init_storage_view(rec_get(next, id))
                        == (if id == c.id { init_storage_view(c) } else {
                            init_storage_view(rec_get(prefix, id))
                        }) by {
                    let w = rec_index_of(next, id);
                    assert(0 <= w <= i && next[w].id == id);
                    if id == c.id {
                        if w < i {
                            assert(rec[w].id == c.id && rec[i as int].id == c.id);
                            assert(false);
                        }
                        assert(rec_get(next, id) == c);
                    } else {
                        assert(w < i);
                        let v = rec_index_of(prefix, id);
                        assert(0 <= v < i && prefix[v].id == id);
                        assert(rec[v].id == id && rec[w].id == id);
                        assert(v == w);
                        assert(rec_get(prefix, id) == rec_get(next, id));
                    }
                }
                assert(archetype@.components =~= init_components(next));
            }
            i += 1;
        }
        proof {
            assert(rec.take(n as int) =~= rec);
        }
    }
}

impl EntityWriter for EntityRecord {
    open spec fn can_write(&self, archetype: Archetype, index: usize) -> bool {
        &&& archetype.components.wf()
        &&& record_distinct(self.components@)
        &&& forall|i: int| 0 <= i < self.components@.len()
            ==> write_ready(archetype@.components, #[trigger] self.components@[i], index)
    }

    open spec fn written(&self, before: Archetype, after: Archetype, index: usize) -> bool {
        &&& after.components@ =~= written_components(before.components@, self.components@, index)
        &&& after.components.wf()
        &&& after.num_entities == before.num_entities
        &&& after.requirements == before.requirements
    }

    open spec fn requirement_writes(&self) -> Multiset<(u64, u8, u128)> {
        shape_writes(self.components@)
    }

    fn write(self, archetype: &mut Archetype, index: usize) {
        let ghost rec = self.components@;
        let ghost m0 = archetype@.components;
        let n = self.components.len();
        let mut i: usize = 0;
        while i < n
            invariant
                n == rec.len(),
                0 <= i <= n,
                rec == self.components@,
                record_distinct(rec),
                self.can_write(*old(archetype), index),
                m0 == old(archetype)@.components,
                archetype.components.wf(),
                archetype.num_entities == old(archetype).num_entities,
                archetype.requirements == old(archetype).requirements,
                archetype@.components =~= written_components(m0, rec.take(i as int), index),
            decreases n - i,
        {
            let c = self.components[i];
            proof {
                assert(write_ready(m0, rec[i as int], index));
                if rec_has(rec.take(i as int), c.id) {
                    let w = rec_index_of(rec.take(i as int), c.id);
                    assert(rec[w].id == c.id);
                    assert(false);
                }
                assert(archetype@.components[c.id] == m0[c.id]);
            }
            let ghost pre = *archetype;
            match archetype.get_storage_mut(c.id) {
                Some(storage) => {
                    match storage {
                        Storage::PerEntity(s) => {
                            match c.kind {
                                StorageKind::PerEntity => {
                                    s.write_at(index, c.value);
                                }
                                _ => {
                                    proof {
                                        assert(false);
                                    }
                                }
                            }
                        }
                        Storage::Sparse(s) => {
                            match c.kind {
                                StorageKind::Sparse => {
                                    s.write(index, c.value);
                                }
                                _ => {
                                    proof {
                                        assert(false);
                                    }
                                }
                            }
                        }
                        Storage::PerArchetype(_) => {
                            // Never mutated by per-entity writes.
                            proof {
                                assert(c.kind == StorageKind::PerArchetype);
                            }
                        }
                        Storage::Global(_) => {
                            proof {
                                assert(false);
                            }
                        }
                    }
                }
                None => {
                    proof {
                        assert(false);
                    }
                }
            }
            proof {
                let pos = comp_index_of(pre.components.entries@, c.id);
                lemma_comp_update(
                    pre.components.entries@,
                    pos,
                    c.id,
                    archetype.components.entries@[pos].1,
                );
                assert(archetype@.components =~= pre@.components.insert(
                    c.id,
                    write_one(m0[c.id], c, index),
                ));
                let prefix = rec.take(i as int);
                let next = rec.take(i + 1 as int);
                assert(next.drop_last() =~= prefix);
                assert(next.last() == c);
                assert(rec_has(next, c.id)) by {
                    assert(next[i as int].id == c.id);
                }
                assert forall|id: u64| rec_has(next, id)
                    implies (id == c.id || rec_has(prefix, id)) by {
                    let w = rec_index_of(next, id);
                    if w < i {
                        assert(prefix[w].id == id);
                    }
                }
                assert forall|id: u64| rec_has(prefix, id) implies rec_has(next, id) by {
                    let w = rec_index_of(prefix, id);
                    assert(next[w].id == id);
                }
                assert forall|id: u64| #[trigger] rec_has(next, id) && id != c.id
                    implies rec_get(next, id) == rec_get(prefix, id) by {
                    let w = rec_index_of(next, id);
                    assert(0 <= w <= i && next[w].id == id);
                    assert(w < i);
                    let v = rec_index_of(prefix, id);
                    assert(0 <= v < i && prefix[v].id == id);
                    assert(rec[v].id == id && rec[w].id == id);
                    assert(v == w);
                }
                assert(rec_get(next, c.id) == c) by {
                    let w = rec_index_of(next, c.id);
                    assert(0 <= w <= i && next[w].id == c.id);
                    if w < i {
                        assert(rec[w].id == c.id && rec[i as int].id == c.id);
                        assert(false);
                    }
                }
                assert(archetype@.components =~= written_components(m0, next, index));
            }
            i += 1;
        }
        proof {
            assert(rec.take(n as int) =~= rec);
        }
    }

    fn add_archetype_requirements(&self, hasher: &mut UnorderedHasher) {
        let ghost rec = self.components@;
        let n = self.components.len();
        let mut i: usize = 0;
        while i < n
            invariant
                n == rec.len(),
                0 <= i <= n,
                rec == self.components@,
                hasher_writes(*hasher) == hasher_writes(*old(hasher)).add(
                    shape_writes(rec.take(i as int)),
                ),
            decreases n - i,
        {
            let c = self.components[i];
            let tag = kind_tag_of(c.kind);
            let value = match c.kind {
                StorageKind::PerArchetype => c.value,
                _ => 0,
            };
            hasher_write(hasher, c.id, tag, value);
            proof {
                assert((c.id, tag, value) == shape_contrib(c));
                let prefix = rec.take(i as int);
                let next = rec.take(i + 1 as int);
                assert(next =~= prefix.push(c));
                crate::shape::lemma_shape_writes_push(prefix, c);
                assert(hasher_writes(*old(hasher)).add(shape_writes(prefix)).insert(
                    shape_contrib(c),
                ) =~= hasher_writes(*old(hasher)).add(shape_writes(next)));
            }
            i += 1;
        }
        proof {
            assert(rec.take(n as int) =~= rec);
        }
    }
}

/// The storages a fresh archetype gets from a well-formed record cover
/// exactly one row.
pub proof fn lemma_init_fits(rec: Seq<ComponentData>)
    requires
        record_distinct(rec),
    ensures
        forall|id: u64| init_components(rec).dom().contains(id)
            ==> storage_fits(#[trigger] init_components(rec)[id], 1),
{
    assert forall|id: u64| init_components(rec).dom().contains(id)
        implies storage_fits(#[trigger] init_components(rec)[id], 1) by {
        let c = rec_get(rec, id);
        let w = rec_index_of(rec, id);
        assert(0 <= w < rec.len() && rec[w].id == id);
        assert(c.kind != StorageKind::Global);
        match init_storage_view(c) {
            StorageView::SparseView { rows } => {
                assert forall|k: usize| #[trigger] rows.dom().contains(k) implies k < 1 by {
                    assert(k == 0usize);
                }
            }
            _ => {}
        }
    }
}

} // verus!
