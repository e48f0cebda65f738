//! Storage backends and their common value-level views.
//!
//! Four interchangeable strategies back component data, differing only in
//! indexing and cardinality.  A backend instance is owned by exactly one
//! archetype (or by the world, for globals); access protocols borrow it
//! for the scope of one batch operation.

use vstd::prelude::*;

pub mod components;
pub mod global;
pub mod per_archetype;
pub mod per_entity;
pub mod sparse;

verus! {

/// A monotonic change stamp carried by every backend, intended to mark
/// "last changed" for future incremental recomputation; current behavior
/// always reports the initial stamp.
#[derive(Clone, Copy, Eq, Ord, PartialEq, PartialOrd, Hash, Structural, Debug)]
pub struct Version(pub u64);

/// One entry of a read list: a component the protocol needs, or one it
/// merely observes when present.
#[derive(Clone, Copy, PartialEq, Eq, Structural, Debug)]
pub enum ReadSpec {
    /// The archetype must carry the component, or it is skipped.
    Req(u64),
    /// The archetype matches either way; an absent component reads as
    /// `Batch::Missing`.
    Opt(u64),
}

/// A whole-column (or whole-group) view of one backend's data for one
/// archetype, as handed to queries, culls and processes.
#[derive(PartialEq, Eq, Debug)]
pub enum Batch {
    /// A dense per-entity column, one value per row.
    Column(Vec<u128>),
    /// The single value a per-archetype or global backend holds.
    Single(u128),
    /// The (row, value) pairs a sparse backend holds.
    SparseCol(Vec<(usize, u128)>),
    /// An optional component the archetype does not carry.
    Missing,
}

/// Marker for backends whose data is organized per entity row; reserved
/// for callers that want to constrain a component list to row-indexed
/// storage.
pub trait EntityStorage {

}

/// What a backend denotes, stripped of representation: a column is a
/// sequence, a sparse column a map, the group-wide strategies one value.
#[verifier::ext_equal]
pub ghost enum StorageView {
    PerEntityView { values: Seq<u128> },
    PerArchetypeView { value: u128 },
    SparseView { rows: Map<usize, u128> },
    GlobalView { global_value: u128 },
}

/// One storage backend instance, of whichever strategy its component type
/// declares.  Typed retrieval from the type-erased map is a checked
/// variant-downcast on this enum.
#[derive(Debug)]
pub enum Storage {
    PerEntity(per_entity::PerEntity),
    PerArchetype(per_archetype::PerArchetype),
    Sparse(sparse::Sparse),
    Global(global::Global),
}

impl View for Storage {
    type V = StorageView;

    open spec fn view(&self) -> StorageView {
        match *self {
            Storage::PerEntity(s) => StorageView::PerEntityView { values: s.cell.values@ },
            Storage::PerArchetype(s) => StorageView::PerArchetypeView { value: s.cell.value },
            Storage::Sparse(s) => StorageView::SparseView { rows: s.cell@ },
            Storage::Global(s) => StorageView::GlobalView { global_value: s.cell.value },
        }
    }
}

/// The internal ordering conditions a backend keeps (a sparse column's
/// keys are distinct).
pub open spec fn storage_inv(s: Storage) -> bool {
    match s {
        Storage::Sparse(sp) => sp.wf(),
        _ => true,
    }
}

/// What swap-compaction of the row `index`, with `top` the last row before
/// removal, does to a backend's view: dense columns swap the top row in
/// and truncate, sparse columns re-key the top row's entry, and the
/// group-wide strategies are untouched.
pub open spec fn compacted_view(v: StorageView, index: usize, top: usize) -> StorageView {
    match v {
        StorageView::PerEntityView { values } => StorageView::PerEntityView {
            values: values.update(index as int, values[top as int]).drop_last(),
        },
        StorageView::SparseView { rows } => StorageView::SparseView {
            rows: if index != top && rows.dom().contains(top) {
                rows.remove(top).insert(index, rows[top])
            } else {
                rows.remove(index)
            },
        },
        _ => v,
    }
}

/// A backend is ready for compaction of row `index` with last row `top`
/// when its row-indexed data actually covers those rows.
pub open spec fn compact_ready(v: StorageView, index: usize, top: usize) -> bool {
    match v {
        StorageView::PerEntityView { values } => values.len() == top + 1 && index <= top,
        _ => true,
    }
}

impl Storage {
    /// The storage strategy this backend implements.
    pub fn kind(&self) -> (k: crate::component::StorageKind)
        ensures
            k == (match self@ {
                StorageView::PerEntityView { .. } => crate::component::StorageKind::PerEntity,
                StorageView::PerArchetypeView { .. } => crate::component::StorageKind::PerArchetype,
                StorageView::SparseView { .. } => crate::component::StorageKind::Sparse,
                StorageView::GlobalView { .. } => crate::component::StorageKind::Global,
            }),
    {
        match self {
            Storage::PerEntity(_) => crate::component::StorageKind::PerEntity,
            Storage::PerArchetype(_) => crate::component::StorageKind::PerArchetype,
            Storage::Sparse(_) => crate::component::StorageKind::Sparse,
            Storage::Global(_) => crate::component::StorageKind::Global,
        }
    }

    /// Asks the backend to compact away row `index`; a no-op for the
    /// strategies whose data is not row-indexed.
    pub fn remove_entity(&mut self, index: usize, top: usize)
        requires
            storage_inv(*old(self)),
            compact_ready(old(self)@, index, top),
        ensures
            storage_inv(*final(self)),
            final(self)@ == compacted_view(old(self)@, index, top),
    {
        match self {
            Storage::PerEntity(s) => s.remove_entity(index, top),
            Storage::PerArchetype(s) => s.remove_entity(index, top),
            Storage::Sparse(s) => s.remove_entity(index, top),
            Storage::Global(s) => s.remove_entity(index, top),
        }
    }
}

} // verus!
