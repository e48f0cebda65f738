//! Dense per-archetype storage: a single value shared by every row of an
//! archetype, never mutated by per-entity writes.  It contributes its type
//! and value to the archetype shape, so two groups with the same type but
//! different values land in different archetypes.

use vstd::prelude::*;
use crate::storage::Version;

verus! {

/// The payload of a per-archetype backend: the shared value and a version
/// stamp (a hook, always at its initial value).
#[derive(Clone, Copy, PartialEq, Eq, Structural, Debug)]
pub struct BorrowedPerArchetype {
    pub version: Version,
    pub value: u128,
}

impl BorrowedPerArchetype {
    pub fn new(value: u128) -> (r: Self)
        ensures
            r.value == value,
            r.version == (Version(0u64)),
    {
        BorrowedPerArchetype { version: Version(0), value }
    }

    pub fn version(&self) -> (v: Version)
        ensures
            v == self.version,
    {
        self.version
    }

    /// Single-row read: every row shares the one value, whatever the index.
    pub fn read(&self, _index: usize) -> (r: Option<u128>)
        ensures
            r == Some(self.value),
    {
        Some(self.value)
    }

    /// Whole-group read: the one shared value.
    pub fn read_batch(&self) -> (r: u128)
        ensures
            r == self.value,
    {
        self.value
    }
}

/// A dense per-archetype backend.
#[derive(Clone, Copy, PartialEq, Eq, Structural, Debug)]
pub struct PerArchetype {
    pub cell: BorrowedPerArchetype,
}

impl PerArchetype {
    pub fn new(value: u128) -> (r: Self)
        ensures
            r.cell.value == value,
            r.cell.version == (Version(0u64)),
    {
        PerArchetype { cell: BorrowedPerArchetype::new(value) }
    }

    pub fn borrow(&self) -> (r: &BorrowedPerArchetype)
        ensures
            *r == self.cell,
    {
        &self.cell
    }

    /// Row removal is a no-op: the data is not row-indexed.
    pub fn remove_entity(&mut self, _index: usize, _top: usize)
        ensures
            *final(self) == *old(self),
    {
    }
}

} // verus!
