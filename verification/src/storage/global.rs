//! Global singleton storage: exactly one value for the entire world, not
//! scoped to any archetype; looked up by type from the world-level map.

use vstd::prelude::*;
use crate::storage::Version;

verus! {

/// The payload of a global backend: the value and a version stamp (a hook,
/// always at its initial value).
#[derive(Clone, Copy, PartialEq, Eq, Structural, Debug)]
pub struct BorrowedGlobal {
    pub version: Version,
    pub value: u128,
}

impl BorrowedGlobal {
    pub fn new(value: u128) -> (r: Self)
        ensures
            r.value == value,
            r.version == (Version(0u64)),
    {
        BorrowedGlobal { version: Version(0), value }
    }

    pub fn version(&self) -> (v: Version)
        ensures
            v == self.version,
    {
        self.version
    }

    /// Single-row read: the one value, whatever the index.
    pub fn read(&self, _index: usize) -> (r: Option<u128>)
        ensures
            r == Some(self.value),
    {
        Some(self.value)
    }

    /// Whole-world read: the one value.
    pub fn read_batch(&self) -> (r: u128)
        ensures
            r == self.value,
    {
        self.value
    }
}

/// A global singleton backend.
#[derive(Clone, Copy, PartialEq, Eq, Structural, Debug)]
pub struct Global {
    pub cell: BorrowedGlobal,
}

impl Global {
    pub fn new(value: u128) -> (r: Self)
        ensures
            r.cell.value == value,
            r.cell.version == (Version(0u64)),
    {
        Global { cell: BorrowedGlobal::new(value) }
    }

    pub fn borrow(&self) -> (r: &BorrowedGlobal)
        ensures
            *r == self.cell,
    {
        &self.cell
    }

    /// Row removal is a no-op: the data is not row-indexed.
    pub fn remove_entity(&mut self, _index: usize, _top: usize)
        ensures
            *final(self) == *old(self),
    {
    }
}

} // verus!
