//! Dense per-entity storage: an ordered column of values, one per row.

use vstd::prelude::*;
use crate::storage::Version;

verus! {

/// The payload of a dense column: the values and a version stamp.  The
/// stamp is a hook for incremental recomputation and currently always
/// reports its initial value.
#[derive(Debug)]
pub struct BorrowedPerEntity {
    pub values: Vec<u128>,
    pub version: Version,
}

impl BorrowedPerEntity {
    pub fn new() -> (r: Self)
        ensures
            r.values@ == Seq::<u128>::empty(),
            r.version == (Version(0u64)),
    {
        BorrowedPerEntity { values: Vec::new(), version: Version(0) }
    }

    pub fn version(&self) -> (v: Version)
        ensures
            v == self.version,
    {
        self.version
    }

    /// Single-row read; absence (an out-of-range row) is an ordinary
    /// outcome, not an error.
    pub fn read(&self, index: usize) -> (r: Option<u128>)
        ensures
            r == (if index < self.values@.len() {
                Some(self.values@[index as int])
            } else {
                None::<u128>
            }),
    {
        if index < self.values.len() {
            Some(self.values[index])
        } else {
            None
        }
    }

    /// Whole-column read: lends the column for the scope of the borrow.
    pub fn read_batch(&self) -> (r: &Vec<u128>)
        ensures
            r@ == self.values@,
    {
        &self.values
    }

    /// In-place write of an existing row.
    pub fn write(&mut self, index: usize, item: u128)
        requires
            index < old(self).values@.len(),
        ensures
            final(self).values@ == old(self).values@.update(index as int, item),
            final(self).version == old(self).version,
    {
        self.values.set(index, item);
    }

    /// Whole-column exclusive access: lends the column for mutation.
    pub fn write_batch(&mut self) -> (r: &mut Vec<u128>)
        ensures
            r@ == old(self).values@,
            final(self).values@ == final(r)@,
            final(self).version == old(self).version,
    {
        &mut self.values
    }
}

/// A dense per-entity backend.  Exclusive access goes through `borrow_mut`,
/// a scope-bound lending borrow checked at compile time.
#[derive(Debug)]
pub struct PerEntity {
    pub cell: BorrowedPerEntity,
}

impl PerEntity {
    pub fn new() -> (r: Self)
        ensures
            r.cell.values@ == Seq::<u128>::empty(),
            r.cell.version == (Version(0u64)),
    {
        PerEntity { cell: BorrowedPerEntity::new() }
    }

    pub fn borrow(&self) -> (r: &BorrowedPerEntity)
        ensures
            *r == self.cell,
    {
        &self.cell
    }

    pub fn borrow_mut(&mut self) -> (r: &mut BorrowedPerEntity)
        ensures
            *r == old(self).cell,
            final(self).cell == *final(r),
    {
        &mut self.cell
    }

    /// Writes a row that is either in place or the next unused one, which
    /// grows the column by one.
    pub fn write_at(&mut self, index: usize, value: u128)
        requires
            index <= old(self).cell.values@.len(),
        ensures
            final(self).cell.values@ == (if index < old(self).cell.values@.len() {
                old(self).cell.values@.update(index as int, value)
            } else {
                old(self).cell.values@.push(value)
            }),
            final(self).cell.version == old(self).cell.version,
    {
        if index == self.cell.values.len() {
            self.cell.values.push(value);
        } else {
            self.cell.values.set(index, value);
        }
    }

    /// Replaces the whole column, as the write-back of a batch transform
    /// does.
    pub fn set_column(&mut self, values: Vec<u128>)
        ensures
            final(self).cell.values@ == values@,
            final(self).cell.version == old(self).cell.version,
    {
        self.cell.values = values;
    }

    /// Swap-compaction: moves the last row into the vacated row and
    /// truncates, keeping the column dense.  `top` is the index of the last
    /// row before removal.
    pub fn remove_entity(&mut self, index: usize, top: usize)
        requires
            old(self).cell.values@.len() == top + 1,
            index <= top,
        ensures
            final(self).cell.values@ == old(self).cell.values@
                .update(index as int, old(self).cell.values@[top as int])
                .drop_last(),
            final(self).cell.values@.len() == top,
            final(self).cell.version == old(self).cell.version,
    {
        let _ = self.cell.values.swap_remove(index);
    }
}

} // verus!
