//! The process protocol: in-place batch transforms.
//!
//! Given a fixed read list and a fixed write list, a process is invoked
//! once per archetype whose shape satisfies both, with the whole-column
//! read batches and the write columns of that archetype.  Row alignment
//! across the read and write batches of one archetype is guaranteed: same
//! archetype, same row ordering.

use vstd::prelude::*;
use crate::query::{batch_view, BatchView};
use crate::storage::{Batch, ReadSpec};

verus! {

/// A batch transform from read batches to write columns.  The transform
/// is, by contract, a function of the batch values and the current write
/// columns alone, and is expected to keep each column's length; a column
/// whose length it changes is discarded rather than breaking the
/// archetype's row count.
pub trait Process {
    /// The read list, as the contracts see it.
    open spec fn read_list(&self) -> Seq<ReadSpec> {
        arbitrary()
    }

    /// The write list, as the contracts see it.
    open spec fn write_list(&self) -> Seq<u64> {
        arbitrary()
    }

    /// The transform, as the contracts see it: from one archetype's batch
    /// values and current write-column values to the returned columns.
    open spec fn transform_spec(
        &self,
        read: Seq<BatchView>,
        cols: Seq<Seq<u128>>,
    ) -> Seq<Seq<u128>> {
        arbitrary()
    }

    /// The fixed read list resolved against each archetype.
    fn reads(&self) -> (r: Vec<ReadSpec>)
        ensures
            r@ == self.read_list(),
    ;

    /// The component types written: each must be a dense per-entity
    /// column of the archetype, and never the identifier column.
    fn writes(&self) -> (r: Vec<u64>)
        ensures
            r@ == self.write_list(),
    ;

    /// Transforms one archetype's read batches into new contents for its
    /// write columns, one column per entry of the write list.
    fn execute(&self, read: &Vec<Batch>, write: &mut Vec<Vec<u128>>)
        ensures
            final(write)@.map_values(|c: Vec<u128>| c@) == self.transform_spec(
                read@.map_values(|b: Batch| batch_view(b)),
                old(write)@.map_values(|c: Vec<u128>| c@),
            ),
    ;
}

/// A per-row transform: one output value per write component, computed
/// from the row's read values alone.
pub trait ProcessSimple {
    /// The fixed read list resolved against each archetype.
    fn reads(&self) -> Vec<ReadSpec>;

    /// The component types written.
    fn writes(&self) -> Vec<u64>;

    /// One row's new write values from its read values.
    fn execute(&self, read: &Vec<Option<u128>>) -> Vec<u128>;
}

} // verus!
