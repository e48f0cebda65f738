//! The query protocol: read-only, cross-archetype aggregation.
//!
//! Given a fixed read list, a query folds a finite sequence of
//! per-archetype batches: every archetype whose shape satisfies the list
//! contributes exactly one batch, in slot order; the others are skipped,
//! never erroring.

use vstd::prelude::*;
use crate::archetype::{Archetype, ArchetypeView};
use crate::storage::components::Components;
use crate::storage::sparse::sparse_map;
use crate::storage::{Batch, ReadSpec, Storage, StorageView};

verus! {

pub open spec fn read_id(r: ReadSpec) -> u64 {
    match r {
        ReadSpec::Req(id) => id,
        ReadSpec::Opt(id) => id,
    }
}

/// Read resolution for one component type: the archetype's backend if it
/// carries the type, else the world-level global backend, else nothing.
pub open spec fn resolve_one(
    m: Map<u64, StorageView>,
    g: Map<u64, StorageView>,
    id: u64,
) -> Option<StorageView> {
    if m.dom().contains(id) {
        Some(m[id])
    } else if g.dom().contains(id) {
        Some(g[id])
    } else {
        None
    }
}

/// Combined read resolution: every required entry of the list must
/// resolve, or the whole list fails to resolve for that archetype.
pub open spec fn reads_match(
    m: Map<u64, StorageView>,
    g: Map<u64, StorageView>,
    reads: Seq<ReadSpec>,
) -> bool {
    forall|i: int| 0 <= i < reads.len()
        ==> ((#[trigger] reads[i]) matches ReadSpec::Req(id)
            ==> resolve_one(m, g, id) is Some)
}

/// One batch element faithfully copies one backend's data.
pub open spec fn batch_matches(b: Batch, v: StorageView) -> bool {
    match b {
        Batch::Column(col) => v matches StorageView::PerEntityView { values }
            && col@ == values,
        Batch::Single(x) => (v matches StorageView::PerArchetypeView { value } && value == x)
            || (v matches StorageView::GlobalView { global_value } && global_value == x),
        Batch::SparseCol(entries) => v matches StorageView::SparseView { rows }
            && sparse_map(entries@) == rows,
        Batch::Missing => false,
    }
}

/// The combined batch of one archetype for a read list: one element per
/// entry, a faithful copy where the entry resolves and `Missing` where an
/// optional entry does not.
pub open spec fn batch_ok(
    bs: Seq<Batch>,
    m: Map<u64, StorageView>,
    g: Map<u64, StorageView>,
    reads: Seq<ReadSpec>,
) -> bool {
    &&& bs.len() == reads.len()
    &&& forall|i: int| 0 <= i < reads.len() ==> (match resolve_one(m, g, read_id(reads[i])) {
        Some(v) => batch_matches(#[trigger] bs[i], v),
        None => bs[i] is Missing,
    })
}

/// The value of one batch element, stripped of representation.
#[verifier::ext_equal]
pub ghost enum BatchView {
    ColumnView { values: Seq<u128> },
    SingleView { value: u128 },
    SparseColView { rows: Map<usize, u128> },
    MissingView,
}

pub open spec fn batch_view(b: Batch) -> BatchView {
    match b {
        Batch::Column(col) => BatchView::ColumnView { values: col@ },
        Batch::Single(x) => BatchView::SingleView { value: x },
        Batch::SparseCol(entries) => BatchView::SparseColView { rows: sparse_map(entries@) },
        Batch::Missing => BatchView::MissingView,
    }
}

pub open spec fn storage_batch_view(v: StorageView) -> BatchView {
    match v {
        StorageView::PerEntityView { values } => BatchView::ColumnView { values },
        StorageView::PerArchetypeView { value } => BatchView::SingleView { value },
        StorageView::SparseView { rows } => BatchView::SparseColView { rows },
        StorageView::GlobalView { global_value } => BatchView::SingleView { value: global_value },
    }
}

/// The batch values an archetype yields for a read list: a function of
/// the storage maps and the list alone.
pub open spec fn batch_views_of(
    m: Map<u64, StorageView>,
    g: Map<u64, StorageView>,
    reads: Seq<ReadSpec>,
) -> Seq<BatchView> {
    Seq::new(reads.len(), |i: int| match resolve_one(m, g, read_id(reads[i])) {
        Some(v) => storage_batch_view(v),
        None => BatchView::MissingView,
    })
}

/// A faithful batch denotes exactly those canonical batch values.
pub proof fn lemma_batch_ok_views(
    bs: Seq<Batch>,
    m: Map<u64, StorageView>,
    g: Map<u64, StorageView>,
    reads: Seq<ReadSpec>,
)
    requires
        batch_ok(bs, m, g, reads),
    ensures
        bs.map_values(|b: Batch| batch_view(b)) =~= batch_views_of(m, g, reads),
{
    assert forall|i: int| 0 <= i < reads.len() implies
        batch_view(bs[i]) == batch_views_of(m, g, reads)[i] by {
        match resolve_one(m, g, read_id(reads[i])) {
            Some(v) => {
                assert(batch_matches(bs[i], v));
            }
            None => {
                assert(bs[i] is Missing);
            }
        }
    }
}

/// The first occupied slot, scanning from `i`, whose shape satisfies the
/// read list.
pub open spec fn first_read_match(
    archs: Seq<Option<ArchetypeView>>,
    g: Map<u64, StorageView>,
    reads: Seq<ReadSpec>,
    i: int,
) -> Option<int>
    decreases archs.len() - i,
{
    if i < 0 || i >= archs.len() {
        None
    } else if archs[i] matches Some(a) && reads_match(a.components, g, reads) {
        Some(i)
    } else {
        first_read_match(archs, g, reads, i + 1)
    }
}

pub(crate) fn copy_column(v: &Vec<u128>) -> (r: Vec<u128>)
    ensures
        r@ == v@,
{
    let mut r: Vec<u128> = Vec::new();
    let n = v.len();
    let mut i: usize = 0;
    while i < n
        invariant
            n == v@.len(),
            0 <= i <= n,
            r@ == v@.take(i as int),
        decreases n - i,
    {
        r.push(v[i]);
        proof {
            assert(v@.take(i + 1 as int) =~= v@.take(i as int).push(v@[i as int]));
        }
        i += 1;
    }
    proof {
        assert(v@.take(n as int) =~= v@);
    }
    r
}

fn copy_pairs(v: &Vec<(usize, u128)>) -> (r: Vec<(usize, u128)>)
    ensures
        r@ == v@,
{
    let mut r: Vec<(usize, u128)> = Vec::new();
    let n = v.len();
    let mut i: usize = 0;
    while i < n
        invariant
            n == v@.len(),
            0 <= i <= n,
            r@ == v@.take(i as int),
        decreases n - i,
    {
        r.push(v[i]);
        proof {
            assert(v@.take(i + 1 as int) =~= v@.take(i as int).push(v@[i as int]));
        }
        i += 1;
    }
    proof {
        assert(v@.take(n as int) =~= v@);
    }
    r
}

/// The batch element for one resolved backend: a copy of its data.
fn batch_of_storage(storage: &Storage) -> (b: Batch)
    requires
        crate::storage::storage_inv(*storage),
    ensures
        batch_matches(b, storage@),
{
    match storage {
        Storage::PerEntity(s) => Batch::Column(copy_column(&s.cell.values)),
        Storage::PerArchetype(s) => Batch::Single(s.cell.value),
        Storage::Sparse(s) => Batch::SparseCol(copy_pairs(&s.cell.entries)),
        Storage::Global(s) => Batch::Single(s.cell.value),
    }
}

/// Combined read resolution and batch construction for one archetype:
/// all required entries resolve and the batch is handed out, or the
/// archetype does not satisfy the list.
#[verifier::loop_isolation(false)]
pub fn resolve_reads(
    archetype: &Archetype,
    globals: &Components,
    reads: &Vec<ReadSpec>,
) -> (r: Option<Vec<Batch>>)
    requires
        archetype.components.wf(),
        globals.wf(),
    ensures
        match r {
            Some(bs) => reads_match(archetype@.components, globals@, reads@)
                && batch_ok(bs@, archetype@.components, globals@, reads@),
            None => !reads_match(archetype@.components, globals@, reads@),
        },
{
    let ghost m = archetype@.components;
    let ghost g = globals@;
    let mut bs: Vec<Batch> = Vec::new();
    let n = reads.len();
    let mut i: usize = 0;
    while i < n
        invariant
            n == reads@.len(),
            0 <= i <= n,
            bs@.len() == i,
            forall|j: int| 0 <= j < i ==> ((#[trigger] reads@[j]) matches ReadSpec::Req(id)
                ==> resolve_one(m, g, id) is Some),
            forall|j: int| 0 <= j < i ==> (match resolve_one(m, g, read_id(reads@[j])) {
                Some(v) => batch_matches(#[trigger] bs@[j], v),
                None => bs@[j] is Missing,
            }),
        decreases n - i,
    {
        let spec_entry = reads[i];
        let (id, required) = match spec_entry {
            ReadSpec::Req(id) => (id, true),
            ReadSpec::Opt(id) => (id, false),
        };
        let element = match archetype.get_storage(id) {
            Some(storage) => Some(batch_of_storage(storage)),
            None => {
                match globals.get_storage(id) {
                    Some(storage) => Some(batch_of_storage(storage)),
                    None => None,
                }
            }
        };
        match element {
            Some(b) => {
                bs.push(b);
            }
            None => {
                if required {
                    proof {
                        assert(reads@[i as int] matches ReadSpec::Req(q) && q == id);
                        assert(resolve_one(m, g, id) is None);
                    }
                    return None;
                }
                bs.push(Batch::Missing);
            }
        }
        i += 1;
    }
    Some(bs)
}

/// The lazy, restartable sequence of per-archetype batches a query
/// consumes: archetype slot order, empty and non-matching slots skipped,
/// each matching archetype contributing at most one batch.
pub struct QueryData<'a> {
    pub i: usize,
    pub archetypes: &'a Vec<Option<Archetype>>,
    pub globals: &'a Components,
    pub reads: Vec<ReadSpec>,
}

impl<'a> QueryData<'a> {
    /// The borrowed storage maps are well formed and the cursor is in
    /// range.
    pub open spec fn wf(self) -> bool {
        &&& self.globals.wf()
        &&& forall|k: int| 0 <= k < self.archetypes@.len()
            ==> ((#[trigger] self.archetypes@[k]) matches Some(a) ==> a.components.wf())
        &&& self.i <= self.archetypes@.len()
    }

    /// The archetype slots as this sequence sees them.
    pub open spec fn archs(self) -> Seq<Option<ArchetypeView>> {
        crate::archetype::arch_views(self.archetypes@)
    }

    pub fn new(
        globals: &'a Components,
        archetypes: &'a Vec<Option<Archetype>>,
        reads: Vec<ReadSpec>,
    ) -> (r: Self)
        ensures
            r.i == 0,
            r.globals == globals,
            r.archetypes == archetypes,
            r.reads == reads,
    {
        QueryData { i: 0, archetypes, globals, reads }
    }

    /// The batch of the next archetype, from the cursor on, whose shape
    /// satisfies the read list; none when no further archetype does.
    #[verifier::loop_isolation(false)]
    pub fn next(&mut self) -> (r: Option<Vec<Batch>>)
        requires
            old(self).wf(),
        ensures
            final(self).wf(),
            final(self).archetypes == old(self).archetypes,
            final(self).globals == old(self).globals,
            final(self).reads == old(self).reads,
            match first_read_match(
                old(self).archs(),
                old(self).globals@,
                old(self).reads@,
                old(self).i as int,
            ) {
                Some(j) => {
                    &&& final(self).i == j + 1
                    &&& r matches Some(bs)
                    &&& batch_ok(
                        bs@,
                        old(self).archs()[j]->Some_0.components,
                        old(self).globals@,
                        old(self).reads@,
                    )
                }
                None => r is None && final(self).i == old(self).archetypes@.len(),
            },
    {
        let ghost archs = self.archs();
        let n = self.archetypes.len();
        while self.i < n
            invariant
                n == self.archetypes@.len(),
                self.i <= n,
                self.archetypes == old(self).archetypes,
                self.globals == old(self).globals,
                self.reads == old(self).reads,
                first_read_match(archs, self.globals@, self.reads@, old(self).i as int)
                    == first_read_match(archs, self.globals@, self.reads@, self.i as int),
            decreases n - self.i,
        {
            let i = self.i;
            self.i = self.i + 1;
            match &self.archetypes[i] {
                Some(candidate) => {
                    match resolve_reads(candidate, self.globals, &self.reads) {
                        Some(batch) => {
                            proof {
                                assert(first_read_match(
                                    archs, self.globals@, self.reads@, i as int) == Some(i as int));
                            }
                            return Some(batch);
                        }
                        None => {}
                    }
                }
                None => {}
            }
        }
        None
    }

    /// Bounds on how many batches are still to come: at least none, at
    /// most one per remaining slot.
    pub fn size_hint(&self) -> (r: (usize, Option<usize>))
        requires
            self.i <= self.archetypes@.len(),
        ensures
            r.0 == 0,
            r.1 == Some((self.archetypes@.len() - self.i) as usize),
    {
        (0, Some(self.archetypes.len() - self.i))
    }
}

/// A read-only aggregation over every archetype whose shape satisfies the
/// query's read list.  Implementors fold the sequence of batches into one
/// output value.
pub trait Query {
    type Output;

    /// The fixed read list this query resolves against each archetype.
    fn reads(&self) -> Vec<ReadSpec>;

    /// Folds the per-archetype batches into the query's output.
    fn execute(&self, data: QueryData<'_>) -> Self::Output;
}

} // verus!
