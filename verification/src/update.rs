//! The update protocol: archetype-level culling.
//!
//! An update walks the archetype slots and may discard whole archetypes;
//! it never alters a slot it keeps.  The common implementation evaluates
//! a predicate once per archetype whose shape satisfies a read list and
//! clears the slot exactly when the predicate holds.

use vstd::prelude::*;
use crate::archetype::{arch_views, Archetype, ArchetypeView};
use crate::query::{batch_view, batch_views_of, lemma_batch_ok_views, reads_match, resolve_reads,
    BatchView};
use crate::storage::components::Components;
use crate::storage::{Batch, ReadSpec, StorageView};

verus! {

/// An archetype-level pass over the world: each slot is either kept
/// exactly as it was or cleared to empty, and what one pass does to the
/// slots is stated by its own `updated` relation.
pub trait Update {
    /// What one pass promises of the slots, beyond keeping or clearing;
    /// each updater defines its own.
    open spec fn updated(
        &self,
        globals: Map<u64, StorageView>,
        before: Seq<Option<ArchetypeView>>,
        after: Seq<Option<ArchetypeView>>,
    ) -> bool {
        true
    }

    fn execute(&self, world_storage: &Components, archetypes: &mut Vec<Option<Archetype>>)
        requires
            world_storage.wf(),
            forall|k: int| 0 <= k < old(archetypes)@.len()
                ==> ((#[trigger] old(archetypes)@[k]) matches Some(a) ==> a.components.wf()),
        ensures
            final(archetypes)@.len() == old(archetypes)@.len(),
            forall|k: int| 0 <= k < old(archetypes)@.len()
                ==> (#[trigger] final(archetypes)@[k]) == old(archetypes)@[k]
                    || final(archetypes)@[k] is None,
            self.updated(
                world_storage@,
                arch_views(old(archetypes)@),
                arch_views(final(archetypes)@),
            ),
    ;
}

/// A cull: a predicate over a whole-archetype batch; archetypes whose
/// shape satisfies the read list and whose batch satisfies the predicate
/// are discarded entirely.
pub trait CullArchetypes {
    /// The read list, as the contracts see it.
    open spec fn read_list(&self) -> Seq<ReadSpec> {
        arbitrary()
    }

    /// The predicate, as the contracts see it: over the batch's values,
    /// not its representation.
    open spec fn cull_spec(&self, data: Seq<BatchView>) -> bool {
        arbitrary()
    }

    /// The fixed read list resolved against each archetype.
    fn reads(&self) -> (r: Vec<ReadSpec>)
        ensures
            r@ == self.read_list(),
    ;

    /// Whether the archetype that produced this batch should be dropped.
    fn should_cull(&self, data: &Vec<Batch>) -> (r: bool)
        ensures
            r == self.cull_spec(data@.map_values(|b: Batch| batch_view(b))),
    ;
}

impl<T: CullArchetypes> Update for T {
    /// A slot is cleared exactly when its archetype satisfies the read
    /// list and the predicate holds of its batch values; every other
    /// slot is left exactly as it was.
    open spec fn updated(
        &self,
        globals: Map<u64, StorageView>,
        before: Seq<Option<ArchetypeView>>,
        after: Seq<Option<ArchetypeView>>,
    ) -> bool {
        &&& after.len() == before.len()
        &&& forall|k: int| 0 <= k < before.len() ==> #[trigger] after[k] == (match before[k] {
            Some(a) => if reads_match(a.components, globals, self.read_list())
                && self.cull_spec(batch_views_of(a.components, globals, self.read_list())) {
                None
            } else {
                Some(a)
            },
            None => None::<ArchetypeView>,
        })
    }

    #[verifier::loop_isolation(false)]
    fn execute(&self, world_storage: &Components, archetypes: &mut Vec<Option<Archetype>>) {
        let reads = self.reads();
        let ghost rl = self.read_list();
        let ghost g = world_storage@;
        let ghost before = arch_views(archetypes@);
        let n = archetypes.len();
        let mut i: usize = 0;
        while i < n
            invariant
                n == archetypes@.len(),
                0 <= i <= n,
                reads@ == rl,
                before == arch_views(old(archetypes)@),
                forall|k: int| i <= k < n
                    ==> (#[trigger] archetypes@[k]) == old(archetypes)@[k],
                forall|k: int| 0 <= k < n
                    ==> (#[trigger] archetypes@[k]) == old(archetypes)@[k]
                        || archetypes@[k] is None,
                forall|k: int| 0 <= k < i
                    ==> #[trigger] arch_views(archetypes@)[k] == (match before[k] {
                        Some(a) => if reads_match(a.components, g, rl)
                            && self.cull_spec(batch_views_of(a.components, g, rl)) {
                            None
                        } else {
                            Some(a)
                        },
                        None => None::<ArchetypeView>,
                    }),
            decreases n - i,
        {
            let ghost vs_start = arch_views(archetypes@);
            let cull = match &archetypes[i] {
                Some(archetype) => {
                    proof {
                        assert(archetypes@[i as int] == old(archetypes)@[i as int]);
                    }
                    match resolve_reads(archetype, world_storage, &reads) {
                        Some(batch) => {
                            proof {
                                lemma_batch_ok_views(batch@, archetype@.components, g, rl);
                            }
                            self.should_cull(&batch)
                        }
                        None => false,
                    }
                }
                None => false,
            };
            if cull {
                archetypes.set(i, None);
            }
            proof {
                assert forall|k: int| 0 <= k < i + 1 implies
                    #[trigger] arch_views(archetypes@)[k] == (match before[k] {
                        Some(a) => if reads_match(a.components, g, rl)
                            && self.cull_spec(batch_views_of(a.components, g, rl)) {
                            None
                        } else {
                            Some(a)
                        },
                        None => None::<ArchetypeView>,
                    }) by {
                    if k < i {
                        assert(vs_start[k] == (match before[k] {
                            Some(a) => if reads_match(a.components, g, rl)
                                && self.cull_spec(batch_views_of(a.components, g, rl)) {
                                None
                            } else {
                                Some(a)
                            },
                            None => None::<ArchetypeView>,
                        }));
                        assert(arch_views(archetypes@)[k] == vs_start[k]);
                    }
                }
            }
            i += 1;
        }
    }
}

} // verus!
