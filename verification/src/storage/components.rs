//! The type-erased storage map: a heterogeneous mapping from component
//! type tag to exactly one storage backend instance, with type-checked
//! retrieval by a checked variant-downcast.  Inserting a second instance
//! for an already-present type is a contract violation, excluded by
//! precondition.

use vstd::prelude::*;
use crate::storage::{compact_ready, compacted_view, storage_inv, Storage, StorageView};

verus! {

/// The entries carry distinct component-type tags.
pub open spec fn comp_unique(s: Seq<(u64, Storage)>) -> bool {
    forall|i: int, j: int|
        #![trigger s[i].0, s[j].0]
        0 <= i < j < s.len() ==> s[i].0 != s[j].0
}

pub open spec fn comp_has_id(s: Seq<(u64, Storage)>, id: u64) -> bool {
    exists|i: int| 0 <= i < s.len() && (#[trigger] s[i]).0 == id
}

pub open spec fn comp_index_of(s: Seq<(u64, Storage)>, id: u64) -> int {
    choose|i: int| 0 <= i < s.len() && (#[trigger] s[i]).0 == id
}

/// The mathematical view of a storage map: component type tag to the view
/// of the backend stored for it.
pub open spec fn comp_map(s: Seq<(u64, Storage)>) -> Map<u64, StorageView> {
    Map::new(
        |id: u64| comp_has_id(s, id),
        |id: u64| s[comp_index_of(s, id)].1@,
    )
}

/// What asking every backend of a map to compact away one row does to the
/// map's view.
pub open spec fn compacted_map(m: Map<u64, StorageView>, index: usize, top: usize)
    -> Map<u64, StorageView> {
    Map::new(
        |id: u64| m.dom().contains(id),
        |id: u64| compacted_view(m[id], index, top),
    )
}

/// Maps a component type tag to one shared storage backend instance.
#[derive(Debug)]
pub struct Components {
    pub entries: Vec<(u64, Storage)>,
}

impl View for Components {
    type V = Map<u64, StorageView>;

    open spec fn view(&self) -> Map<u64, StorageView> {
        comp_map(self.entries@)
    }
}

impl Components {
    /// Tags are distinct and every backend keeps its internal conditions.
    pub open spec fn wf(self) -> bool {
        &&& comp_unique(self.entries@)
        &&& forall|i: int|
            0 <= i < self.entries@.len() ==> storage_inv((#[trigger] self.entries@[i]).1)
    }

    pub fn new() -> (r: Self)
        ensures
            r.entries@ == Seq::<(u64, Storage)>::empty(),
            r@ =~= Map::<u64, StorageView>::empty(),
            r.wf(),
    {
        let r = Components { entries: Vec::new() };
        proof {
            assert(forall|id: u64| !comp_has_id(r.entries@, id));
        }
        r
    }

    /// The position of the backend stored for a tag, if any.
    fn find(&self, id: u64) -> (r: Option<usize>)
        ensures
            match r {
                Some(i) => i < self.entries@.len() && self.entries@[i as int].0 == id
                    && self@.dom().contains(id)
                    && (comp_unique(self.entries@) ==> i == comp_index_of(self.entries@, id)),
                None => !self@.dom().contains(id),
            },
    {
        let n = self.entries.len();
        let mut i: usize = 0;
        while i < n
            invariant
                n == self.entries@.len(),
                0 <= i <= n,
                forall|j: int| 0 <= j < i ==> (#[trigger] self.entries@[j]).0 != id,
            decreases n - i,
        {
            if self.entries[i].0 == id {
                proof {
                    assert(comp_has_id(self.entries@, id));
                    let w = comp_index_of(self.entries@, id);
                    assert(self.entries@[w].0 == id);
                    if comp_unique(self.entries@) {
                        assert(w == i);
                    }
                }
                return Some(i);
            }
            i += 1;
        }
        proof {
            assert(!comp_has_id(self.entries@, id));
        }
        None
    }

    /// Type-checked retrieval: the backend stored for a tag, or none if
    /// the tag is absent from this map (an ordinary outcome, used to test
    /// shape membership).
    pub fn get_storage(&self, id: u64) -> (r: Option<&Storage>)
        requires
            self.wf(),
        ensures
            match r {
                Some(s) => self@.dom().contains(id) && s@ == self@[id] && storage_inv(*s)
                    && *s == self.entries@[comp_index_of(self.entries@, id)].1,
                None => !self@.dom().contains(id),
            },
    {
        match self.find(id) {
            Some(i) => {
                proof {
                    let w = comp_index_of(self.entries@, id);
                    assert(self.entries@[w].0 == id);
                }
                Some(&self.entries[i].1)
            }
            None => None,
        }
    }

    /// Exclusive type-checked retrieval: lends the backend stored for a
    /// tag for mutation.
    pub fn get_storage_mut(&mut self, id: u64) -> (r: Option<&mut Storage>)
        requires
            old(self).wf(),
        ensures
            match r {
                Some(s) => old(self)@.dom().contains(id)
                    && *s == old(self).entries@[comp_index_of(old(self).entries@, id)].1
                    && s@ == old(self)@[id]
                    && storage_inv(*s)
                    && final(self).entries@ == old(self).entries@.update(
                        comp_index_of(old(self).entries@, id),
                        (id, *final(s)),
                    ),
                None => !old(self)@.dom().contains(id) && *final(self) == *old(self),
            },
    {
        match self.find(id) {
            Some(i) => {
                let entry = &mut self.entries[i];
                Some(&mut entry.1)
            }
            None => None,
        }
    }

    /// Registers the backend for a component type.  Adding a component
    /// twice to the same map is a contract violation, excluded here by
    /// precondition.
    pub fn add(&mut self, id: u64, storage: Storage)
        requires
            old(self).wf(),
            !old(self)@.dom().contains(id),
            storage_inv(storage),
        ensures
            final(self).wf(),
            final(self)@ =~= old(self)@.insert(id, storage@),
            final(self).entries@ == old(self).entries@.push((id, storage)),
    {
        let ghost old_entries = self.entries@;
        let ghost st = storage;
        self.entries.push((id, storage));
        proof {
            lemma_comp_push(old_entries, id, st);
        }
    }

    /// Asks every backend in the map to compact away row `index`, with
    /// `top` the last row before removal.
    pub fn remove_entity(&mut self, index: usize, top: usize)
        requires
            old(self).wf(),
            forall|id: u64| old(self)@.dom().contains(id)
                ==> compact_ready(#[trigger] old(self)@[id], index, top),
        ensures
            final(self).wf(),
            final(self)@ =~= compacted_map(old(self)@, index, top),
    {
        let ghost old_entries = self.entries@;
        let n = self.entries.len();
        let mut i: usize = 0;
        while i < n
            invariant
                n == self.entries@.len(),
                n == old_entries.len(),
                0 <= i <= n,
                old_entries == old(self).entries@,
                old(self).wf(),
                forall|id: u64| old(self)@.dom().contains(id)
                    ==> compact_ready(#[trigger] old(self)@[id], index, top),
                forall|j: int| 0 <= j < n ==> (#[trigger] self.entries@[j]).0 == old_entries[j].0,
                forall|j: int| 0 <= j < n ==> storage_inv((#[trigger] self.entries@[j]).1),
                forall|j: int| 0 <= j < i
                    ==> (#[trigger] self.entries@[j]).1@ == compacted_view(old_entries[j].1@, index, top),
                forall|j: int| i <= j < n ==> (#[trigger] self.entries@[j]).1 == old_entries[j].1,
            decreases n - i,
        {
            proof {
                assert(comp_has_id(old_entries, old_entries[i as int].0));
                let w = comp_index_of(old_entries, old_entries[i as int].0);
                assert(old_entries[w].0 == old_entries[i as int].0);
                assert(w == i);
                assert(old(self)@.dom().contains(old_entries[i as int].0));
                assert(old(self)@[old_entries[i as int].0] == old_entries[i as int].1@);
            }
            let entry = &mut self.entries[i];
            entry.1.remove_entity(index, top);
            i += 1;
        }
        proof {
            assert forall|id: u64| comp_has_id(self.entries@, id) <==> comp_has_id(old_entries, id) by {
                if comp_has_id(self.entries@, id) {
                    let w = comp_index_of(self.entries@, id);
                    assert(old_entries[w].0 == id);
                }
                if comp_has_id(old_entries, id) {
                    let w = comp_index_of(old_entries, id);
                    assert(self.entries@[w].0 == id);
                }
            }
            assert forall|id: u64| #[trigger] comp_has_id(self.entries@, id) implies
                self.entries@[comp_index_of(self.entries@, id)].1@
                    == compacted_view(old_entries[comp_index_of(old_entries, id)].1@, index, top) by {
                let w = comp_index_of(self.entries@, id);
                assert(self.entries@[w].0 == id);
                let v = comp_index_of(old_entries, id);
                assert(old_entries[v].0 == id);
                assert(self.entries@[v].0 == id);
                assert(v == w);
            }
        }
    }
}

/// Appending a fresh tag inserts its backend's view into the map.
pub proof fn lemma_comp_push(s: Seq<(u64, Storage)>, id: u64, storage: Storage)
    requires
        comp_unique(s),
        !comp_has_id(s, id),
    ensures
        comp_unique(s.push((id, storage))),
        comp_map(s.push((id, storage))) =~= comp_map(s).insert(id, storage@),
{
    let t = s.push((id, storage));
    assert(t[s.len() as int].0 == id);
    assert forall|k: u64| #[trigger] comp_has_id(t, k) implies
        (k == id || comp_has_id(s, k)) by {
        let w = comp_index_of(t, k);
        if w < s.len() {
            assert(s[w].0 == k);
        }
    }
    assert forall|k: u64| k != id && comp_has_id(s, k) implies comp_has_id(t, k) by {
        let w = comp_index_of(s, k);
        assert(t[w].0 == k);
    }
    assert forall|k: u64| #[trigger] comp_has_id(t, k) implies
        t[comp_index_of(t, k)].1@ == (if k == id { storage@ } else { s[comp_index_of(s, k)].1@ }) by {
        let w = comp_index_of(t, k);
        assert(0 <= w < t.len() && t[w].0 == k);
        if k == id {
            if w < s.len() {
                assert(s[w].0 == id);
                assert(comp_has_id(s, id));
            }
            assert(w == s.len() as int);
        } else {
            assert(w != s.len() as int);
            let v = comp_index_of(s, k);
            assert(0 <= v < s.len() && s[v].0 == k);
            assert(t[v].0 == k);
            assert(v == w);
        }
    }
}

/// Replacing the backend stored at one position updates the map at its
/// tag.
pub proof fn lemma_comp_update(s: Seq<(u64, Storage)>, i: int, id: u64, storage: Storage)
    requires
        comp_unique(s),
        0 <= i < s.len(),
        s[i].0 == id,
    ensures
        comp_unique(s.update(i, (id, storage))),
        comp_map(s.update(i, (id, storage))) =~= comp_map(s).insert(id, storage@),
{
    let t = s.update(i, (id, storage));
    assert forall|k: u64| comp_has_id(t, k) <==> comp_has_id(s, k) by {
        if comp_has_id(t, k) {
            let w = comp_index_of(t, k);
            assert(s[if w == i { i } else { w }].0 == k);
        }
        if comp_has_id(s, k) {
            let w = comp_index_of(s, k);
            assert(t[if w == i { i } else { w }].0 == k);
        }
    }
    assert forall|k: u64| #[trigger] comp_has_id(t, k) implies
        t[comp_index_of(t, k)].1@ == (if k == id { storage@ } else { s[comp_index_of(s, k)].1@ }) by {
        let w = comp_index_of(t, k);
        assert(0 <= w < t.len() && t[w].0 == k);
        if k == id {
            assert(w == i);
        } else {
            assert(w != i);
            let v = comp_index_of(s, k);
            assert(0 <= v < s.len() && s[v].0 == k);
            assert(v == w);
        }
    }
}

} // verus!
