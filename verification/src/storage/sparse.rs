//! Sparse storage: a mapping from row index to value, for components
//! present on only some rows of an archetype.  Row removal performs the
//! same swap-compaction as dense storage: the value at the vacated top row
//! is re-keyed to the removed row's index if present, otherwise the removed
//! row's own entry is simply dropped.

use vstd::prelude::*;
use crate::storage::Version;

verus! {

/// The entries carry distinct row keys.
pub open spec fn sparse_unique(s: Seq<(usize, u128)>) -> bool {
    forall|i: int, j: int|
        #![trigger s[i].0, s[j].0]
        0 <= i < j < s.len() ==> s[i].0 != s[j].0
}

pub open spec fn sparse_has_key(s: Seq<(usize, u128)>, key: usize) -> bool {
    exists|i: int| 0 <= i < s.len() && (#[trigger] s[i]).0 == key
}

pub open spec fn sparse_index_of(s: Seq<(usize, u128)>, key: usize) -> int {
    choose|i: int| 0 <= i < s.len() && (#[trigger] s[i]).0 == key
}

/// The mathematical view of a sparse column: a finite map from row index
/// to value.
pub open spec fn sparse_map(s: Seq<(usize, u128)>) -> Map<usize, u128> {
    Map::new(
        |key: usize| sparse_has_key(s, key),
        |key: usize| s[sparse_index_of(s, key)].1,
    )
}

/// The payload of a sparse backend: the (row, value) entries and a version
/// stamp (a hook, always at its initial value).
#[derive(Debug)]
pub struct BorrowedSparse {
    pub version: Version,
    pub entries: Vec<(usize, u128)>,
}

impl BorrowedSparse {
    /// The row keys are distinct, so the entries denote a map.
    pub open spec fn wf(self) -> bool {
        sparse_unique(self.entries@)
    }

    /// The map this column denotes.
    pub open spec fn view(self) -> Map<usize, u128> {
        sparse_map(self.entries@)
    }

    pub fn new() -> (r: Self)
        ensures
            r.entries@ == Seq::<(usize, u128)>::empty(),
            r@ =~= Map::<usize, u128>::empty(),
            r.wf(),
            r.version == (Version(0u64)),
    {
        let r = BorrowedSparse { version: Version(0), entries: Vec::new() };
        proof {
            assert(forall|k: usize| !sparse_has_key(r.entries@, k));
        }
        r
    }

    pub fn version(&self) -> (v: Version)
        ensures
            v == self.version,
    {
        self.version
    }

    /// Single-row read; a row without an entry reads as none, an ordinary
    /// outcome.
    pub fn read(&self, index: usize) -> (r: Option<u128>)
        requires
            self.wf(),
        ensures
            r == (if self@.dom().contains(index) {
                Some(self@[index])
            } else {
                None::<u128>
            }),
    {
        let n = self.entries.len();
        let mut i: usize = 0;
        while i < n
            invariant
                n == self.entries@.len(),
                0 <= i <= n,
                self.wf(),
                forall|j: int| 0 <= j < i ==> (#[trigger] self.entries@[j]).0 != index,
            decreases n - i,
        {
            let (key, value) = self.entries[i];
            if key == index {
                proof {
                    assert(sparse_has_key(self.entries@, index));
                    let w = sparse_index_of(self.entries@, index);
                    assert(self.entries@[w].0 == index);
                    assert(w == i);
                }
                return Some(value);
            }
            i += 1;
        }
        proof {
            assert(!sparse_has_key(self.entries@, index));
        }
        None
    }

    /// Whole-column read: lends the entries for the scope of the borrow.
    pub fn read_batch(&self) -> (r: &Vec<(usize, u128)>)
        ensures
            r@ == self.entries@,
    {
        &self.entries
    }

    /// Inserts or overwrites the value at one row.
    pub fn write(&mut self, index: usize, value: u128)
        requires
            old(self).wf(),
        ensures
            final(self).wf(),
            final(self)@ =~= old(self)@.insert(index, value),
            final(self).version == old(self).version,
    {
        let ghost old_entries = self.entries@;
        let n = self.entries.len();
        let mut i: usize = 0;
        while i < n
            invariant
                n == self.entries@.len(),
                0 <= i <= n,
                self.wf(),
                self.entries@ == old_entries,
                old_entries == old(self).entries@,
                self.version == old(self).version,
                forall|j: int| 0 <= j < i ==> (#[trigger] self.entries@[j]).0 != index,
            decreases n - i,
        {
            let (key, _) = self.entries[i];
            if key == index {
                self.entries.set(i, (index, value));
                proof {
                    lemma_sparse_update_value(old_entries, i as int, index, value);
                }
                return;
            }
            i += 1;
        }
        self.entries.push((index, value));
        proof {
            lemma_sparse_push(old_entries, index, value);
        }
    }

    /// Removes the entry at one row, handing back its value if present.
    pub fn remove(&mut self, index: usize) -> (r: Option<u128>)
        requires
            old(self).wf(),
        ensures
            final(self).wf(),
            final(self)@ =~= old(self)@.remove(index),
            r == (if old(self)@.dom().contains(index) {
                Some(old(self)@[index])
            } else {
                None::<u128>
            }),
            final(self).version == old(self).version,
    {
        let ghost old_entries = self.entries@;
        let n = self.entries.len();
        let mut i: usize = 0;
        while i < n
            invariant
                n == self.entries@.len(),
                0 <= i <= n,
                self.wf(),
                self.entries@ == old_entries,
                old_entries == old(self).entries@,
                self.version == old(self).version,
                forall|j: int| 0 <= j < i ==> (#[trigger] self.entries@[j]).0 != index,
            decreases n - i,
        {
            let (key, value) = self.entries[i];
            if key == index {
                let _ = self.entries.swap_remove(i);
                proof {
                    assert(sparse_has_key(old_entries, index));
                    let w = sparse_index_of(old_entries, index);
                    assert(old_entries[w].0 == index);
                    assert(w == i);
                    lemma_sparse_swap_remove(old_entries, i as int);
                }
                return Some(value);
            }
            i += 1;
        }
        proof {
            assert(!sparse_has_key(self.entries@, index));
            assert(self@ =~= self@.remove(index));
        }
        None
    }
}

/// Overwriting the value of an existing key updates the map at that key.
proof fn lemma_sparse_update_value(s: Seq<(usize, u128)>, i: int, key: usize, value: u128)
    requires
        sparse_unique(s),
        0 <= i < s.len(),
        s[i].0 == key,
    ensures
        sparse_unique(s.update(i, (key, value))),
        sparse_map(s.update(i, (key, value))) =~= sparse_map(s).insert(key, value),
{
    let t = s.update(i, (key, value));
    assert forall|k: usize| sparse_has_key(t, k) <==> sparse_has_key(s, k) by {
        if sparse_has_key(t, k) {
            let w = sparse_index_of(t, k);
            assert(s[if w == i { i } else { w }].0 == k);
        }
        if sparse_has_key(s, k) {
            let w = sparse_index_of(s, k);
            assert(t[if w == i { i } else { w }].0 == k);
        }
    }
    assert forall|k: usize| #[trigger] sparse_has_key(t, k) implies
        t[sparse_index_of(t, k)].1 == (if k == key { value } else { s[sparse_index_of(s, k)].1 }) by {
        let w = sparse_index_of(t, k);
        assert(0 <= w < t.len() && t[w].0 == k);
        if k == key {
            assert(w == i);
        } else {
            assert(w != i);
            let v = sparse_index_of(s, k);
            assert(0 <= v < s.len() && s[v].0 == k);
            assert(v == w);
        }
    }
}

/// Appending a fresh key inserts it into the map.
proof fn lemma_sparse_push(s: Seq<(usize, u128)>, key: usize, value: u128)
    requires
        sparse_unique(s),
        !sparse_has_key(s, key),
    ensures
        sparse_unique(s.push((key, value))),
        sparse_map(s.push((key, value))) =~= sparse_map(s).insert(key, value),
{
    let t = s.push((key, value));
    assert(t[s.len() as int].0 == key);
    assert forall|k: usize| #[trigger] sparse_has_key(t, k) implies
        (k == key || sparse_has_key(s, k)) by {
        let w = sparse_index_of(t, k);
        if w < s.len() {
            assert(s[w].0 == k);
        }
    }
    assert forall|k: usize| k != key && sparse_has_key(s, k) implies sparse_has_key(t, k) by {
        let w = sparse_index_of(s, k);
        assert(t[w].0 == k);
    }
    assert forall|k: usize| #[trigger] sparse_has_key(t, k) implies
        t[sparse_index_of(t, k)].1 == (if k == key { value } else { s[sparse_index_of(s, k)].1 }) by {
        let w = sparse_index_of(t, k);
        assert(0 <= w < t.len() && t[w].0 == k);
        if k == key {
            if w < s.len() {
                assert(s[w].0 == key);
                assert(sparse_has_key(s, key));
            }
            assert(w == s.len() as int);
        } else {
            assert(w != s.len() as int);
            let v = sparse_index_of(s, k);
            assert(0 <= v < s.len() && s[v].0 == k);
            assert(t[v].0 == k);
            assert(v == w);
        }
    }
}

/// Swap-removing an entry removes its key from the map.
proof fn lemma_sparse_swap_remove(s: Seq<(usize, u128)>, i: int)
    requires
        sparse_unique(s),
        0 <= i < s.len(),
    ensures
        sparse_unique(s.update(i, s.last()).drop_last()),
        sparse_map(s.update(i, s.last()).drop_last()) =~= sparse_map(s).remove(s[i].0),
{
    let key = s[i].0;
    let t = s.update(i, s.last()).drop_last();
    assert(t.len() == s.len() - 1);
    assert forall|j: int| 0 <= j < t.len() implies
        t[j] == (if j == i { s[s.len() - 1] } else { s[j] }) by {}
    assert forall|k: usize| #[trigger] sparse_has_key(t, k) implies
        (k != key && sparse_has_key(s, k)) by {
        let w = sparse_index_of(t, k);
        if w == i {
            assert(s[s.len() - 1].0 == k);
            if i < s.len() - 1 {
                assert(s[i].0 != s[s.len() - 1].0);
            }
        } else {
            assert(s[w].0 == k);
            if k == key {
                assert(s[i].0 == k);
            }
        }
    }
    assert forall|k: usize| k != key && sparse_has_key(s, k) implies sparse_has_key(t, k) by {
        let w = sparse_index_of(s, k);
        assert(s[w].0 == k);
        assert(w != i);
        if w == s.len() - 1 {
            if i < s.len() - 1 {
                assert(t[i].0 == k);
            }
        } else {
            assert(t[w].0 == k);
        }
    }
    assert forall|k: usize| #[trigger] sparse_has_key(t, k) implies
        t[sparse_index_of(t, k)].1 == s[sparse_index_of(s, k)].1 by {
        let w = sparse_index_of(t, k);
        assert(0 <= w < t.len() && t[w].0 == k);
        let v = sparse_index_of(s, k);
        assert(0 <= v < s.len() && s[v].0 == k);
        if w == i {
            assert(t[w] == s[s.len() - 1]);
            assert(s[s.len() - 1].0 == k);
            assert(v == s.len() - 1);
        } else {
            assert(t[w] == s[w]);
            assert(s[w].0 == k);
            assert(v == w);
        }
    }
}

/// A sparse backend.
#[derive(Debug)]
pub struct Sparse {
    pub cell: BorrowedSparse,
}

impl Default for Sparse {
    fn default() -> (r: Self)
        ensures
            r.cell@ =~= Map::<usize, u128>::empty(),
            r.wf(),
    {
        Sparse::new()
    }
}

impl Sparse {
    pub open spec fn wf(self) -> bool {
        self.cell.wf()
    }

    pub fn new() -> (r: Self)
        ensures
            r.cell.entries@ == Seq::<(usize, u128)>::empty(),
            r.cell@ =~= Map::<usize, u128>::empty(),
            r.wf(),
            r.cell.version == (Version(0u64)),
    {
        Sparse { cell: BorrowedSparse::new() }
    }

    pub fn borrow(&self) -> (r: &BorrowedSparse)
        ensures
            *r == self.cell,
    {
        &self.cell
    }

    /// Inserts or overwrites the value at one row.
    pub fn write(&mut self, index: usize, value: u128)
        requires
            old(self).wf(),
        ensures
            final(self).wf(),
            final(self).cell@ =~= old(self).cell@.insert(index, value),
            final(self).cell.version == old(self).cell.version,
    {
        self.cell.write(index, value);
    }

    /// Swap-compaction: the value at the vacated top row, if any, is
    /// re-keyed to the removed row's index; otherwise the removed row's
    /// entry is dropped.  `top` is the index of the last row before
    /// removal; removing the top row itself just drops its entry.
    pub fn remove_entity(&mut self, index: usize, top: usize)
        requires
            old(self).wf(),
        ensures
            final(self).wf(),
            final(self).cell@ =~= (if index != top && old(self).cell@.dom().contains(top) {
                old(self).cell@.remove(top).insert(index, old(self).cell@[top])
            } else {
                old(self).cell@.remove(index)
            }),
            final(self).cell.version == old(self).cell.version,
    {
        if index == top {
            let _ = self.cell.remove(index);
            return;
        }
        let moved = self.cell.remove(top);
        match moved {
            Some(value) => {
                self.cell.write(index, value);
            }
            None => {
                let _ = self.cell.remove(index);
            }
        }
    }
}

} // verus!
