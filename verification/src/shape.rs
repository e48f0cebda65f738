//! The order-independent archetype shape identifier.
//!
//! The shape of an archetype is the set of component types present on it
//! and, for per-archetype-stored components, their values.  Its 64-bit
//! identifier is a commutative, associative fold of each component's
//! contribution, computed by the `unordered-hash` crate, so the identifier
//! does not depend on the order the components are listed in.

use vstd::prelude::*;
use vstd::multiset::Multiset;
use unordered_hash::UnorderedHasher;
use crate::component::{ComponentData, StorageKind};

verus! {

#[verifier::external_type_specification]
#[verifier::external_body]
#[verifier::reject_recursive_types(T)]
pub struct ExUnorderedHasher<T>(UnorderedHasher<T>);

/// The bag of contributions an accumulating hasher has been fed.
pub uninterp spec fn hasher_writes(h: UnorderedHasher) -> Multiset<(u64, u8, u128)>;

/// The 64-bit digest that `unordered-hash` computes from a bag of
/// contributions.  The fold is a wrapping sum of per-value hashes from a
/// fixed-key hasher, so the digest is a function of the bag alone:
/// commutative, associative, and the same in every process.
pub uninterp spec fn unordered_digest(writes: Multiset<(u64, u8, u128)>) -> u64;

/// Relies on unordered_hash::UnorderedHasher::new: a fresh hasher has
/// combined nothing.
#[verifier::external_body]
pub(crate) fn hasher_new() -> (h: UnorderedHasher)
    ensures
        hasher_writes(h) == Multiset::<(u64, u8, u128)>::empty(),
{
    UnorderedHasher::new()
}

/// Relies on unordered_hash::UnorderedHasher::write: hashes the value with
/// a fresh fixed-key hasher and folds the result in by a wrapping sum, so
/// the state depends on the bag of written values alone.
#[verifier::external_body]
pub(crate) fn hasher_write(h: &mut UnorderedHasher, id: u64, kind_tag: u8, value: u128)
    ensures
        hasher_writes(*final(h)) == hasher_writes(*old(h)).insert((id, kind_tag, value)),
{
    h.write(&(id, kind_tag, value));
}

/// Relies on unordered_hash::UnorderedHasher::finish: hands out the
/// accumulated digest, a function of the written values alone.
#[verifier::external_body]
pub(crate) fn hasher_finish(h: &UnorderedHasher) -> (r: u64)
    ensures
        r == unordered_digest(hasher_writes(*h)),
{
    h.finish()
}

/// A small stable tag telling the four storage strategies apart inside a
/// shape contribution.
pub open spec fn kind_tag(kind: StorageKind) -> u8 {
    match kind {
        StorageKind::PerEntity => 0,
        StorageKind::PerArchetype => 1,
        StorageKind::Sparse => 2,
        StorageKind::Global => 3,
    }
}

pub(crate) fn kind_tag_of(kind: StorageKind) -> (r: u8)
    ensures
        r == kind_tag(kind),
{
    match kind {
        StorageKind::PerEntity => 0,
        StorageKind::PerArchetype => 1,
        StorageKind::Sparse => 2,
        StorageKind::Global => 3,
    }
}

/// One component's contribution to the shape: its type tag and strategy
/// always, and its value only for the per-archetype strategy, whose value
/// is part of the shape.
pub open spec fn shape_contrib(c: ComponentData) -> (u64, u8, u128) {
    (
        c.id,
        kind_tag(c.kind),
        if c.kind == StorageKind::PerArchetype {
            c.value
        } else {
            0
        },
    )
}

/// The bag of contributions of a whole record.
pub open spec fn shape_writes(rec: Seq<ComponentData>) -> Multiset<(u64, u8, u128)>
    decreases rec.len(),
{
    if rec.len() == 0 {
        Multiset::empty()
    } else {
        shape_writes(rec.drop_last()).insert(shape_contrib(rec.last()))
    }
}

/// The 64-bit shape identifier of a record.
pub open spec fn shape_hash(rec: Seq<ComponentData>) -> u64 {
    unordered_digest(shape_writes(rec))
}

/// Two records listing the same bag of contributions have the same shape
/// identifier, whatever order their components come in.
pub proof fn lemma_shape_hash_order_independent(r1: Seq<ComponentData>, r2: Seq<ComponentData>)
    requires
        shape_writes(r1) == shape_writes(r2),
    ensures
        shape_hash(r1) == shape_hash(r2),
{
}

/// Appending a component extends the bag of contributions by its own.
pub proof fn lemma_shape_writes_push(rec: Seq<ComponentData>, c: ComponentData)
    ensures
        shape_writes(rec.push(c)) == shape_writes(rec).insert(shape_contrib(c)),
{
    assert(rec.push(c).drop_last() =~= rec);
    assert(rec.push(c).last() == c);
}

} // verus!
