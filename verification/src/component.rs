//! Components as plain values.
//!
//! A component is a `u128` payload tagged with a component-type identifier
//! and the storage strategy fixed for that type.  An entity record is an
//! ordered list of such components: the composite component list that all
//! access protocols operate over, at any arity.

use vstd::prelude::*;

verus! {

/// The component-type identifier reserved for the entity's own unique
/// identifier, which is stored as a dense per-entity column alongside user
/// data.  User components must use other identifiers.
pub const UNIQUE_ID_COMPONENT: u64 = 0;

/// The four storage strategies a component type can be backed by.
#[derive(Clone, Copy, PartialEq, Eq, Structural, Debug)]
pub enum StorageKind {
    /// One value per row, index-addressed.
    PerEntity,
    /// One value shared by every row of an archetype; contributes its value
    /// to the archetype shape.
    PerArchetype,
    /// A mapping from row index to value, for components present on only
    /// some rows.
    Sparse,
    /// One value for the whole world, looked up from the world-level map.
    Global,
}

/// One component of an entity record: type tag, storage strategy, payload.
#[derive(Clone, Copy, PartialEq, Eq, Structural, Debug)]
pub struct ComponentData {
    pub id: u64,
    pub kind: StorageKind,
    pub value: u128,
}

/// How a user type describes itself as a component: its stable type tag,
/// its storage strategy, and its payload.  The storage strategy is a static
/// association of the component type, not chosen per value.
pub trait Component {
    fn component_data(&self) -> ComponentData;
}

/// An ordered list of components: one entity's data, used both to insert
/// the entity and to derive the shape of a fresh archetype.
#[derive(Debug)]
pub struct EntityRecord {
    pub components: Vec<ComponentData>,
}

/// The component-type tags of a record are distinct and none of them is a
/// world-level global (globals are not scoped to an entity).
pub open spec fn record_distinct(rec: Seq<ComponentData>) -> bool {
    &&& forall|i: int, j: int|
        #![trigger rec[i].id, rec[j].id]
        0 <= i < j < rec.len() ==> rec[i].id != rec[j].id
    &&& forall|i: int| 0 <= i < rec.len() ==> (#[trigger] rec[i]).kind != StorageKind::Global
}

/// A record a caller may insert: distinct tags, no globals, and none of
/// them claims the reserved unique-identifier tag, which the world adds
/// itself.
pub open spec fn record_wf(rec: Seq<ComponentData>) -> bool {
    &&& record_distinct(rec)
    &&& forall|i: int| 0 <= i < rec.len() ==> (#[trigger] rec[i]).id != UNIQUE_ID_COMPONENT
}

impl EntityRecord {
    pub open spec fn wf(self) -> bool {
        record_wf(self.components@)
    }

    pub fn new() -> (r: Self)
        ensures
            r.components@ == Seq::<ComponentData>::empty(),
            r.wf(),
    {
        EntityRecord { components: Vec::new() }
    }

    /// Appends one component.  Whether the finished record is well formed
    /// (distinct tags, no globals, no reserved tag) is judged where the
    /// record is inserted.
    pub fn push(&mut self, component: ComponentData)
        ensures
            final(self).components@ == old(self).components@.push(component),
    {
        self.components.push(component);
    }

    pub fn len(&self) -> (n: usize)
        ensures
            n == self.components@.len(),
    {
        self.components.len()
    }
}

} // verus!
