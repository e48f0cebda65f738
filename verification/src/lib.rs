//! An archetype-based entity/component store.
//!
//! Entities are records of typed components; entities with an identical
//! component shape share an archetype, which stores each component in a
//! columnar backend.  The world keeps a directory from entity identifier to
//! (archetype, row) and offers three access protocols: read-only queries,
//! in-place batch processes, and whole-archetype culls.

pub mod archetype;
pub mod component;
pub mod laws;
pub mod process;
pub mod query;
pub mod shape;
pub mod storage;
pub mod update;
pub mod world;

pub use process::Process;
pub use process::ProcessSimple;
pub use query::BatchView;
pub use query::Query;
pub use query::QueryData;
pub use update::CullArchetypes;
pub use update::Update;

pub use world::EntityDirectory;
pub use world::EntitySlot;
pub use world::UniqueId;
pub use world::World;
pub use world::WorldView;

pub use archetype::Archetype;
pub use archetype::ArchetypeFilter;
pub use archetype::ArchetypeInitializer;
pub use archetype::ArchetypeView;
pub use archetype::EntityWriter;

pub use component::Component;
pub use component::ComponentData;
pub use component::EntityRecord;
pub use component::StorageKind;
pub use component::UNIQUE_ID_COMPONENT;
pub use storage::Batch;
pub use storage::ReadSpec;
pub use storage::EntityStorage;
pub use storage::Storage;
pub use storage::StorageView;
pub use storage::Version;
pub use storage::components::Components;
pub use storage::global::BorrowedGlobal;
pub use storage::global::Global;
pub use storage::per_archetype::BorrowedPerArchetype;
pub use storage::per_archetype::PerArchetype;
pub use storage::per_entity::BorrowedPerEntity;
pub use storage::per_entity::PerEntity;
pub use storage::sparse::BorrowedSparse;
pub use storage::sparse::Sparse;
