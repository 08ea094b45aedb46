//! An archetype-based entity-component store.
//!
//! Entities are stable (index, generation) handles. Per-entity state is kept
//! in chunks: fixed-capacity structure-of-arrays blocks, grouped by archetype
//! (the set of component and tag types) and, within an archetype, by chunk-set
//! (the assignment of tag values). Component and tag values are carried as
//! erased byte strings whose length is fixed by the type's metadata, so one
//! store can hold heterogeneous per-entity state.
//!
//! The `World` type is the public surface: insertion, deletion, structural
//! edits (adding and removing components and tags), typed reads, incremental
//! defragmentation and merging of worlds. Every public operation is specified
//! against an abstract model, a map from each live entity to the values of its
//! components and tags, and verified to maintain the store's invariants.

pub mod entity;
pub mod dict;
pub mod meta;
pub mod chunk;
pub mod archetype;
pub mod storage;
pub mod world;
