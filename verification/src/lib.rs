//! An entity-component-system core.
//!
//! Entities are lightweight generational handles issued by an allocator.
//! Components are caller-supplied values attached to an entity's slot,
//! indexed by a caller-chosen type tag; the set of tags present at a slot
//! is the slot's signature. Systems declare a required signature and are
//! notified when an entity starts or stops matching it. The world owns
//! all three and runs a per-frame loop: a read-only planning phase over
//! every system, sequential application of the planned mutations in
//! registration order, and finalization of deferred entity destruction.

pub mod entity;
mod component;
pub mod system;
mod world;
mod seqs;

pub use component::Components;
pub use entity::Entity;
pub use system::{BasicSystem, Signature, System};
pub use world::{match_entity_signature, Mutation, World, WorldBuilder};
