//! The entity-component-system world: entity handles and their allocator,
//! and the deferred command queue.
pub mod entity;
pub mod commands;
