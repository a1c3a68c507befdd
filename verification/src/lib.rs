//! Core logic of the winny game engine: the entity allocator and command
//! queue of the ECS, the PNG decoder, and the engine's plain data types.
pub mod ecs;

pub use ecs::entity::Entity;
pub mod png;
pub mod gfx;
pub mod render;
pub mod window;
pub mod logging;
pub mod engine;
