//! The engine's own platform layer: the key input buffer, log levels and
//! window settings.
pub mod input;
pub mod logging;
pub mod window;
