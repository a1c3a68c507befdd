//! Graphics data that does not touch the GPU: pixel maps, the layout of a
//! texture atlas, and the noise texture's settings.
pub mod bitmap;
pub mod texture;
pub mod noise;
pub mod sprite;
