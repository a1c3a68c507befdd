use vstd::prelude::*;

verus! {

/// A width and a height in pixels.
#[derive(Debug, Clone)]
pub struct Dimensions(pub u32, pub u32);

/// Names a GPU buffer by its slot in the buffer store.
#[derive(Debug, Clone, Copy, PartialEq, Eq, Structural, PartialOrd, Ord)]
pub struct BufferHandle(pub usize);

impl BufferHandle {
    /// The slot that the handle names.
    pub fn index(&self) -> (i: usize)
        ensures
            i == self.0,
    {
        self.0
    }
}

/// The layer an entity is drawn on.
#[derive(PartialEq, Eq, Structural)]
pub struct RenderLayer(pub u8);

} // verus!
