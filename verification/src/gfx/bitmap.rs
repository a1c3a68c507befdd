use vstd::prelude::*;

verus! {

/// A grid of 32-bit pixels, row after row.
#[derive(Debug)]
pub struct BitMap {
    pub height: usize,
    pub width: usize,
    pub pixels: Vec<u32>,
}

impl BitMap {
    pub fn new(pixels: Vec<u32>, width: usize, height: usize) -> (b: Self)
        ensures
            b.pixels@ == pixels@,
            b.width == width,
            b.height == height,
    {
        BitMap { height, width, pixels }
    }
}

impl Default for BitMap {
    fn default() -> (b: Self)
        ensures
            b.height == 0,
            b.width == 0,
            b.pixels@ == Seq::<u32>::empty(),
    {
        BitMap { height: 0, width: 0, pixels: Vec::new() }
    }
}

} // verus!
