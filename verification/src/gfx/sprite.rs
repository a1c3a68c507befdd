use vstd::prelude::*;

verus! {

/// The frame bookkeeping of an animated sprite whose texture atlas is
/// `width` frames across and `height` down: the frame shown and the range
/// of frames the animation runs over.
#[derive(Debug)]
pub struct SpriteFrames {
    width: u32,
    height: u32,
    index: u32,
    frame_range: std::ops::Range<u32>,
}

/// The abstract state of [`SpriteFrames`].
pub ghost struct Frames {
    pub width: u32,
    pub height: u32,
    pub index: u32,
    pub start: u32,
    pub end: u32,
}

impl View for SpriteFrames {
    type V = Frames;

    closed spec fn view(&self) -> Frames {
        Frames {
            width: self.width,
            height: self.height,
            index: self.index,
            start: self.frame_range.start,
            end: self.frame_range.end,
        }
    }
}

impl Frames {
    /// Number of frames in the atlas.
    pub open spec fn total(self) -> int {
        self.width * self.height
    }

    /// The state after moving on by one frame: past the end of the range or
    /// of the atlas, the animation starts over at the range's start.
    pub open spec fn advanced(self) -> Frames {
        let next = self.index + 1;
        if next >= self.end || next >= self.total() {
            Frames { index: self.start, ..self }
        } else {
            Frames { index: next as u32, ..self }
        }
    }

    /// Advancing does not overflow.
    pub open spec fn can_advance(self) -> bool {
        self.index < u32::MAX && (self.index + 1 < self.end ==> self.total() <= u32::MAX)
    }
}

impl Default for SpriteFrames {
    /// A single frame.
    fn default() -> (f: Self)
        ensures
            f@ == (Frames { width: 1, height: 1, index: 0, start: 0, end: 1 }),
    {
        SpriteFrames { width: 1, height: 1, index: 0, frame_range: 0..1 }
    }
}

impl SpriteFrames {
    /// All frames of an atlas of `width` by `height` frames, from the first.
    pub fn from_texture_atlas(width: u32, height: u32) -> (f: Self)
        requires
            width * height <= u32::MAX,
        ensures
            f@ == (Frames { width, height, index: 0, start: 0, end: (width * height) as u32 }),
    {
        SpriteFrames { width, height, index: 0, frame_range: 0..(width * height) }
    }

    /// Resizes the atlas; a frame index past its new size goes back to 0.
    pub fn set_dimensions(&mut self, width: u32, height: u32)
        requires
            width * height <= u32::MAX,
        ensures
            final(self)@ == (Frames {
                width,
                height,
                index: if old(self)@.index >= width * height { 0 } else { old(self)@.index },
                ..old(self)@
            }),
    {
        self.width = width;
        self.height = height;
        if self.index >= self.width * self.height {
            self.index = 0;
        }
    }

    pub fn with_dimensions(self, width: u32, height: u32) -> (f: Self)
        ensures
            f@ == (Frames { width, height, ..self@ }),
    {
        let mut f = self;
        f.width = width;
        f.height = height;
        f
    }

    pub fn total_frames(&self) -> (n: u32)
        requires
            self@.total() <= u32::MAX,
        ensures
            n == self@.total(),
    {
        self.width * self.height
    }

    pub fn from_range(self, start: u32, end: u32) -> (f: Self)
        ensures
            f@ == (Frames { start, end, ..self@ }),
    {
        let mut f = self;
        f.frame_range = start..end;
        f
    }

    pub fn range(&self) -> (r: std::ops::Range<u32>)
        ensures
            r.start == self@.start,
            r.end == self@.end,
    {
        self.frame_range.start..self.frame_range.end
    }

    /// The atlas size in frames, across and down.
    pub fn dimensions(&self) -> (d: (u32, u32))
        ensures
            d == (self@.width, self@.height),
    {
        (self.width, self.height)
    }

    pub fn index(&self) -> (i: u32)
        ensures
            i == self@.index,
    {
        self.index
    }

    /// Moves on to the next frame once the frame's time is up.
    pub fn advance_frame(&mut self)
        requires
            old(self)@.can_advance(),
        ensures
            final(self)@ == old(self)@.advanced(),
    {
        self.index = self.index + 1;
        if self.index >= self.frame_range.end || self.index >= self.width * self.height {
            self.index = self.frame_range.start;
        }
    }

    /// The animation shows the last frame of its range.
    pub fn is_finished(&self) -> (b: bool)
        requires
            self@.end >= 1,
        ensures
            b == (self@.index == self@.end - 1),
    {
        self.index == self.frame_range.end - 1
    }
}

/// Advancing keeps the frame inside the animation's range and the atlas:
/// from any frame in `start..min(end, total)` the next frame is in it too,
/// and the last one leads back to `start`.
pub proof fn law_frames_stay_in_range(f: Frames)
    requires
        f.start <= f.index,
        f.index < f.end,
        f.index < f.total(),
    ensures
        f.start <= f.advanced().index,
        f.advanced().index < f.end || f.advanced().index == f.start,
        f.advanced().index < f.total() || f.advanced().index == f.start,
        (f.index + 1 == f.end || f.index + 1 == f.total()) ==> f.advanced().index == f.start,
        f.advanced().width == f.width && f.advanced().height == f.height,
        f.advanced().start == f.start && f.advanced().end == f.end,
{
}

} // verus!
