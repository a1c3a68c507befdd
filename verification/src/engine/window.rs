use vstd::prelude::*;

verus! {

/// Settings of the game window.
#[derive(Debug, Clone, Copy)]
pub struct WindowPlugin {
    pub inner_size: (u32, u32),
    pub virtual_size: (u32, u32),
    pub position: (u32, u32),
    pub close_on_escape: bool,
}

impl Default for WindowPlugin {
    /// A 1920 by 1080 window at (10, 10) that Escape does not close.
    fn default() -> (w: Self)
        ensures
            w.inner_size == (1920u32, 1080u32),
            w.virtual_size == (1920u32, 1080u32),
            w.position == (10u32, 10u32),
            !w.close_on_escape,
    {
        WindowPlugin {
            inner_size: (1920, 1080),
            virtual_size: (1920, 1080),
            position: (10, 10),
            close_on_escape: false,
        }
    }
}

} // verus!
