use vstd::prelude::*;

verus! {

/// Settings of the game window.
#[derive(Debug, Clone, Copy)]
pub struct WindowPlugin {
    pub inner_size: (u32, u32),
    pub virtual_size: (u32, u32),
    pub position: (u32, u32),
    pub close_on_escape: bool,
}

impl Default for WindowPlugin {
    /// A 1920 by 1080 window at (10, 10) that Escape does not close.
    fn default() -> (w: Self)
        ensures
            w.inner_size == (1920u32, 1080u32),
            w.virtual_size == (1920u32, 1080u32),
            w.position == (10u32, 10u32),
            !w.close_on_escape,
    {
        WindowPlugin {
            inner_size: (1920, 1080),
            virtual_size: (1920, 1080),
            position: (10, 10),
            close_on_escape: false,
        }
    }
}

/// The mouse buttons the window reports.
#[derive(Debug, Clone, Copy, PartialEq, Eq, Structural)]
pub enum MouseButton {
    Left,
    Right,
}

/// What a mouse button event does to the button being held, as
/// `(held now, held before and pressed again)`: pressing the button that is
/// already held lets go of it and reports it; pressing another button (or
/// one the window does not track, `None`) holds that instead; a release
/// holds nothing.
pub open spec fn spec_mouse_button_event(
    last_held: Option<MouseButton>,
    pressed: bool,
    button: Option<MouseButton>,
) -> (Option<MouseButton>, Option<MouseButton>) {
    if !pressed {
        (None, None)
    } else if button == last_held {
        (None, button)
    } else {
        (button, None)
    }
}

/// Updates the held button for a press or release of `button`.
pub fn mouse_button_event(last_held: Option<MouseButton>, pressed: bool, button: Option<MouseButton>) -> (r: (
    Option<MouseButton>,
    Option<MouseButton>,
))
    ensures
        r == spec_mouse_button_event(last_held, pressed, button),
{
    if !pressed {
        return (None, None);
    }
    let same = match (button, last_held) {
        (None, None) => true,
        (Some(MouseButton::Left), Some(MouseButton::Left)) => true,
        (Some(MouseButton::Right), Some(MouseButton::Right)) => true,
        _ => false,
    };
    if same {
        (None, button)
    } else {
        (button, None)
    }
}

/// Whatever button `b` is: pressing it while it is held lets go of it and
/// reports it as pressed again; pressing it while something else (or
/// nothing) is held makes it the held button and reports nothing; pressing
/// it twice in a row from any state ends with nothing held and `b`
/// reported; a release always leaves nothing held and reports nothing. The
/// two buttons behave alike: swapping Left and Right everywhere swaps them
/// in the result.
pub proof fn law_mouse_press_toggles(held: Option<MouseButton>, b: MouseButton)
    ensures
        held == Some(b) ==> spec_mouse_button_event(held, true, Some(b)) == (None::<MouseButton>, Some(b)),
        held != Some(b) ==> spec_mouse_button_event(held, true, Some(b)) == (Some(b), None::<MouseButton>),
        ({
            let (h1, _) = spec_mouse_button_event(held, true, Some(b));
            held != Some(b) ==> spec_mouse_button_event(h1, true, Some(b)) == (None::<MouseButton>, Some(b))
        }),
        spec_mouse_button_event(held, false, Some(b)) == (None::<MouseButton>, None::<MouseButton>),
        spec_mouse_button_event(swap_button(held), true, swap_button(Some(b)))
            == (swap_button(spec_mouse_button_event(held, true, Some(b)).0),
                swap_button(spec_mouse_button_event(held, true, Some(b)).1)),
{
}

/// The other button.
pub open spec fn swap_button(b: Option<MouseButton>) -> Option<MouseButton> {
    match b {
        Some(MouseButton::Left) => Some(MouseButton::Right),
        Some(MouseButton::Right) => Some(MouseButton::Left),
        None => None,
    }
}

} // verus!
