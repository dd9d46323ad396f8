//! Where the tool app's window opens: the saved size and position, or the
//! defaults.

use vstd::prelude::*;

verus! {

/// The window size and position saved when the app closed.
#[derive(Debug, Clone, Copy, PartialEq, Eq, Structural)]
pub struct WindowState {
    pub width: u32,
    pub height: u32,
    pub x: i32,
    pub y: i32,
}

/// The size and position the window opens with.
#[derive(Debug, Clone, Copy, PartialEq, Eq)]
pub struct WindowGeometry {
    pub width: u32,
    pub height: u32,
    /// `None` lets the platform place the window.
    pub position: Option<(i32, i32)>,
}

/// The saved size, or 1024 by 700; the saved position unless it is the
/// origin (then the platform places the window).
pub fn window_geometry(saved: Option<WindowState>) -> (g: WindowGeometry)
    ensures
        match saved {
            Some(s) => g == (WindowGeometry {
                width: s.width,
                height: s.height,
                position: if s.x != 0 || s.y != 0 { Some((s.x, s.y)) } else { None },
            }),
            None => g == (WindowGeometry { width: 1024, height: 700, position: None }),
        },
{
    match saved {
        Some(s) => WindowGeometry {
            width: s.width,
            height: s.height,
            position: if s.x != 0 || s.y != 0 { Some((s.x, s.y)) } else { None },
        },
        None => WindowGeometry { width: 1024, height: 700, position: None },
    }
}

} // verus!
