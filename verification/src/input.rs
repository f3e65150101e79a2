//! Pointer-event decisions.
//!
//! The seat stub performs no focus tracking of its own: spatial pointer
//! routing is computed outside the 2D protocol world and injected as hits.
//! What remains here are the discrete decisions those hits require — which
//! protocol button a pointer mode stands for, and how a transformed
//! coordinate is clamped onto the output.

use vstd::prelude::*;

verus! {

/// Interaction mode reported with a pointer hit.
#[derive(Clone, Copy, Debug, PartialEq, Eq, Structural)]
pub enum PointerMode {
    Left,
    Right,
    Middle,
    /// A device-specific mode with no protocol button of its own.
    Special,
}

/// Mouse button understood by the compositor's input injection.
#[derive(Clone, Copy, Debug, PartialEq, Eq, Structural)]
pub enum MouseIndex {
    Left,
    Center,
    Right,
}

/// The mouse button a pointer mode maps to, or `None` for a mode whose
/// presses are ignored.
pub fn mouse_index_of(mode: PointerMode) -> (r: Option<MouseIndex>)
    ensures
        r == (match mode {
            PointerMode::Left => Some(MouseIndex::Left),
            PointerMode::Middle => Some(MouseIndex::Center),
            PointerMode::Right => Some(MouseIndex::Right),
            PointerMode::Special => None::<MouseIndex>,
        }),
{
    match mode {
        PointerMode::Left => Some(MouseIndex::Left),
        PointerMode::Middle => Some(MouseIndex::Center),
        PointerMode::Right => Some(MouseIndex::Right),
        PointerMode::Special => None,
    }
}

/// The browser-overlay button index a pointer mode maps to: left, right and
/// middle take their own index; a special hit falls back to the left button.
pub fn browser_button_index(mode: PointerMode) -> (r: i32)
    ensures
        r == (match mode {
            PointerMode::Left => 0int,
            PointerMode::Right => 1int,
            PointerMode::Middle => 2int,
            PointerMode::Special => 0int,
        }),
{
    match mode {
        PointerMode::Left => 0,
        PointerMode::Right => 1,
        PointerMode::Middle => 2,
        PointerMode::Special => 0,
    }
}

/// Clamps one transformed pointer coordinate onto the output: a coordinate
/// that fell off the near edge snaps to zero, any other keeps its value.
pub fn clamped_coord(v: i32) -> (r: u32)
    ensures
        v >= 0 ==> r == v,
        v < 0 ==> r == 0,
{
    if v < 0 {
        0
    } else {
        v as u32
    }
}

} // verus!
