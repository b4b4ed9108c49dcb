//! What dragging does to the camera.

use vstd::prelude::*;

verus! {

/// What a drag does.
#[derive(Copy, Clone, Debug, PartialEq, Eq, Structural)]
pub enum Drag {
    /// Shifts what is looked at.
    Pan,
    /// Turns around what is looked at.
    Orbit,
}

/// What a drag does with the given buttons and keys held.
pub open spec fn dragging(right: bool, middle: bool, shift: bool) -> Option<Drag> {
    if middle || (right && shift) {
        Some(Drag::Pan)
    } else if right {
        Some(Drag::Orbit)
    } else {
        None
    }
}

/// Without a button nothing is dragged, and shift matters to the right button only: alone it
/// orbits, with shift it pans, as the middle button does in any case.
pub proof fn law_buttons(right: bool, middle: bool, shift: bool)
    ensures
        dragging(right, middle, shift) is None <==> !right && !middle,
        middle ==> dragging(right, middle, shift) == Some(Drag::Pan),
        right && !middle ==> dragging(right, middle, shift) == Some(
            if shift {
                Drag::Pan
            } else {
                Drag::Orbit
            },
        ),
{
}

/// What a drag does with the given buttons and keys held: the middle button pans, and so does the
/// right one with shift; without shift the right button orbits, unless the middle one is held too.
pub fn drag_mode(right: bool, middle: bool, shift: bool) -> (drag: Option<Drag>)
    ensures
        drag == dragging(right, middle, shift),
        drag == (if middle || (right && shift) {
            Some(Drag::Pan)
        } else if right {
            Some(Drag::Orbit)
        } else {
            None
        }),
{
    if middle || (right && shift) {
        Some(Drag::Pan)
    } else if right {
        Some(Drag::Orbit)
    } else {
        None
    }
}

} // verus!
