//! The drag state of a slider handle.
//!
//! A handle is either at rest or being dragged. The host looks at the pointer
//! once per frame, tells this module what it saw, and learns the handle's next
//! state and whether the handle has to follow the pointer in this frame. Where
//! the handle then goes, and which value that stands for, is the host's
//! real-valued arithmetic.

use vstd::prelude::*;

verus! {

/// What a slider handle is doing.
#[derive(Clone, Copy, Debug, PartialEq, Eq, Structural)]
pub enum DragState {
    /// The handle rests where it was left.
    Idle,
    /// The handle follows the pointer.
    Dragging,
}

/// What the host saw of the pointer in one frame.
#[derive(Clone, Copy, Debug, PartialEq, Eq, Structural)]
pub struct PointerFrame {
    /// The pointer is within the handle's hit region.
    pub over_handle: bool,
    /// The button went down in this frame.
    pub pressed: bool,
    /// The button went up in this frame.
    pub released: bool,
}

/// The outcome of one frame for one handle.
#[derive(Clone, Copy, Debug, PartialEq, Eq, Structural)]
pub struct DragStep {
    /// The handle's state after the frame.
    pub state: DragState,
    /// The handle's offset is to be recomputed from the pointer in this frame.
    pub follow: bool,
}

/// The state after a frame. A release ends a drag wherever the pointer is,
/// and wins over a press in the same frame; a press starts a drag only over
/// the handle; a frame without a pointer changes nothing.
pub open spec fn next_drag_state(state: DragState, pointer: Option<PointerFrame>) -> DragState {
    match pointer {
        None => state,
        Some(p) => if p.released {
            DragState::Idle
        } else if p.over_handle && p.pressed {
            DragState::Dragging
        } else {
            state
        },
    }
}

/// Whether the handle follows the pointer in a frame: there is a pointer, and
/// the handle is being dragged once the frame's press and release are
/// accounted for.
pub open spec fn follows_pointer(state: DragState, pointer: Option<PointerFrame>) -> bool {
    pointer is Some && next_drag_state(state, pointer) == DragState::Dragging
}

/// Advances a handle by one frame. `pointer` is `None` while the pointer is
/// outside the window.
pub fn drag_step(state: DragState, pointer: Option<PointerFrame>) -> (step: DragStep)
    ensures
        step.state == next_drag_state(state, pointer),
        step.follow == follows_pointer(state, pointer),
{
    match pointer {
        None => DragStep { state, follow: false },
        Some(p) => {
            let mut next = state;
            if p.over_handle && p.pressed {
                next = DragState::Dragging;
            }
            if p.released {
                next = DragState::Idle;
            }
            let follow = match next {
                DragState::Dragging => true,
                DragState::Idle => false,
            };
            DragStep { state: next, follow }
        },
    }
}

/// A release puts the handle at rest from either state, wherever the pointer
/// is and whatever else happened in the frame, and the handle does not move.
pub proof fn lemma_release_ends_drag(state: DragState, p: PointerFrame)
    requires
        p.released,
    ensures
        next_drag_state(state, Some(p)) == DragState::Idle,
        !follows_pointer(state, Some(p)),
{
}

/// A handle at rest starts to be dragged in exactly those frames in which the
/// button goes down over the handle and does not go up again.
pub proof fn lemma_drag_starts_on_press_over_handle(pointer: Option<PointerFrame>)
    ensures
        next_drag_state(DragState::Idle, pointer) == DragState::Dragging <==> (pointer matches Some(p)
            && p.over_handle && p.pressed && !p.released),
{
}

/// A drag goes on until the button is released: the pointer may leave the
/// handle's hit region, or the window, without ending it.
pub proof fn lemma_drag_lasts_until_release(pointer: Option<PointerFrame>)
    ensures
        next_drag_state(DragState::Dragging, pointer) == DragState::Idle <==> (pointer matches Some(p)
            && p.released),
{
}

} // verus!
