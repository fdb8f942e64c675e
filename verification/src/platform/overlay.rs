//! Selection overlay shown while the user drags out a screen region.

use vstd::prelude::*;

verus! {

/// A transparent overlay that draws a selection rectangle on screen.
pub trait SelectionOverlay {
    /// Update the rectangle to the given corners, in screen coordinates.
    fn update(&mut self, x1: i32, y1: i32, x2: i32, y2: i32);

    /// Remove the overlay from the screen.
    fn destroy(&mut self);
}

/// Create a selection overlay where the platform has one; there is none here.
pub fn create_overlay() -> (o: Option<Box<dyn SelectionOverlay>>)
    ensures
        o is None,
{
    None
}

} // verus!
