//! Settings of rendered text that the library shares with its renderer.

use vstd::prelude::*;

verus! {

/// Horizontal placement of each line of rendered text.
#[derive(Clone, Copy, Debug, PartialEq, Eq)]
pub enum TextAlign {
    Left,
    Center,
    Right,
}

} // verus!
