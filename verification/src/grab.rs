//! The pointer grab that drag-resizes a tile.

use vstd::prelude::*;

verus! {

/// The left mouse button's evdev code.
pub const BTN_LEFT: u32 = 0x110;

/// Whether the resize grab ends after a button event: it ends as soon as
/// the left button is no longer among the pressed buttons.
pub fn grab_released(pressed: &Vec<u32>) -> (released: bool)
    ensures
        released == !pressed@.contains(BTN_LEFT),
{
    let mut i: usize = 0;
    while i < pressed.len()
        invariant
            i <= pressed@.len(),
            forall|j: int| 0 <= j < i ==> pressed@[j] != BTN_LEFT,
        decreases pressed@.len() - i,
    {
        if pressed[i] == BTN_LEFT {
            return false;
        }
        i = i + 1;
    }
    true
}

} // verus!
