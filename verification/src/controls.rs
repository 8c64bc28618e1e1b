//! The decisions of the player controls that need no input device: combining
//! the pressed state of several bindings, and the direction of movement.
use vstd::prelude::*;

verus! {

/// Whether any of the bindings is pressed, given each binding's pressed state.
pub fn any_pressed(pressed: &[bool]) -> (r: bool)
    ensures
        r == exists|i: int| 0 <= i < pressed@.len() && #[trigger] pressed@[i],
{
    for i in 0..pressed.len()
        invariant
            forall|j: int| 0 <= j < i ==> !#[trigger] pressed@[j],
    {
        if pressed[i] {
            return true;
        }
    }
    false
}

/// Whether all of the bindings are pressed, given each binding's pressed state.
pub fn all_pressed(pressed: &[bool]) -> (r: bool)
    ensures
        r == forall|i: int| 0 <= i < pressed@.len() ==> #[trigger] pressed@[i],
{
    for i in 0..pressed.len()
        invariant
            forall|j: int| 0 <= j < i ==> #[trigger] pressed@[j],
    {
        if !pressed[i] {
            return false;
        }
    }
    true
}

/// The unnormalised movement direction from the four movement bindings:
/// left and right pull along x, up and down along y, and opposite keys cancel.
pub fn move_direction(left: bool, right: bool, up: bool, down: bool) -> (r: (i32, i32))
    ensures
        r.0 == (if right { 1int } else { 0 }) - (if left { 1int } else { 0 }),
        r.1 == (if up { 1int } else { 0 }) - (if down { 1int } else { 0 }),
{
    let mut x: i32 = 0;
    let mut y: i32 = 0;
    if left {
        x -= 1;
    }
    if right {
        x += 1;
    }
    if up {
        y += 1;
    }
    if down {
        y -= 1;
    }
    (x, y)
}

} // verus!
