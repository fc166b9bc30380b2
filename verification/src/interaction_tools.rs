//! What a panel learns of the user's input.

use vstd::prelude::*;

verus! {

/// A key the panels react to.
#[derive(Clone, Copy, PartialEq, Eq, Structural, Debug)]
pub enum KeyboardEnum {
    Rightarrow,
    Leftarrow,
    Uparrow,
    Downarrow,
    Enter,
    Default,
}

impl Default for KeyboardEnum {
    fn default() -> (r: Self)
        ensures
            r == KeyboardEnum::Default,
    {
        KeyboardEnum::Default
    }
}

/// The state of a key or mouse button; `Default` before any event.
#[derive(Clone, Copy, PartialEq, Eq, Structural, Debug)]
pub enum ButtonStatus {
    Up,
    Down,
    Default,
}

impl Default for ButtonStatus {
    fn default() -> (r: Self)
        ensures
            r == ButtonStatus::Default,
    {
        ButtonStatus::Default
    }
}

/// The mouse as the window last reported it: position in pixels from the
/// bottom left, button states, and the wheel's total and last movement.
pub struct MouseInfo {
    pub x: i32,
    pub y: i32,
    pub lbutton: ButtonStatus,
    pub old_lbutton: ButtonStatus,
    pub rbutton: ButtonStatus,
    pub old_rbutton: ButtonStatus,
    pub wheel: isize,
    pub wheel_delta: i32,
}

impl MouseInfo {
    pub fn new() -> (m: MouseInfo)
        ensures
            m.x == 0,
            m.y == 0,
            m.lbutton == ButtonStatus::Default,
            m.old_lbutton == ButtonStatus::Default,
            m.rbutton == ButtonStatus::Default,
            m.old_rbutton == ButtonStatus::Default,
            m.wheel == 0,
            m.wheel_delta == 0,
    {
        MouseInfo {
            x: 0,
            y: 0,
            lbutton: ButtonStatus::Default,
            old_lbutton: ButtonStatus::Default,
            rbutton: ButtonStatus::Default,
            old_rbutton: ButtonStatus::Default,
            wheel: 0,
            wheel_delta: 0,
        }
    }
}

/// Whether the point `(x, y)` lies in the rectangle `[left, bottom, width, height]`,
/// edges included.
pub fn in_rect(x: i32, y: i32, rect: [i32; 4]) -> (r: bool)
    requires
        i32::MIN <= rect[0] + rect[2] <= i32::MAX,
        i32::MIN <= rect[1] + rect[3] <= i32::MAX,
    ensures
        r == (rect[0] <= x && rect[1] <= y && x <= rect[0] + rect[2] && y <= rect[1] + rect[3]),
{
    let mut rt = true;
    if x < rect[0] {
        rt = false;
    }
    if y < rect[1] {
        rt = false;
    }
    if x > rect[0] + rect[2] {
        rt = false;
    }
    if y > rect[1] + rect[3] {
        rt = false;
    }
    rt
}

} // verus!
