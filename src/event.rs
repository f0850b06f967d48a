//! Input events and the records that persist them.
//!
//! Analog values are fixed-point: a level of `1_000_000` is full deflection,
//! so an axis reads from `-1_000_000` to `1_000_000` and a button from `0` to
//! `1_000_000`.

use vstd::prelude::*;

verus! {

/// One fixed-point unit of an analog level is a millionth of full scale.
pub const LEVEL_SCALE: i32 = 1_000_000;

/// Number of distinct buttons.
pub const BUTTON_COUNT: usize = 20;

/// Number of distinct axes.
pub const AXIS_COUNT: usize = 9;

/// A gamepad button.
#[derive(Clone, Copy, Debug, PartialEq, Eq, Structural)]
pub enum Button {
    South,
    East,
    North,
    West,
    C,
    Z,
    LeftTrigger,
    LeftTrigger2,
    RightTrigger,
    RightTrigger2,
    Select,
    Start,
    Mode,
    LeftThumb,
    RightThumb,
    DPadUp,
    DPadDown,
    DPadLeft,
    DPadRight,
    Unknown,
}

/// A gamepad axis.
#[derive(Clone, Copy, Debug, PartialEq, Eq, Structural)]
pub enum Axis {
    LeftStickX,
    LeftStickY,
    LeftZ,
    RightStickX,
    RightStickY,
    RightZ,
    DPadX,
    DPadY,
    Unknown,
}

/// What a device reported. The `u32` is the device's own code for the
/// control, carried along and never interpreted.
#[derive(Clone, Copy, Debug, PartialEq, Eq, Structural)]
pub enum Event {
    ButtonPressed(Button, u32),
    ButtonRepeated(Button, u32),
    ButtonReleased(Button, u32),
    ButtonChanged(Button, i32, u32),
    AxisChanged(Axis, i32, u32),
    Connected,
    Disconnected,
    Dropped,
}

/// One persisted event: when (milliseconds since the Unix epoch), from which
/// device, in which application.
pub struct Record {
    pub at: u128,
    pub pad: String,
    pub app: String,
    pub event: Event,
}

/// The position of a button in a table of all buttons.
pub open spec fn button_slot(b: Button) -> int {
    match b {
        Button::South => 0,
        Button::East => 1,
        Button::North => 2,
        Button::West => 3,
        Button::C => 4,
        Button::Z => 5,
        Button::LeftTrigger => 6,
        Button::LeftTrigger2 => 7,
        Button::RightTrigger => 8,
        Button::RightTrigger2 => 9,
        Button::Select => 10,
        Button::Start => 11,
        Button::Mode => 12,
        Button::LeftThumb => 13,
        Button::RightThumb => 14,
        Button::DPadUp => 15,
        Button::DPadDown => 16,
        Button::DPadLeft => 17,
        Button::DPadRight => 18,
        Button::Unknown => 19,
    }
}

/// The button at a position of the table.
pub open spec fn button_at(k: int) -> Button {
    if k == 0 {
        Button::South
    } else if k == 1 {
        Button::East
    } else if k == 2 {
        Button::North
    } else if k == 3 {
        Button::West
    } else if k == 4 {
        Button::C
    } else if k == 5 {
        Button::Z
    } else if k == 6 {
        Button::LeftTrigger
    } else if k == 7 {
        Button::LeftTrigger2
    } else if k == 8 {
        Button::RightTrigger
    } else if k == 9 {
        Button::RightTrigger2
    } else if k == 10 {
        Button::Select
    } else if k == 11 {
        Button::Start
    } else if k == 12 {
        Button::Mode
    } else if k == 13 {
        Button::LeftThumb
    } else if k == 14 {
        Button::RightThumb
    } else if k == 15 {
        Button::DPadUp
    } else if k == 16 {
        Button::DPadDown
    } else if k == 17 {
        Button::DPadLeft
    } else if k == 18 {
        Button::DPadRight
    } else {
        Button::Unknown
    }
}

/// The position of an axis in a table of all axes.
pub open spec fn axis_slot(a: Axis) -> int {
    match a {
        Axis::LeftStickX => 0,
        Axis::LeftStickY => 1,
        Axis::LeftZ => 2,
        Axis::RightStickX => 3,
        Axis::RightStickY => 4,
        Axis::RightZ => 5,
        Axis::DPadX => 6,
        Axis::DPadY => 7,
        Axis::Unknown => 8,
    }
}

/// The axis at a position of the table.
pub open spec fn axis_at(k: int) -> Axis {
    if k == 0 {
        Axis::LeftStickX
    } else if k == 1 {
        Axis::LeftStickY
    } else if k == 2 {
        Axis::LeftZ
    } else if k == 3 {
        Axis::RightStickX
    } else if k == 4 {
        Axis::RightStickY
    } else if k == 5 {
        Axis::RightZ
    } else if k == 6 {
        Axis::DPadX
    } else if k == 7 {
        Axis::DPadY
    } else {
        Axis::Unknown
    }
}

/// Distinct buttons have distinct positions, all inside the table.
pub proof fn lemma_button_slot(b: Button)
    ensures
        0 <= button_slot(b) < BUTTON_COUNT,
        button_at(button_slot(b)) == b,
{
}

/// Distinct axes have distinct positions, all inside the table.
pub proof fn lemma_axis_slot(a: Axis)
    ensures
        0 <= axis_slot(a) < AXIS_COUNT,
        axis_at(axis_slot(a)) == a,
{
}

impl Button {
    /// The position of this button in a table of all buttons.
    pub fn slot(self) -> (r: usize)
        ensures
            r == button_slot(self),
            r < BUTTON_COUNT,
    {
        match self {
            Button::South => 0,
            Button::East => 1,
            Button::North => 2,
            Button::West => 3,
            Button::C => 4,
            Button::Z => 5,
            Button::LeftTrigger => 6,
            Button::LeftTrigger2 => 7,
            Button::RightTrigger => 8,
            Button::RightTrigger2 => 9,
            Button::Select => 10,
            Button::Start => 11,
            Button::Mode => 12,
            Button::LeftThumb => 13,
            Button::RightThumb => 14,
            Button::DPadUp => 15,
            Button::DPadDown => 16,
            Button::DPadLeft => 17,
            Button::DPadRight => 18,
            Button::Unknown => 19,
        }
    }
}

impl Axis {
    /// The position of this axis in a table of all axes.
    pub fn slot(self) -> (r: usize)
        ensures
            r == axis_slot(self),
            r < AXIS_COUNT,
    {
        match self {
            Axis::LeftStickX => 0,
            Axis::LeftStickY => 1,
            Axis::LeftZ => 2,
            Axis::RightStickX => 3,
            Axis::RightStickY => 4,
            Axis::RightZ => 5,
            Axis::DPadX => 6,
            Axis::DPadY => 7,
            Axis::Unknown => 8,
        }
    }
}

} // verus!
