//! Controller model: pads, semantic buttons, and the translation of raw
//! evdev key and hat-axis events into button edges.

use vstd::prelude::*;

verus! {

// Linux input codes, as evdev names them (`KeyCode::BTN_*`,
// `AbsoluteAxisCode::ABS_*`).
pub const BTN_SOUTH: u16 = 0x130;
pub const BTN_EAST: u16 = 0x131;
pub const BTN_NORTH: u16 = 0x133;
pub const BTN_WEST: u16 = 0x134;
pub const BTN_SELECT: u16 = 0x13a;
pub const BTN_START: u16 = 0x13b;
pub const BTN_THUMBR: u16 = 0x13e;
pub const BTN_DPAD_UP: u16 = 0x220;
pub const BTN_DPAD_DOWN: u16 = 0x221;
pub const BTN_DPAD_LEFT: u16 = 0x222;
pub const BTN_DPAD_RIGHT: u16 = 0x223;
pub const ABS_HAT0X: u16 = 0x10;
pub const ABS_HAT0Y: u16 = 0x11;

/// A gamepad-capable evdev device.
#[derive(Debug, PartialEq)]
pub struct PadInfo {
    /// The `/dev/input/eventN` node.
    pub event_path: String,
    /// The legacy `/dev/input/jsN` node of the same device, if any.
    pub js_path: Option<String>,
    pub name: String,
}

impl Clone for PadInfo {
    fn clone(&self) -> (r: PadInfo)
        ensures
            r == *self,
    {
        let js_path = match &self.js_path {
            Some(p) => Some(p.clone()),
            None => None,
        };
        PadInfo { event_path: self.event_path.clone(), js_path, name: self.name.clone() }
    }
}

/// Semantic controller inputs, unified across DualShock 4, Xbox and Switch
/// Pro pads (which all report these via the same evdev codes).
#[derive(Debug, Clone, Copy, PartialEq, Eq, Structural)]
pub enum PadButton {
    /// Options (DS4) / Menu (Xbox) / + (Switch) — `BTN_START`.
    Start,
    /// Share (DS4) / View (Xbox) / − (Switch) — `BTN_SELECT`.
    Select,
    /// South face button — accept.
    Accept,
    /// East face button — back / cancel.
    Back,
    /// North face button — shift.
    Shift,
    /// West face button — erase.
    Erase,
    Up,
    Down,
    Left,
    Right,
    /// Any other gamepad button (still counts as activity for claiming).
    Other,
}

#[derive(Debug)]
pub enum PadEvent {
    Added(PadInfo),
    /// The pad at this event node went away.
    Removed(String),
    /// A button on the pad changed state (edge-triggered).
    Button { path: String, button: PadButton, pressed: bool },
}

/// Whether a key code lies in the standard gamepad button range
/// `BTN_SOUTH..=BTN_THUMBR`.
pub open spec fn gamepad_button(code: u16) -> bool {
    BTN_SOUTH <= code && code <= BTN_THUMBR
}

pub fn is_gamepad_button(code: u16) -> (r: bool)
    ensures
        r == gamepad_button(code),
{
    BTN_SOUTH <= code && code <= BTN_THUMBR
}

/// The semantic button of a key code.
pub open spec fn button_of(code: u16) -> PadButton {
    if code == BTN_START {
        PadButton::Start
    } else if code == BTN_SELECT {
        PadButton::Select
    } else if code == BTN_SOUTH {
        PadButton::Accept
    } else if code == BTN_EAST {
        PadButton::Back
    } else if code == BTN_NORTH {
        PadButton::Shift
    } else if code == BTN_WEST {
        PadButton::Erase
    } else if code == BTN_DPAD_UP {
        PadButton::Up
    } else if code == BTN_DPAD_DOWN {
        PadButton::Down
    } else if code == BTN_DPAD_LEFT {
        PadButton::Left
    } else if code == BTN_DPAD_RIGHT {
        PadButton::Right
    } else {
        PadButton::Other
    }
}

/// Maps a key code to its semantic button (d-pad buttons as some drivers,
/// e.g. Switch Pro, report them).
pub fn map_button(code: u16) -> (b: PadButton)
    ensures
        b == button_of(code),
{
    if code == BTN_START {
        PadButton::Start
    } else if code == BTN_SELECT {
        PadButton::Select
    } else if code == BTN_SOUTH {
        PadButton::Accept
    } else if code == BTN_EAST {
        PadButton::Back
    } else if code == BTN_NORTH {
        PadButton::Shift
    } else if code == BTN_WEST {
        PadButton::Erase
    } else if code == BTN_DPAD_UP {
        PadButton::Up
    } else if code == BTN_DPAD_DOWN {
        PadButton::Down
    } else if code == BTN_DPAD_LEFT {
        PadButton::Left
    } else if code == BTN_DPAD_RIGHT {
        PadButton::Right
    } else {
        PadButton::Other
    }
}

/// The sign of a hat-axis value: -1, 0 or 1.
pub open spec fn signum(v: i32) -> i32 {
    if v < 0 {
        -1i32
    } else if v > 0 {
        1i32
    } else {
        0i32
    }
}

/// The release edge of the direction held in `state`, if one is held.
pub open spec fn release_edge(state: i32, neg: PadButton, pos: PadButton) -> Seq<(PadButton, bool)> {
    if state < 0 {
        seq![(neg, false)]
    } else if state > 0 {
        seq![(pos, false)]
    } else {
        seq![]
    }
}

/// The press edge of the direction of `value`, if it points somewhere.
pub open spec fn press_edge(value: i32, neg: PadButton, pos: PadButton) -> Seq<(PadButton, bool)> {
    if value < 0 {
        seq![(neg, true)]
    } else if value > 0 {
        seq![(pos, true)]
    } else {
        seq![]
    }
}

/// The edges for one hat axis moving from `state` to the direction of
/// `value`: none if the direction is unchanged, else the release of the old
/// direction followed by the press of the new one.
pub open spec fn hat_axis_edges(state: i32, value: i32, neg: PadButton, pos: PadButton) -> Seq<
    (PadButton, bool),
> {
    if signum(value) == state {
        seq![]
    } else {
        release_edge(state, neg, pos) + press_edge(signum(value), neg, pos)
    }
}

/// A hat axis reports a direction change as the release of the direction
/// it held (if any) followed by the press of the new one (if any): a
/// negative value presses the negative direction (up, left) and a positive
/// one the positive direction (down, right), and a held direction is
/// released under its own name. From the centre a push gives exactly its
/// press; back to the centre gives exactly the release; no change gives
/// nothing.
pub proof fn law_hat_directions(state: i32, value: i32, neg: PadButton, pos: PadButton)
    requires
        -1 <= state <= 1,
    ensures
        ({
            let e = hat_axis_edges(state, value, neg, pos);
            &&& (state == 0 && value < 0) ==> e == seq![(neg, true)]
            &&& (state == 0 && value > 0) ==> e == seq![(pos, true)]
            &&& (state < 0 && value == 0) ==> e == seq![(neg, false)]
            &&& (state > 0 && value == 0) ==> e == seq![(pos, false)]
            &&& (state < 0 && value > 0) ==> e == seq![(neg, false), (pos, true)]
            &&& (state > 0 && value < 0) ==> e == seq![(pos, false), (neg, true)]
            &&& ((state < 0 && value < 0) || (state > 0 && value > 0) || (state == 0 && value == 0))
                ==> e.len() == 0
        }),
{
    assert(seq![(neg, false)] + seq![(pos, true)] =~= seq![(neg, false), (pos, true)]);
    assert(seq![(pos, false)] + seq![(neg, true)] =~= seq![(pos, false), (neg, true)]);
    assert(Seq::<(PadButton, bool)>::empty() + seq![(neg, true)] =~= seq![(neg, true)]);
    assert(Seq::<(PadButton, bool)>::empty() + seq![(pos, true)] =~= seq![(pos, true)]);
    assert(seq![(neg, false)] + Seq::<(PadButton, bool)>::empty() =~= seq![(neg, false)]);
    assert(seq![(pos, false)] + Seq::<(PadButton, bool)>::empty() =~= seq![(pos, false)]);
}

/// Translate a hat-axis absolute value into press/release edges for the
/// directional buttons, updating the remembered per-axis state (the last
/// reported direction, -1, 0 or 1). Axes other than `ABS_HAT0X` (left/right)
/// and `ABS_HAT0Y` (up/down) give no edges.
pub fn hat_edges(axis: u16, value: i32, hat_x: &mut i32, hat_y: &mut i32) -> (edges: Vec<
    (PadButton, bool),
>)
    ensures
        axis == ABS_HAT0X ==> {
            &&& edges@ == hat_axis_edges(*old(hat_x), value, PadButton::Left, PadButton::Right)
            &&& *final(hat_x) == signum(value)
            &&& *final(hat_y) == *old(hat_y)
        },
        axis == ABS_HAT0Y ==> {
            &&& edges@ == hat_axis_edges(*old(hat_y), value, PadButton::Up, PadButton::Down)
            &&& *final(hat_y) == signum(value)
            &&& *final(hat_x) == *old(hat_x)
        },
        axis != ABS_HAT0X && axis != ABS_HAT0Y ==> {
            &&& edges@ == Seq::<(PadButton, bool)>::empty()
            &&& *final(hat_x) == *old(hat_x)
            &&& *final(hat_y) == *old(hat_y)
        },
{
    if axis == ABS_HAT0X {
        axis_edges(hat_x, value, PadButton::Left, PadButton::Right)
    } else if axis == ABS_HAT0Y {
        axis_edges(hat_y, value, PadButton::Up, PadButton::Down)
    } else {
        Vec::new()
    }
}

fn axis_edges(state: &mut i32, value: i32, neg: PadButton, pos: PadButton) -> (edges: Vec<
    (PadButton, bool),
>)
    ensures
        edges@ == hat_axis_edges(*old(state), value, neg, pos),
        *final(state) == signum(value),
{
    let ghost raw = value;
    let value = if value < 0 {
        -1i32
    } else if value > 0 {
        1i32
    } else {
        0i32
    };
    if value == *state {
        return Vec::new();
    }
    let mut edges = Vec::new();
    // Release the previously held direction on this axis.
    if *state < 0 {
        edges.push((neg, false));
    } else if *state > 0 {
        edges.push((pos, false));
    }
    // Press the new direction.
    if value < 0 {
        edges.push((neg, true));
    } else if value > 0 {
        edges.push((pos, true));
    }
    *state = value;
    assert(edges@ =~= hat_axis_edges(*old(state), raw, neg, pos));
    edges
}

} // verus!
