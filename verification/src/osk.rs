//! Controller-driven on-screen keyboard.
//!
//! Triggered by holding Start+Select for [`HOLD`], it lets a player type with
//! the d-pad and face buttons. Text is buffered while the player edits, then
//! replayed into the player's game window once they pick **Done**.

use vstd::prelude::*;

use crate::input::PadButton;

verus! {

/// How long Start+Select must be held to summon the keyboard, in milliseconds.
pub const HOLD: u64 = 2000;

/// What a [`ComboTracker`] remembers, as plain values.
pub struct ComboView {
    pub start_down: bool,
    pub select_down: bool,
    /// When both buttons became held (milliseconds), while they are.
    pub since: Option<u64>,
    /// Whether this hold has already been reported.
    pub fired: bool,
}

/// The tracker's invariant: a hold is timed exactly while both buttons are
/// down, and only a timed hold can have been reported.
pub open spec fn combo_wf(s: ComboView) -> bool {
    &&& (s.since is Some <==> (s.start_down && s.select_down))
    &&& (s.fired ==> s.since is Some)
}

/// A tracker with nothing held.
pub open spec fn combo_idle() -> ComboView {
    ComboView { start_down: false, select_down: false, since: None, fired: false }
}

/// Starts or stops timing the hold after a button changed.
pub open spec fn combo_settle(s: ComboView, now: u64) -> ComboView {
    if s.start_down && s.select_down {
        ComboView {
            since: Some(
                match s.since {
                    Some(t) => t,
                    None => now,
                },
            ),
            ..s
        }
    } else {
        ComboView { since: None, fired: false, ..s }
    }
}

/// The tracker after a button edge: only Start and Select matter.
pub open spec fn combo_set(s: ComboView, button: PadButton, pressed: bool, now: u64) -> ComboView {
    match button {
        PadButton::Start => combo_settle(ComboView { start_down: pressed, ..s }, now),
        PadButton::Select => combo_settle(ComboView { select_down: pressed, ..s }, now),
        _ => s,
    }
}

/// Whether polling at `now` reports the hold: it has been held for at least
/// [`HOLD`] and has not been reported yet.
pub open spec fn combo_fires(s: ComboView, now: u64) -> bool {
    !s.fired && match s.since {
        Some(t) => now >= t + HOLD,
        None => false,
    }
}

/// The tracker after polling at `now`.
pub open spec fn combo_poll(s: ComboView, now: u64) -> ComboView {
    if combo_fires(s, now) {
        ComboView { fired: true, ..s }
    } else {
        s
    }
}

/// Tracks the Start+Select hold on a single pad. Fed button edges; reports
/// once when the combo has been held long enough. Times are milliseconds on
/// a monotonic clock.
#[derive(Debug)]
pub struct ComboTracker {
    start_down: bool,
    select_down: bool,
    since: Option<u64>,
    fired: bool,
}

impl View for ComboTracker {
    type V = ComboView;

    closed spec fn view(&self) -> ComboView {
        ComboView {
            start_down: self.start_down,
            select_down: self.select_down,
            since: self.since,
            fired: self.fired,
        }
    }
}

impl ComboTracker {
    #[verifier::type_invariant]
    closed spec fn inv(self) -> bool {
        combo_wf(self@)
    }

    /// A tracker with no button held.
    pub fn new() -> (t: ComboTracker)
        ensures
            t@ == combo_idle(),
    {
        ComboTracker { start_down: false, select_down: false, since: None, fired: false }
    }

    /// Feeds a button edge observed at `now`.
    pub fn set(&mut self, button: PadButton, pressed: bool, now: u64)
        ensures
            final(self)@ == combo_set(old(self)@, button, pressed, now),
    {
        proof {
            use_type_invariant(&*self);
        }
        let (start_down, select_down) = match button {
            PadButton::Start => (pressed, self.select_down),
            PadButton::Select => (self.start_down, pressed),
            _ => return ,
        };
        if start_down && select_down {
            let since = match self.since {
                Some(t) => t,
                None => now,
            };
            *self = ComboTracker { start_down, select_down, since: Some(since), fired: self.fired };
        } else {
            *self = ComboTracker { start_down, select_down, since: None, fired: false };
        }
    }

    /// Returns true exactly once per hold, after [`HOLD`] has elapsed.
    pub fn fired(&mut self, now: u64) -> (r: bool)
        ensures
            r == combo_fires(old(self)@, now),
            final(self)@ == combo_poll(old(self)@, now),
    {
        proof {
            use_type_invariant(&*self);
        }
        if self.fired {
            return false;
        }
        if let Some(since) = self.since {
            if now >= since && now - since >= HOLD {
                *self = ComboTracker { fired: true, ..*self };
                return true;
            }
        }
        false
    }
}

impl Default for ComboTracker {
    fn default() -> (t: ComboTracker)
        ensures
            t@ == combo_idle(),
    {
        ComboTracker::new()
    }
}

} // verus!

verus! {

// Linux input key codes, as evdev names them (`KeyCode::KEY_*`).
pub const KEY_1: u16 = 2;
pub const KEY_2: u16 = 3;
pub const KEY_3: u16 = 4;
pub const KEY_4: u16 = 5;
pub const KEY_5: u16 = 6;
pub const KEY_6: u16 = 7;
pub const KEY_7: u16 = 8;
pub const KEY_8: u16 = 9;
pub const KEY_9: u16 = 10;
pub const KEY_0: u16 = 11;
pub const KEY_MINUS: u16 = 12;
pub const KEY_EQUAL: u16 = 13;
pub const KEY_BACKSPACE: u16 = 14;
pub const KEY_Q: u16 = 16;
pub const KEY_W: u16 = 17;
pub const KEY_E: u16 = 18;
pub const KEY_R: u16 = 19;
pub const KEY_T: u16 = 20;
pub const KEY_Y: u16 = 21;
pub const KEY_U: u16 = 22;
pub const KEY_I: u16 = 23;
pub const KEY_O: u16 = 24;
pub const KEY_P: u16 = 25;
pub const KEY_ENTER: u16 = 28;
pub const KEY_A: u16 = 30;
pub const KEY_S: u16 = 31;
pub const KEY_D: u16 = 32;
pub const KEY_F: u16 = 33;
pub const KEY_G: u16 = 34;
pub const KEY_H: u16 = 35;
pub const KEY_J: u16 = 36;
pub const KEY_K: u16 = 37;
pub const KEY_L: u16 = 38;
pub const KEY_SEMICOLON: u16 = 39;
pub const KEY_APOSTROPHE: u16 = 40;
pub const KEY_LEFTSHIFT: u16 = 42;
pub const KEY_Z: u16 = 44;
pub const KEY_X: u16 = 45;
pub const KEY_C: u16 = 46;
pub const KEY_V: u16 = 47;
pub const KEY_B: u16 = 48;
pub const KEY_N: u16 = 49;
pub const KEY_M: u16 = 50;
pub const KEY_COMMA: u16 = 51;
pub const KEY_DOT: u16 = 52;
pub const KEY_SLASH: u16 = 53;
pub const KEY_SPACE: u16 = 57;

/// A single keystroke to replay: a key code and whether shift is held.
#[derive(Debug, Clone, Copy, PartialEq, Eq, Structural)]
pub struct Stroke {
    pub code: u16,
    pub shift: bool,
}

/// ASCII lower-casing of one character; other characters are unchanged.
pub open spec fn ascii_lower(c: char) -> char {
    if 'A' <= c && c <= 'Z' {
        ((c as u32) + 32) as char
    } else {
        c
    }
}

/// The key of a digit; anything but 1..=9 is the `0` key.
pub open spec fn digit_key(n: u8) -> u16 {
    match n {
        1 => KEY_1,
        2 => KEY_2,
        3 => KEY_3,
        4 => KEY_4,
        5 => KEY_5,
        6 => KEY_6,
        7 => KEY_7,
        8 => KEY_8,
        9 => KEY_9,
        _ => KEY_0,
    }
}

/// The key of a letter, either case; anything else maps to the `z` key.
pub open spec fn letter_key(c: char) -> u16 {
    match ascii_lower(c) {
        'a' => KEY_A,
        'b' => KEY_B,
        'c' => KEY_C,
        'd' => KEY_D,
        'e' => KEY_E,
        'f' => KEY_F,
        'g' => KEY_G,
        'h' => KEY_H,
        'i' => KEY_I,
        'j' => KEY_J,
        'k' => KEY_K,
        'l' => KEY_L,
        'm' => KEY_M,
        'n' => KEY_N,
        'o' => KEY_O,
        'p' => KEY_P,
        'q' => KEY_Q,
        'r' => KEY_R,
        's' => KEY_S,
        't' => KEY_T,
        'u' => KEY_U,
        'v' => KEY_V,
        'w' => KEY_W,
        'x' => KEY_X,
        'y' => KEY_Y,
        _ => KEY_Z,
    }
}

/// The keystroke that types `c` on a US keyboard layout, for every character
/// the on-screen keyboard can produce.
pub open spec fn keystroke(c: char) -> Stroke {
    if 'a' <= c && c <= 'z' {
        Stroke { code: letter_key(c), shift: false }
    } else if 'A' <= c && c <= 'Z' {
        Stroke { code: letter_key(c), shift: true }
    } else {
        match c {
            '1' => Stroke { code: KEY_1, shift: false },
            '2' => Stroke { code: KEY_2, shift: false },
            '3' => Stroke { code: KEY_3, shift: false },
            '4' => Stroke { code: KEY_4, shift: false },
            '5' => Stroke { code: KEY_5, shift: false },
            '6' => Stroke { code: KEY_6, shift: false },
            '7' => Stroke { code: KEY_7, shift: false },
            '8' => Stroke { code: KEY_8, shift: false },
            '9' => Stroke { code: KEY_9, shift: false },
            '0' => Stroke { code: KEY_0, shift: false },
            '!' => Stroke { code: KEY_1, shift: true },
            '@' => Stroke { code: KEY_2, shift: true },
            '#' => Stroke { code: KEY_3, shift: true },
            '$' => Stroke { code: KEY_4, shift: true },
            '%' => Stroke { code: KEY_5, shift: true },
            '^' => Stroke { code: KEY_6, shift: true },
            '&' => Stroke { code: KEY_7, shift: true },
            '*' => Stroke { code: KEY_8, shift: true },
            '(' => Stroke { code: KEY_9, shift: true },
            ')' => Stroke { code: KEY_0, shift: true },
            '.' => Stroke { code: KEY_DOT, shift: false },
            ':' => Stroke { code: KEY_SEMICOLON, shift: true },
            '-' => Stroke { code: KEY_MINUS, shift: false },
            '_' => Stroke { code: KEY_MINUS, shift: true },
            '/' => Stroke { code: KEY_SLASH, shift: false },
            ' ' => Stroke { code: KEY_SPACE, shift: false },
            '\n' => Stroke { code: KEY_ENTER, shift: false },
            _ => Stroke { code: 0, shift: false },
        }
    }
}

/// The key code of a digit 0..=9 (anything else gives the `0` key).
pub fn digit_code(n: u8) -> (k: u16)
    ensures
        k == digit_key(n),
{
    match n {
        1 => KEY_1,
        2 => KEY_2,
        3 => KEY_3,
        4 => KEY_4,
        5 => KEY_5,
        6 => KEY_6,
        7 => KEY_7,
        8 => KEY_8,
        9 => KEY_9,
        _ => KEY_0,
    }
}

/// The key code of an ASCII letter of either case (anything else gives `z`).
pub fn letter_code(c: char) -> (k: u16)
    ensures
        k == letter_key(c),
{
    let lower = if 'A' <= c && c <= 'Z' {
        ((c as u32) + 32) as u8 as char
    } else {
        c
    };
    assert(lower == ascii_lower(c)) by {
        if 'A' <= c && c <= 'Z' {
            assert((((c as u32) + 32) as u8 as char) == (((c as u32) + 32) as char));
        }
    }
    match lower {
        'a' => KEY_A,
        'b' => KEY_B,
        'c' => KEY_C,
        'd' => KEY_D,
        'e' => KEY_E,
        'f' => KEY_F,
        'g' => KEY_G,
        'h' => KEY_H,
        'i' => KEY_I,
        'j' => KEY_J,
        'k' => KEY_K,
        'l' => KEY_L,
        'm' => KEY_M,
        'n' => KEY_N,
        'o' => KEY_O,
        'p' => KEY_P,
        'q' => KEY_Q,
        'r' => KEY_R,
        's' => KEY_S,
        't' => KEY_T,
        'u' => KEY_U,
        'v' => KEY_V,
        'w' => KEY_W,
        'x' => KEY_X,
        'y' => KEY_Y,
        _ => KEY_Z,
    }
}

} // verus!

verus! {

/// A cell in the keyboard grid.
#[derive(Debug, Clone, Copy)]
pub enum Cell {
    /// A character with distinct un-shifted and shifted forms: each form is
    /// (character, key code, shift held).
    Char { lower: (char, u16, bool), upper: (char, u16, bool) },
    Space,
    Backspace,
    Enter,
    ShiftKey,
    Done,
    Cancel,
}

/// A cell whose shifted form is the same key with shift held.
pub open spec fn simple_cell(lower: char, code: u16, upper: char) -> Cell {
    Cell::Char { lower: (lower, code, false), upper: (upper, code, true) }
}

/// A cell whose shifted form is typed with a different key.
pub open spec fn two_key_cell(lower: char, lo: u16, upper: char, up: u16, up_shift: bool) -> Cell {
    Cell::Char { lower: (lower, lo, false), upper: (upper, up, up_shift) }
}

/// The keyboard grid: digits, three letter rows with punctuation, and a
/// bottom row with space, cancel and done.
pub open spec fn layout() -> Seq<Seq<Cell>> {
    seq![
        seq![
            simple_cell('1', KEY_1, '!'),
            simple_cell('2', KEY_2, '@'),
            simple_cell('3', KEY_3, '#'),
            simple_cell('4', KEY_4, '$'),
            simple_cell('5', KEY_5, '%'),
            simple_cell('6', KEY_6, '^'),
            simple_cell('7', KEY_7, '&'),
            simple_cell('8', KEY_8, '*'),
            simple_cell('9', KEY_9, '('),
            simple_cell('0', KEY_0, ')'),
            Cell::Backspace,
        ],
        seq![
            simple_cell('q', KEY_Q, 'Q'),
            simple_cell('w', KEY_W, 'W'),
            simple_cell('e', KEY_E, 'E'),
            simple_cell('r', KEY_R, 'R'),
            simple_cell('t', KEY_T, 'T'),
            simple_cell('y', KEY_Y, 'Y'),
            simple_cell('u', KEY_U, 'U'),
            simple_cell('i', KEY_I, 'I'),
            simple_cell('o', KEY_O, 'O'),
            simple_cell('p', KEY_P, 'P'),
            Cell::ShiftKey,
        ],
        seq![
            simple_cell('a', KEY_A, 'A'),
            simple_cell('s', KEY_S, 'S'),
            simple_cell('d', KEY_D, 'D'),
            simple_cell('f', KEY_F, 'F'),
            simple_cell('g', KEY_G, 'G'),
            simple_cell('h', KEY_H, 'H'),
            simple_cell('j', KEY_J, 'J'),
            simple_cell('k', KEY_K, 'K'),
            simple_cell('l', KEY_L, 'L'),
            Cell::Enter,
        ],
        seq![
            simple_cell('z', KEY_Z, 'Z'),
            simple_cell('x', KEY_X, 'X'),
            simple_cell('c', KEY_C, 'C'),
            simple_cell('v', KEY_V, 'V'),
            simple_cell('b', KEY_B, 'B'),
            simple_cell('n', KEY_N, 'N'),
            simple_cell('m', KEY_M, 'M'),
            two_key_cell('.', KEY_DOT, ':', KEY_SEMICOLON, true),
            two_key_cell('-', KEY_MINUS, '_', KEY_MINUS, true),
            two_key_cell('/', KEY_SLASH, '@', KEY_2, true),
        ],
        seq![Cell::Space, Cell::Cancel, Cell::Done],
    ]
}

/// Number of rows in the grid.
pub open spec fn num_rows() -> int {
    layout().len() as int
}

/// Number of cells in row `r`.
pub open spec fn row_len(r: int) -> int {
    layout()[r].len() as int
}

/// The character and keystroke a cell types, if it types one.
pub open spec fn cell_typed(cell: Cell, shifted: bool) -> Option<(char, Stroke)> {
    match cell {
        Cell::Char { lower, upper } => {
            let (ch, code, shift) = if shifted {
                upper
            } else {
                lower
            };
            Some((ch, Stroke { code, shift }))
        },
        Cell::Space => Some((' ', Stroke { code: KEY_SPACE, shift: false })),
        Cell::Enter => Some(('\n', Stroke { code: KEY_ENTER, shift: false })),
        _ => None,
    }
}

/// Every character a cell types is typed by that character's US keystroke.
pub open spec fn cell_consistent(cell: Cell) -> bool {
    &&& (cell_typed(cell, false) matches Some(t) ==> keystroke(t.0) == t.1)
    &&& (cell_typed(cell, true) matches Some(t) ==> keystroke(t.0) == t.1)
}

/// The grid's keystrokes agree with [`keystroke`] in every cell.
pub proof fn lemma_layout_consistent()
    ensures
        forall|r: int, c: int|
            0 <= r < num_rows() && 0 <= c < row_len(r) ==> cell_consistent(#[trigger] layout()[r][c]),
{
    assert forall|r: int, c: int|
        0 <= r < num_rows() && 0 <= c < row_len(r) implies cell_consistent(#[trigger] layout()[r][c]) by {
        if r == 0 {
            if c == 0 {
                assert(cell_consistent(layout()[0][0]));
            } else if c == 1 {
                assert(cell_consistent(layout()[0][1]));
            } else if c == 2 {
                assert(cell_consistent(layout()[0][2]));
            } else if c == 3 {
                assert(cell_consistent(layout()[0][3]));
            } else if c == 4 {
                assert(cell_consistent(layout()[0][4]));
            } else if c == 5 {
                assert(cell_consistent(layout()[0][5]));
            } else if c == 6 {
                assert(cell_consistent(layout()[0][6]));
            } else if c == 7 {
                assert(cell_consistent(layout()[0][7]));
            } else if c == 8 {
                assert(cell_consistent(layout()[0][8]));
            } else if c == 9 {
                assert(cell_consistent(layout()[0][9]));
            } else {
                assert(cell_consistent(layout()[0][10]));
            }
        } else if r == 1 {
            if c == 0 {
                assert(cell_consistent(layout()[1][0]));
            } else if c == 1 {
                assert(cell_consistent(layout()[1][1]));
            } else if c == 2 {
                assert(cell_consistent(layout()[1][2]));
            } else if c == 3 {
                assert(cell_consistent(layout()[1][3]));
            } else if c == 4 {
                assert(cell_consistent(layout()[1][4]));
            } else if c == 5 {
                assert(cell_consistent(layout()[1][5]));
            } else if c == 6 {
                assert(cell_consistent(layout()[1][6]));
            } else if c == 7 {
                assert(cell_consistent(layout()[1][7]));
            } else if c == 8 {
                assert(cell_consistent(layout()[1][8]));
            } else if c == 9 {
                assert(cell_consistent(layout()[1][9]));
            } else {
                assert(cell_consistent(layout()[1][10]));
            }
        } else if r == 2 {
            if c == 0 {
                assert(cell_consistent(layout()[2][0]));
            } else if c == 1 {
                assert(cell_consistent(layout()[2][1]));
            } else if c == 2 {
                assert(cell_consistent(layout()[2][2]));
            } else if c == 3 {
                assert(cell_consistent(layout()[2][3]));
            } else if c == 4 {
                assert(cell_consistent(layout()[2][4]));
            } else if c == 5 {
                assert(cell_consistent(layout()[2][5]));
            } else if c == 6 {
                assert(cell_consistent(layout()[2][6]));
            } else if c == 7 {
                assert(cell_consistent(layout()[2][7]));
            } else if c == 8 {
                assert(cell_consistent(layout()[2][8]));
            } else {
                assert(cell_consistent(layout()[2][9]));
            }
        } else if r == 3 {
            if c == 0 {
                assert(cell_consistent(layout()[3][0]));
            } else if c == 1 {
                assert(cell_consistent(layout()[3][1]));
            } else if c == 2 {
                assert(cell_consistent(layout()[3][2]));
            } else if c == 3 {
                assert(cell_consistent(layout()[3][3]));
            } else if c == 4 {
                assert(cell_consistent(layout()[3][4]));
            } else if c == 5 {
                assert(cell_consistent(layout()[3][5]));
            } else if c == 6 {
                assert(cell_consistent(layout()[3][6]));
            } else if c == 7 {
                assert(cell_consistent(layout()[3][7]));
            } else if c == 8 {
                assert(cell_consistent(layout()[3][8]));
            } else {
                assert(cell_consistent(layout()[3][9]));
            }
        } else {
            if c == 0 {
                assert(cell_consistent(layout()[4][0]));
            } else if c == 1 {
                assert(cell_consistent(layout()[4][1]));
            } else {
                assert(cell_consistent(layout()[4][2]));
            }
        }
    }
}

} // verus!

verus! {

/// Result of activating the currently-selected cell.
#[derive(Debug, Clone, Copy, PartialEq, Eq, Structural)]
pub enum Activation {
    /// Keep the keyboard open.
    Continue,
    /// Commit the buffer: focus the target window and inject.
    Commit,
    /// Close without injecting.
    Cancel,
}

/// The editing state of an on-screen keyboard, as plain values.
pub struct OskView {
    /// The player typing, and the window the text is meant for.
    pub player: usize,
    pub target_window: Option<String>,
    /// Selected (row, column) of the grid.
    pub cursor: (usize, usize),
    pub shifted: bool,
    /// Text typed so far.
    pub display: Seq<char>,
    /// Keystrokes that replay the text.
    pub strokes: Seq<Stroke>,
}

/// The cursor names a cell of the grid.
pub open spec fn cursor_valid(cur: (usize, usize)) -> bool {
    &&& cur.0 < num_rows()
    &&& cur.1 < row_len(cur.0 as int)
}

/// The editing state's invariant: the cursor is on the grid, and the
/// buffered keystrokes are exactly the keystrokes of the displayed text.
pub open spec fn osk_inv(v: OskView) -> bool {
    &&& cursor_valid(v.cursor)
    &&& v.strokes == v.display.map_values(|c: char| keystroke(c))
}

/// A freshly opened keyboard: cursor top-left, unshifted, nothing typed.
pub open spec fn osk_initial(player: usize, target_window: Option<String>) -> OskView {
    OskView {
        player,
        target_window,
        cursor: (0, 0),
        shifted: false,
        display: Seq::empty(),
        strokes: Seq::empty(),
    }
}

/// Where the cursor goes for a button: the d-pad moves one cell and wraps
/// around the grid's edges; after a row change the column is clamped to the
/// new row's last cell. Other buttons leave it (clamped) in place.
pub open spec fn move_spec(cur: (usize, usize), button: PadButton) -> (usize, usize) {
    let r = cur.0 as int;
    let c = cur.1 as int;
    let (r2, c2) = match button {
        PadButton::Up => (
            if r == 0 {
                num_rows() - 1
            } else {
                r - 1
            },
            c,
        ),
        PadButton::Down => ((r + 1) % num_rows(), c),
        PadButton::Left => (
            r,
            if c == 0 {
                row_len(r) - 1
            } else {
                c - 1
            },
        ),
        PadButton::Right => (r, (c + 1) % row_len(r)),
        _ => (r, c),
    };
    let c3 = if c2 < row_len(r2) - 1 {
        c2
    } else {
        row_len(r2) - 1
    };
    (r2 as usize, c3 as usize)
}

/// Appends a character and its keystroke.
pub open spec fn osk_type(v: OskView, ch: char, s: Stroke) -> OskView {
    OskView { display: v.display.push(ch), strokes: v.strokes.push(s), ..v }
}

/// Removes the last character and the last keystroke, if any.
pub open spec fn osk_backspace(v: OskView) -> OskView {
    OskView {
        display: if v.display.len() > 0 {
            v.display.drop_last()
        } else {
            v.display
        },
        strokes: if v.strokes.len() > 0 {
            v.strokes.drop_last()
        } else {
            v.strokes
        },
        ..v
    }
}

/// Flips the shift state.
pub open spec fn osk_toggle_shift(v: OskView) -> OskView {
    OskView { shifted: !v.shifted, ..v }
}

/// Activating the selected cell: characters, space and enter are typed in
/// the current shift state; backspace erases; shift toggles; Done commits and
/// the cancel key cancels, both leaving the buffer as it is.
pub open spec fn osk_activate(v: OskView) -> (OskView, Activation) {
    let cell = layout()[v.cursor.0 as int][v.cursor.1 as int];
    match cell {
        Cell::Backspace => (osk_backspace(v), Activation::Continue),
        Cell::ShiftKey => (osk_toggle_shift(v), Activation::Continue),
        Cell::Done => (v, Activation::Commit),
        Cell::Cancel => (v, Activation::Cancel),
        _ => match cell_typed(cell, v.shifted) {
            Some(t) => (osk_type(v, t.0, t.1), Activation::Continue),
            None => (v, Activation::Continue),
        },
    }
}

/// One controller button on the keyboard: the d-pad moves, Accept activates
/// the selected cell, Erase and Shift are shortcuts, Back cancels; anything
/// else is ignored.
pub open spec fn osk_step(v: OskView, button: PadButton) -> (OskView, Activation) {
    match button {
        PadButton::Up | PadButton::Down | PadButton::Left | PadButton::Right => (
            OskView { cursor: move_spec(v.cursor, button), ..v },
            Activation::Continue,
        ),
        PadButton::Accept => osk_activate(v),
        PadButton::Erase => (osk_backspace(v), Activation::Continue),
        PadButton::Shift => (osk_toggle_shift(v), Activation::Continue),
        PadButton::Back => (v, Activation::Cancel),
        _ => (v, Activation::Continue),
    }
}

/// What the rendered grid shows for a cell.
pub open spec fn cell_label(cell: Cell, shifted: bool) -> Seq<char> {
    match cell {
        Cell::Char { lower, upper } => seq![
            if shifted {
                upper.0
            } else {
                lower.0
            },
        ],
        Cell::Space => "␣"@,
        Cell::Backspace => "⌫"@,
        Cell::Enter => "⏎"@,
        Cell::ShiftKey => "⇧"@,
        Cell::Done => "Done"@,
        Cell::Cancel => "✕"@,
    }
}

pub struct Osk {
    /// Which player (index) and game-window address to type into.
    pub player: usize,
    pub target_window: Option<String>,
    rows: Vec<Vec<Cell>>,
    cursor: (usize, usize),
    shifted: bool,
    display: String,
    strokes: Vec<Stroke>,
}

/// The stored rows are the grid of [`layout`].
pub open spec fn rows_are_layout(rows: Seq<Vec<Cell>>) -> bool {
    &&& rows.len() == num_rows()
    &&& forall|r: int| 0 <= r < num_rows() ==> (#[trigger] rows[r])@ == layout()[r]
}

impl View for Osk {
    type V = OskView;

    closed spec fn view(&self) -> OskView {
        OskView {
            player: self.player,
            target_window: self.target_window,
            cursor: self.cursor,
            shifted: self.shifted,
            display: self.display@,
            strokes: self.strokes@,
        }
    }
}

impl Osk {
    /// The keyboard's invariant (see [`osk_inv`]), with its grid in place.
    pub closed spec fn wf(&self) -> bool {
        &&& rows_are_layout(self.rows@)
        &&& osk_inv(self@)
    }

    /// A well-formed keyboard satisfies [`osk_inv`].
    pub proof fn lemma_wf(&self)
        requires
            self.wf(),
        ensures
            osk_inv(self@),
    {
    }

    pub fn new(player: usize, target_window: Option<String>) -> (o: Osk)
        ensures
            o.wf(),
            o@ == osk_initial(player, target_window),
    {
        let o = Osk {
            player,
            target_window,
            rows: default_layout(),
            cursor: (0, 0),
            shifted: false,
            display: String::new(),
            strokes: Vec::new(),
        };
        assert(o@.strokes =~= o@.display.map_values(|c: char| keystroke(c)));
        o
    }

    /// The player, the target window and the keystrokes, consuming the
    /// keyboard.
    pub fn into_commit(self) -> (r: (usize, Option<String>, Vec<Stroke>))
        ensures
            r.0 == self@.player,
            r.1 == self@.target_window,
            r.2@ == self@.strokes,
    {
        (self.player, self.target_window, self.strokes)
    }

    /// Whether nothing has been typed.
    pub fn is_empty(&self) -> (r: bool)
        ensures
            r == (self@.strokes.len() == 0),
    {
        self.strokes.len() == 0
    }

    pub fn shifted(&self) -> (r: bool)
        ensures
            r == self@.shifted,
    {
        self.shifted
    }

    pub fn display(&self) -> (r: &str)
        ensures
            r@ == self@.display,
    {
        self.display.as_str()
    }

    pub fn strokes(&self) -> (r: &[Stroke])
        ensures
            r@ == self@.strokes,
    {
        self.strokes.as_slice()
    }

    pub fn cursor(&self) -> (r: (usize, usize))
        ensures
            r == self@.cursor,
    {
        self.cursor
    }

    /// Rendered grid: rows of (label, selected) for the current shift state.
    pub fn grid(&self) -> (g: Vec<Vec<(String, bool)>>)
        requires
            self.wf(),
        ensures
            g@.len() == num_rows(),
            forall|r: int| 0 <= r < num_rows() ==> (#[trigger] g@[r])@.len() == row_len(r),
            forall|r: int, c: int|
                0 <= r < num_rows() && 0 <= c < row_len(r) ==> {
                    &&& (#[trigger] g@[r]@[c]).0@ == cell_label(layout()[r][c], self@.shifted)
                    &&& g@[r]@[c].1 == (self@.cursor == (r as usize, c as usize))
                },
    {
        let mut g: Vec<Vec<(String, bool)>> = Vec::new();
        let mut r: usize = 0;
        while r < self.rows.len()
            invariant
                self.wf(),
                r <= num_rows(),
                g@.len() == r,
                forall|i: int| 0 <= i < r ==> (#[trigger] g@[i])@.len() == row_len(i),
                forall|i: int, c: int|
                    0 <= i < r && 0 <= c < row_len(i) ==> {
                        &&& (#[trigger] g@[i]@[c]).0@ == cell_label(layout()[i][c], self@.shifted)
                        &&& g@[i]@[c].1 == (self@.cursor == (i as usize, c as usize))
                    },
            decreases num_rows() - r,
        {
            let mut row: Vec<(String, bool)> = Vec::new();
            let mut c: usize = 0;
            while c < self.rows[r].len()
                invariant
                    self.wf(),
                    r < num_rows(),
                    c <= row_len(r as int),
                    row@.len() == c,
                    forall|j: int|
                        0 <= j < c ==> {
                            &&& (#[trigger] row@[j]).0@ == cell_label(layout()[r as int][j], self@.shifted)
                            &&& row@[j].1 == (self@.cursor == (r, j as usize))
                        },
                decreases row_len(r as int) - c,
            {
                let label = label(&self.rows[r][c], self.shifted);
                let selected = self.cursor.0 == r && self.cursor.1 == c;
                row.push((label, selected));
                c = c + 1;
            }
            g.push(row);
            r = r + 1;
        }
        g
    }

    pub fn move_cursor(&mut self, button: PadButton)
        requires
            old(self).wf(),
        ensures
            final(self).wf(),
            final(self)@ == (OskView { cursor: move_spec(old(self)@.cursor, button), ..old(self)@ }),
    {
        let (mut r, mut c) = self.cursor;
        let nrows = self.rows.len();
        match button {
            PadButton::Up => r = if r == 0 {
                nrows - 1
            } else {
                r - 1
            },
            PadButton::Down => r = (r + 1) % nrows,
            PadButton::Left => c = if c == 0 {
                self.rows[r].len() - 1
            } else {
                c - 1
            },
            PadButton::Right => c = (c + 1) % self.rows[r].len(),
            _ => {},
        }
        let len = self.rows[r].len();
        if c > len - 1 {
            c = len - 1;
        }
        self.cursor = (r, c);
    }

    /// Handle a controller button. Directional buttons move the cursor;
    /// Accept activates the current cell; Erase/Shift/Back are shortcuts.
    pub fn on_button(&mut self, button: PadButton) -> (a: Activation)
        requires
            old(self).wf(),
        ensures
            final(self).wf(),
            (final(self)@, a) == osk_step(old(self)@, button),
    {
        match button {
            PadButton::Up | PadButton::Down | PadButton::Left | PadButton::Right => {
                self.move_cursor(button);
                Activation::Continue
            },
            PadButton::Accept => self.activate_current(),
            PadButton::Erase => {
                self.backspace();
                Activation::Continue
            },
            PadButton::Shift => {
                self.shifted = !self.shifted;
                Activation::Continue
            },
            PadButton::Back => Activation::Cancel,
            _ => Activation::Continue,
        }
    }

    fn activate_current(&mut self) -> (a: Activation)
        requires
            old(self).wf(),
        ensures
            final(self).wf(),
            (final(self)@, a) == osk_activate(old(self)@),
    {
        proof {
            lemma_layout_consistent();
        }
        let (r, c) = self.cursor;
        let cell = self.rows[r][c];
        assert(cell == layout()[r as int][c as int]);
        match cell {
            Cell::Char { lower, upper } => {
                let (ch, code, shift) = if self.shifted {
                    upper
                } else {
                    lower
                };
                self.push_typed(ch, Stroke { code, shift });
                Activation::Continue
            },
            Cell::Space => {
                self.push_typed(' ', Stroke { code: KEY_SPACE, shift: false });
                Activation::Continue
            },
            Cell::Enter => {
                self.push_typed('\n', Stroke { code: KEY_ENTER, shift: false });
                Activation::Continue
            },
            Cell::Backspace => {
                self.backspace();
                Activation::Continue
            },
            Cell::ShiftKey => {
                self.shifted = !self.shifted;
                Activation::Continue
            },
            Cell::Done => Activation::Commit,
            Cell::Cancel => Activation::Cancel,
        }
    }

    fn push_typed(&mut self, ch: char, s: Stroke)
        requires
            old(self).wf(),
            s == keystroke(ch),
        ensures
            final(self).wf(),
            final(self)@ == osk_type(old(self)@, ch, s),
    {
        crate::text::string_push(&mut self.display, ch);
        self.strokes.push(s);
        assert(self@.strokes =~= self@.display.map_values(|c: char| keystroke(c)));
    }

    fn backspace(&mut self)
        requires
            old(self).wf(),
        ensures
            final(self).wf(),
            final(self)@ == osk_backspace(old(self)@),
    {
        let _ = crate::text::string_pop(&mut self.display);
        let _ = self.strokes.pop();
        assert(self@.strokes =~= self@.display.map_values(|c: char| keystroke(c)));
    }
}

/// The label a cell shows in the given shift state.
fn label(cell: &Cell, shifted: bool) -> (s: String)
    ensures
        s@ == cell_label(*cell, shifted),
{
    match cell {
        Cell::Char { lower, upper } => {
            let (c, _, _) = if shifted {
                *upper
            } else {
                *lower
            };
            let mut s = String::new();
            crate::text::string_push(&mut s, c);
            s
        },
        Cell::Space => "␣".to_string(),
        Cell::Backspace => "⌫".to_string(),
        Cell::Enter => "⏎".to_string(),
        Cell::ShiftKey => "⇧".to_string(),
        Cell::Done => "Done".to_string(),
        Cell::Cancel => "✕".to_string(),
    }
}

fn simple(lower: char, code: u16, upper: char) -> (c: Cell)
    ensures
        c == simple_cell(lower, code, upper),
{
    Cell::Char { lower: (lower, code, false), upper: (upper, code, true) }
}

fn two_key(lower: char, lo: u16, upper: char, up: u16, up_shift: bool) -> (c: Cell)
    ensures
        c == two_key_cell(lower, lo, upper, up, up_shift),
{
    Cell::Char { lower: (lower, lo, false), upper: (upper, up, up_shift) }
}

/// The keyboard grid of [`layout`].
fn default_layout() -> (rows: Vec<Vec<Cell>>)
    ensures
        rows_are_layout(rows@),
{
    let row0 = vec![
        simple('1', KEY_1, '!'),
        simple('2', KEY_2, '@'),
        simple('3', KEY_3, '#'),
        simple('4', KEY_4, '$'),
        simple('5', KEY_5, '%'),
        simple('6', KEY_6, '^'),
        simple('7', KEY_7, '&'),
        simple('8', KEY_8, '*'),
        simple('9', KEY_9, '('),
        simple('0', KEY_0, ')'),
        Cell::Backspace,
    ];
    let row1 = vec![
        simple('q', KEY_Q, 'Q'),
        simple('w', KEY_W, 'W'),
        simple('e', KEY_E, 'E'),
        simple('r', KEY_R, 'R'),
        simple('t', KEY_T, 'T'),
        simple('y', KEY_Y, 'Y'),
        simple('u', KEY_U, 'U'),
        simple('i', KEY_I, 'I'),
        simple('o', KEY_O, 'O'),
        simple('p', KEY_P, 'P'),
        Cell::ShiftKey,
    ];
    let row2 = vec![
        simple('a', KEY_A, 'A'),
        simple('s', KEY_S, 'S'),
        simple('d', KEY_D, 'D'),
        simple('f', KEY_F, 'F'),
        simple('g', KEY_G, 'G'),
        simple('h', KEY_H, 'H'),
        simple('j', KEY_J, 'J'),
        simple('k', KEY_K, 'K'),
        simple('l', KEY_L, 'L'),
        Cell::Enter,
    ];
    // Punctuation common to server names, IPs and passwords.
    let row3 = vec![
        simple('z', KEY_Z, 'Z'),
        simple('x', KEY_X, 'X'),
        simple('c', KEY_C, 'C'),
        simple('v', KEY_V, 'V'),
        simple('b', KEY_B, 'B'),
        simple('n', KEY_N, 'N'),
        simple('m', KEY_M, 'M'),
        two_key('.', KEY_DOT, ':', KEY_SEMICOLON, true),
        two_key('-', KEY_MINUS, '_', KEY_MINUS, true),
        two_key('/', KEY_SLASH, '@', KEY_2, true),
    ];
    let row4 = vec![Cell::Space, Cell::Cancel, Cell::Done];
    let rows = vec![row0, row1, row2, row3, row4];
    assert(rows@[0]@ =~= layout()[0]);
    assert(rows@[1]@ =~= layout()[1]);
    assert(rows@[2]@ =~= layout()[2]);
    assert(rows@[3]@ =~= layout()[3]);
    assert(rows@[4]@ =~= layout()[4]);
    rows
}

} // verus!

verus! {

/// Every button keeps the keyboard's invariant: the cursor stays on the grid
/// and the buffered keystrokes keep replaying exactly the displayed text.
pub proof fn law_step_keeps_inv(v: OskView, button: PadButton)
    requires
        osk_inv(v),
    ensures
        osk_inv(osk_step(v, button).0),
{
    lemma_layout_consistent();
    let cell = layout()[v.cursor.0 as int][v.cursor.1 as int];
    let w = osk_step(v, button).0;
    if button == PadButton::Accept {
        if let Some(t) = cell_typed(cell, v.shifted) {
            assert(w.strokes =~= w.display.map_values(|c: char| keystroke(c)));
        }
    }
    if w.display.len() < v.display.len() || w.strokes.len() < v.strokes.len() {
        assert(w.strokes =~= w.display.map_values(|c: char| keystroke(c)));
    }
}

/// Erasing right after typing a character gives back the text and the
/// keystrokes as they were.
pub proof fn law_erase_undoes_typing(v: OskView)
    requires
        osk_inv(v),
        cell_typed(layout()[v.cursor.0 as int][v.cursor.1 as int], v.shifted) is Some,
    ensures
        osk_step(osk_step(v, PadButton::Accept).0, PadButton::Erase).0 == v,
{
    let w = osk_step(osk_step(v, PadButton::Accept).0, PadButton::Erase).0;
    assert(w.display =~= v.display);
    assert(w.strokes =~= v.strokes);
}

/// Accepting a character cell types the character it shows, in the
/// current shift state: the text grows by exactly that character at its end
/// (the keystrokes by its US keystroke), and the cursor and shift state stay.
/// Erase (the button or the cell) takes back exactly the last character and
/// its keystroke, and does nothing to an empty text.
pub proof fn law_accept_types(v: OskView)
    requires
        osk_inv(v),
    ensures
        ({
            let cell = layout()[v.cursor.0 as int][v.cursor.1 as int];
            let w = osk_step(v, PadButton::Accept);
            &&& cell matches Cell::Char { lower, upper } ==> {
                let ch = if v.shifted { upper.0 } else { lower.0 };
                &&& w.0.display == v.display.push(ch)
                &&& w.0.strokes == v.strokes.push(keystroke(ch))
                &&& w.0.cursor == v.cursor && w.0.shifted == v.shifted
                &&& w.1 == Activation::Continue
            }
            &&& cell is Space ==> w.0.display == v.display.push(' ')
            &&& cell is Enter ==> w.0.display == v.display.push('\n')
            &&& cell is ShiftKey ==> w.0.shifted == !v.shifted && w.0.display == v.display
        }),
        ({
            let e = osk_step(v, PadButton::Erase).0;
            &&& v.display.len() > 0 ==> e.display == v.display.take(v.display.len() - 1)
                && e.strokes == v.strokes.take(v.strokes.len() - 1)
            &&& v.display.len() == 0 ==> e == v
            &&& e.cursor == v.cursor && e.shifted == v.shifted
        }),
{
    lemma_layout_consistent();
    let cell = layout()[v.cursor.0 as int][v.cursor.1 as int];
    assert(cell_consistent(cell));
    assert(v.strokes.len() == v.display.len());
    if v.display.len() == 0 {
        assert(v.strokes =~= Seq::<Stroke>::empty());
    }
}

/// Pressing Shift twice changes nothing.
pub proof fn law_shift_twice_is_identity(v: OskView)
    ensures
        osk_step(osk_step(v, PadButton::Shift).0, PadButton::Shift).0 == v,
{
}

/// The grid's shape: five rows of 11, 11, 10, 10 and 3 cells.
pub proof fn lemma_grid_shape()
    ensures
        num_rows() == 5,
        row_len(0) == 11,
        row_len(1) == 11,
        row_len(2) == 10,
        row_len(3) == 10,
        row_len(4) == 3,
{
}

/// Left and Right undo each other: moving within a row wraps around its
/// ends and never changes the row.
pub proof fn law_left_right_inverse(v: OskView)
    requires
        cursor_valid(v.cursor),
    ensures
        osk_step(osk_step(v, PadButton::Left).0, PadButton::Right).0 == v,
        osk_step(osk_step(v, PadButton::Right).0, PadButton::Left).0 == v,
{
    lemma_grid_shape();
    let r = v.cursor.0 as int;
    let c = v.cursor.1 as int;
    let len = row_len(r);
    assert(len == 11 || len == 10 || len == 3);
    assert(0 <= c < len);
    let left = if c == 0 { len - 1 } else { c - 1 };
    let right = (c + 1) % len;
    if c + 1 == len {
        vstd::arithmetic::div_mod::lemma_mod_self_0(len);
    } else {
        vstd::arithmetic::div_mod::lemma_small_mod((c + 1) as nat, len as nat);
    }
    if left + 1 == len {
        vstd::arithmetic::div_mod::lemma_mod_self_0(len);
    } else {
        vstd::arithmetic::div_mod::lemma_small_mod((left + 1) as nat, len as nat);
    }
    assert(right == if c + 1 == len { 0 } else { c + 1 });
    assert((left + 1) % len == c);
    let w1 = osk_step(osk_step(v, PadButton::Left).0, PadButton::Right).0;
    let w2 = osk_step(osk_step(v, PadButton::Right).0, PadButton::Left).0;
    assert(w1.cursor == v.cursor);
    assert(w2.cursor == v.cursor);
}

/// The d-pad moves the cursor one cell on the grid, wrapping at its edges.
/// Up and Down change only the row (Down from the last row goes to the
/// first, Up from the first to the last) and keep the column, unless the
/// new row is too short for it, when the cursor lands on that row's last
/// cell. Left and Right keep the row and step the column, wrapping around
/// the row's ends. Every other button leaves the cursor where it is.
pub proof fn law_dpad_moves(cur: (usize, usize), other: PadButton)
    requires
        cursor_valid(cur),
        other != PadButton::Up && other != PadButton::Down && other != PadButton::Left && other
            != PadButton::Right,
    ensures
        ({
            let r = cur.0 as int;
            let c = cur.1 as int;
            let rd = if r + 1 == num_rows() { 0 } else { r + 1 };
            let ru = if r == 0 { num_rows() - 1 } else { r - 1 };
            let down = move_spec(cur, PadButton::Down);
            let up = move_spec(cur, PadButton::Up);
            let left = move_spec(cur, PadButton::Left);
            let right = move_spec(cur, PadButton::Right);
            &&& down.0 == rd
            &&& (c < row_len(rd) ==> down.1 == c)
            &&& (c >= row_len(rd) ==> down.1 == row_len(rd) - 1)
            &&& up.0 == ru
            &&& (c < row_len(ru) ==> up.1 == c)
            &&& (c >= row_len(ru) ==> up.1 == row_len(ru) - 1)
            &&& left.0 == r
            &&& left.1 == if c == 0 { row_len(r) - 1 } else { c - 1 }
            &&& right.0 == r
            &&& right.1 == if c + 1 == row_len(r) { 0 } else { c + 1 }
            &&& move_spec(cur, other) == cur
            &&& cursor_valid(down) && cursor_valid(up) && cursor_valid(left) && cursor_valid(right)
        }),
{
    lemma_grid_shape();
    let r = cur.0 as int;
    let c = cur.1 as int;
    if r + 1 == num_rows() {
        assert((r + 1) % num_rows() == 0);
    } else {
        assert((r + 1) % num_rows() == r + 1);
    }
    if c + 1 == row_len(r) {
        vstd::arithmetic::div_mod::lemma_mod_self_0(row_len(r));
    } else {
        vstd::arithmetic::div_mod::lemma_small_mod((c + 1) as nat, row_len(r) as nat);
    }
}

/// A button edge records exactly that button's state: Start's edge sets
/// whether Start is down and Select's whether Select is down, whatever the
/// other button is doing, and other buttons change nothing. The hold is
/// timed from the edge at which both became down, keeps its start (and
/// whether it was reported) while both stay down, and is forgotten as soon
/// as either is up.
pub proof fn law_combo_records_edges(s: ComboView, button: PadButton, pressed: bool, now: u64)
    requires
        combo_wf(s),
    ensures
        ({
            let n = combo_set(s, button, pressed, now);
            &&& button == PadButton::Start ==> n.start_down == pressed && n.select_down == s.select_down
            &&& button == PadButton::Select ==> n.select_down == pressed && n.start_down == s.start_down
            &&& button != PadButton::Start && button != PadButton::Select ==> n == s
            &&& (n.start_down && n.select_down && s.start_down && s.select_down) ==> n.since == s.since
                && n.fired == s.fired
            &&& (n.start_down && n.select_down && !(s.start_down && s.select_down)) ==> n.since
                == Some(now) && !n.fired
            &&& !(n.start_down && n.select_down) ==> n.since is None && !n.fired
        }),
{
}

/// The combo does not care in which order its buttons go down: from idle,
/// pressing one of Start and Select and then the other fires exactly when
/// polled at least [`HOLD`] after the second press, and not before.
pub proof fn law_combo_either_order(first: PadButton, second: PadButton, t0: u64, t1: u64, t: u64)
    requires
        (first == PadButton::Start && second == PadButton::Select) || (first == PadButton::Select
            && second == PadButton::Start),
    ensures
        combo_fires(combo_set(combo_set(combo_idle(), first, true, t0), second, true, t1), t) <==> t
            >= t1 + HOLD,
{
}

/// Up and Down undo each other's row change, wrapping between the first and
/// the last row; Up from the top row lands on the last row.
pub proof fn law_up_down_rows(v: OskView)
    requires
        cursor_valid(v.cursor),
    ensures
        osk_step(osk_step(v, PadButton::Up).0, PadButton::Down).0.cursor.0 == v.cursor.0,
        osk_step(osk_step(v, PadButton::Down).0, PadButton::Up).0.cursor.0 == v.cursor.0,
        v.cursor.0 == 0 ==> osk_step(v, PadButton::Up).0.cursor.0 == num_rows() - 1,
        cursor_valid(osk_step(v, PadButton::Up).0.cursor),
        cursor_valid(osk_step(v, PadButton::Down).0.cursor),
{
    lemma_grid_shape();
}

/// Done commits and Back (or the cancel key) cancels, without touching the
/// typed text.
pub proof fn law_commit_and_cancel_keep_text(v: OskView)
    requires
        cursor_valid(v.cursor),
    ensures
        osk_step(v, PadButton::Back) == (v, Activation::Cancel),
        layout()[v.cursor.0 as int][v.cursor.1 as int] is Done ==> osk_step(v, PadButton::Accept) == (
        v, Activation::Commit),
        layout()[v.cursor.0 as int][v.cursor.1 as int] is Cancel ==> osk_step(v, PadButton::Accept)
            == (v, Activation::Cancel),
{
}

} // verus!

verus! {

/// Button edges and polls keep the tracker's invariant, starting from idle.
pub proof fn law_combo_keeps_wf(s: ComboView, button: PadButton, pressed: bool, now: u64)
    requires
        combo_wf(s),
    ensures
        combo_wf(combo_idle()),
        combo_wf(combo_set(s, button, pressed, now)),
        combo_wf(combo_poll(s, now)),
{
}

/// The hold is reported at most once: after it fired, no later poll fires
/// again while the buttons stay held, even if they are pressed again.
pub proof fn law_combo_fires_once_per_hold(
    s: ComboView,
    t1: u64,
    t2: u64,
    button: PadButton,
    t: u64,
)
    requires
        combo_wf(s),
        combo_fires(s, t1),
    ensures
        !combo_fires(combo_poll(s, t1), t2),
        !combo_fires(combo_set(combo_poll(s, t1), button, true, t), t2),
{
}

/// Releasing either button cancels the hold: nothing fires until both are
/// held again, and a new hold is timed from scratch.
pub proof fn law_combo_release_cancels(s: ComboView, button: PadButton, t: u64, t2: u64)
    requires
        combo_wf(s),
        button == PadButton::Start || button == PadButton::Select,
    ensures
        !combo_fires(combo_set(s, button, false, t), t2),
        combo_set(s, button, false, t).since is None,
        !combo_set(s, button, false, t).fired,
{
}

/// Nothing fires unless both buttons are down.
pub proof fn law_combo_needs_both(s: ComboView, t: u64)
    requires
        combo_wf(s),
        !(s.start_down && s.select_down),
    ensures
        !combo_fires(s, t),
{
}

/// Pressing Start then Select from idle fires exactly when polled at least
/// [`HOLD`] after the second press.
pub proof fn law_combo_fires_after_hold(t0: u64, t1: u64, t: u64)
    ensures
        combo_fires(
            combo_set(combo_set(combo_idle(), PadButton::Start, true, t0), PadButton::Select, true, t1),
            t,
        ) <==> t >= t1 + HOLD,
{
}

/// The keys a virtual keyboard must declare: the punctuation and editing
/// keys, then the digits 0..=9, then the letters a..=z.
pub open spec fn keyboard_keys() -> Seq<u16> {
    seq![
        KEY_SPACE,
        KEY_BACKSPACE,
        KEY_ENTER,
        KEY_DOT,
        KEY_COMMA,
        KEY_MINUS,
        KEY_EQUAL,
        KEY_SLASH,
        KEY_SEMICOLON,
        KEY_APOSTROPHE,
    ] + Seq::new(10, |n: int| digit_key(n as u8)) + Seq::new(
        26,
        |i: int| letter_key((('a' as u32) + i) as char),
    )
}

/// Every key code the on-screen keyboard may type (see [`keyboard_keys`]).
pub fn all_keycodes() -> (codes: Vec<u16>)
    ensures
        codes@ == keyboard_keys(),
{
    let mut codes = vec![
        KEY_SPACE,
        KEY_BACKSPACE,
        KEY_ENTER,
        KEY_DOT,
        KEY_COMMA,
        KEY_MINUS,
        KEY_EQUAL,
        KEY_SLASH,
        KEY_SEMICOLON,
        KEY_APOSTROPHE,
    ];
    let ghost head = codes@;
    let mut n: u8 = 0;
    while n <= 9
        invariant
            n <= 10,
            codes@ == head + Seq::new(n as nat, |k: int| digit_key(k as u8)),
        decreases 10 - n,
    {
        codes.push(digit_code(n));
        n = n + 1;
        assert(codes@ =~= head + Seq::new(n as nat, |k: int| digit_key(k as u8)));
    }
    let ghost mid = codes@;
    let mut c: u8 = 97u8;
    while c <= 122u8
        invariant
            97u8 <= c <= 122u8 + 1,
            codes@ == mid + Seq::new(
                (c - 97u8) as nat,
                |i: int| letter_key((('a' as u32) + i) as char),
            ),
        decreases 122u8 + 1 - c,
    {
        let ch = c as char;
        codes.push(letter_code(ch));
        proof {
            assert(ch == (('a' as u32) + (c - 97u8)) as char);
        }
        c = c + 1;
        assert(codes@ =~= mid + Seq::new(
            (c - 97u8) as nat,
            |i: int| letter_key((('a' as u32) + i) as char),
        ));
    }
    assert(codes@ =~= keyboard_keys());
    codes
}

} // verus!

verus! {

/// The key events that replay a stroke, in the batches they are emitted in
/// (each batch is followed by a sync report): shift pressed first when the
/// stroke needs it, then the key pressed and released together, then shift
/// released. A value of 1 presses, 0 releases.
pub open spec fn stroke_batches(s: Stroke) -> Seq<Seq<(u16, i32)>> {
    if s.shift {
        seq![seq![(KEY_LEFTSHIFT, 1i32)], seq![(s.code, 1i32), (s.code, 0i32)], seq![(KEY_LEFTSHIFT, 0i32)]]
    } else {
        seq![seq![(s.code, 1i32), (s.code, 0i32)]]
    }
}

/// See [`stroke_batches`].
pub fn stroke_events(s: Stroke) -> (r: Vec<Vec<(u16, i32)>>)
    ensures
        r@.map_values(|b: Vec<(u16, i32)>| b@) == stroke_batches(s),
{
    let tap = vec![(s.code, 1i32), (s.code, 0i32)];
    assert(tap@ =~= seq![(s.code, 1i32), (s.code, 0i32)]);
    if s.shift {
        let press = vec![(KEY_LEFTSHIFT, 1i32)];
        let release = vec![(KEY_LEFTSHIFT, 0i32)];
        assert(press@ =~= seq![(KEY_LEFTSHIFT, 1i32)]);
        assert(release@ =~= seq![(KEY_LEFTSHIFT, 0i32)]);
        let r = vec![press, tap, release];
        assert(r@.map_values(|b: Vec<(u16, i32)>| b@) =~= stroke_batches(s));
        r
    } else {
        let r = vec![tap];
        assert(r@.map_values(|b: Vec<(u16, i32)>| b@) =~= stroke_batches(s));
        r
    }
}

} // verus!

verus! {

/// Where a key code stands in [`keyboard_keys`] (46 when it is not there).
pub open spec fn key_index(code: u16) -> int {
    if code == KEY_SPACE {
        0
    } else if code == KEY_BACKSPACE {
        1
    } else if code == KEY_ENTER {
        2
    } else if code == KEY_DOT {
        3
    } else if code == KEY_COMMA {
        4
    } else if code == KEY_MINUS {
        5
    } else if code == KEY_EQUAL {
        6
    } else if code == KEY_SLASH {
        7
    } else if code == KEY_SEMICOLON {
        8
    } else if code == KEY_APOSTROPHE {
        9
    } else if code == KEY_0 {
        10
    } else if code == KEY_1 {
        11
    } else if code == KEY_2 {
        12
    } else if code == KEY_3 {
        13
    } else if code == KEY_4 {
        14
    } else if code == KEY_5 {
        15
    } else if code == KEY_6 {
        16
    } else if code == KEY_7 {
        17
    } else if code == KEY_8 {
        18
    } else if code == KEY_9 {
        19
    } else if code == KEY_A {
        20
    } else if code == KEY_B {
        21
    } else if code == KEY_C {
        22
    } else if code == KEY_D {
        23
    } else if code == KEY_E {
        24
    } else if code == KEY_F {
        25
    } else if code == KEY_G {
        26
    } else if code == KEY_H {
        27
    } else if code == KEY_I {
        28
    } else if code == KEY_J {
        29
    } else if code == KEY_K {
        30
    } else if code == KEY_L {
        31
    } else if code == KEY_M {
        32
    } else if code == KEY_N {
        33
    } else if code == KEY_O {
        34
    } else if code == KEY_P {
        35
    } else if code == KEY_Q {
        36
    } else if code == KEY_R {
        37
    } else if code == KEY_S {
        38
    } else if code == KEY_T {
        39
    } else if code == KEY_U {
        40
    } else if code == KEY_V {
        41
    } else if code == KEY_W {
        42
    } else if code == KEY_X {
        43
    } else if code == KEY_Y {
        44
    } else if code == KEY_Z {
        45
    } else {
        46
    }
}

/// The codes of [`keyboard_keys`], one by one.
proof fn lemma_keyboard_keys_values()
    ensures
        keyboard_keys().len() == 46,
        forall|j: int| 0 <= j < 46 ==> key_index(#[trigger] keyboard_keys()[j]) == j,
{
    let ks = keyboard_keys();
    assert(ks[0] == KEY_SPACE);
    assert(ks[1] == KEY_BACKSPACE);
    assert(ks[2] == KEY_ENTER);
    assert(ks[3] == KEY_DOT);
    assert(ks[4] == KEY_COMMA);
    assert(ks[5] == KEY_MINUS);
    assert(ks[6] == KEY_EQUAL);
    assert(ks[7] == KEY_SLASH);
    assert(ks[8] == KEY_SEMICOLON);
    assert(ks[9] == KEY_APOSTROPHE);
    assert(ks[10] == KEY_0);
    assert(ks[11] == KEY_1);
    assert(ks[12] == KEY_2);
    assert(ks[13] == KEY_3);
    assert(ks[14] == KEY_4);
    assert(ks[15] == KEY_5);
    assert(ks[16] == KEY_6);
    assert(ks[17] == KEY_7);
    assert(ks[18] == KEY_8);
    assert(ks[19] == KEY_9);
    assert(ks[20] == KEY_A);
    assert(ks[21] == KEY_B);
    assert(ks[22] == KEY_C);
    assert(ks[23] == KEY_D);
    assert(ks[24] == KEY_E);
    assert(ks[25] == KEY_F);
    assert(ks[26] == KEY_G);
    assert(ks[27] == KEY_H);
    assert(ks[28] == KEY_I);
    assert(ks[29] == KEY_J);
    assert(ks[30] == KEY_K);
    assert(ks[31] == KEY_L);
    assert(ks[32] == KEY_M);
    assert(ks[33] == KEY_N);
    assert(ks[34] == KEY_O);
    assert(ks[35] == KEY_P);
    assert(ks[36] == KEY_Q);
    assert(ks[37] == KEY_R);
    assert(ks[38] == KEY_S);
    assert(ks[39] == KEY_T);
    assert(ks[40] == KEY_U);
    assert(ks[41] == KEY_V);
    assert(ks[42] == KEY_W);
    assert(ks[43] == KEY_X);
    assert(ks[44] == KEY_Y);
    assert(ks[45] == KEY_Z);
    assert forall|j: int| 0 <= j < 46 implies key_index(#[trigger] ks[j]) == j by {
        if j == 0 {
            assert(key_index(ks[0]) == 0);
        } else if j == 1 {
            assert(key_index(ks[1]) == 1);
        } else if j == 2 {
            assert(key_index(ks[2]) == 2);
        } else if j == 3 {
            assert(key_index(ks[3]) == 3);
        } else if j == 4 {
            assert(key_index(ks[4]) == 4);
        } else if j == 5 {
            assert(key_index(ks[5]) == 5);
        } else if j == 6 {
            assert(key_index(ks[6]) == 6);
        } else if j == 7 {
            assert(key_index(ks[7]) == 7);
        } else if j == 8 {
            assert(key_index(ks[8]) == 8);
        } else if j == 9 {
            assert(key_index(ks[9]) == 9);
        } else if j == 10 {
            assert(key_index(ks[10]) == 10);
        } else if j == 11 {
            assert(key_index(ks[11]) == 11);
        } else if j == 12 {
            assert(key_index(ks[12]) == 12);
        } else if j == 13 {
            assert(key_index(ks[13]) == 13);
        } else if j == 14 {
            assert(key_index(ks[14]) == 14);
        } else if j == 15 {
            assert(key_index(ks[15]) == 15);
        } else if j == 16 {
            assert(key_index(ks[16]) == 16);
        } else if j == 17 {
            assert(key_index(ks[17]) == 17);
        } else if j == 18 {
            assert(key_index(ks[18]) == 18);
        } else if j == 19 {
            assert(key_index(ks[19]) == 19);
        } else if j == 20 {
            assert(key_index(ks[20]) == 20);
        } else if j == 21 {
            assert(key_index(ks[21]) == 21);
        } else if j == 22 {
            assert(key_index(ks[22]) == 22);
        } else if j == 23 {
            assert(key_index(ks[23]) == 23);
        } else if j == 24 {
            assert(key_index(ks[24]) == 24);
        } else if j == 25 {
            assert(key_index(ks[25]) == 25);
        } else if j == 26 {
            assert(key_index(ks[26]) == 26);
        } else if j == 27 {
            assert(key_index(ks[27]) == 27);
        } else if j == 28 {
            assert(key_index(ks[28]) == 28);
        } else if j == 29 {
            assert(key_index(ks[29]) == 29);
        } else if j == 30 {
            assert(key_index(ks[30]) == 30);
        } else if j == 31 {
            assert(key_index(ks[31]) == 31);
        } else if j == 32 {
            assert(key_index(ks[32]) == 32);
        } else if j == 33 {
            assert(key_index(ks[33]) == 33);
        } else if j == 34 {
            assert(key_index(ks[34]) == 34);
        } else if j == 35 {
            assert(key_index(ks[35]) == 35);
        } else if j == 36 {
            assert(key_index(ks[36]) == 36);
        } else if j == 37 {
            assert(key_index(ks[37]) == 37);
        } else if j == 38 {
            assert(key_index(ks[38]) == 38);
        } else if j == 39 {
            assert(key_index(ks[39]) == 39);
        } else if j == 40 {
            assert(key_index(ks[40]) == 40);
        } else if j == 41 {
            assert(key_index(ks[41]) == 41);
        } else if j == 42 {
            assert(key_index(ks[42]) == 42);
        } else if j == 43 {
            assert(key_index(ks[43]) == 43);
        } else if j == 44 {
            assert(key_index(ks[44]) == 44);
        } else if j == 45 {
            assert(key_index(ks[45]) == 45);
        }
    }
}

/// The virtual keyboard's keys are 46 distinct codes.
pub proof fn law_keycodes_distinct()
    ensures
        keyboard_keys().len() == 46,
        forall|i: int, j: int|
            0 <= i < j < keyboard_keys().len() ==> keyboard_keys()[i] != keyboard_keys()[j],
{
    lemma_keyboard_keys_values();
    assert forall|i: int, j: int|
        0 <= i < j < keyboard_keys().len() implies keyboard_keys()[i] != keyboard_keys()[j] by {
        assert(key_index(keyboard_keys()[i]) == i);
        assert(key_index(keyboard_keys()[j]) == j);
    }
}

/// Each of the virtual keyboard's codes is among [`keyboard_keys`].
proof fn lemma_keyboard_keys_contain()
    ensures
        keyboard_keys().contains(KEY_SPACE),
        keyboard_keys().contains(KEY_BACKSPACE),
        keyboard_keys().contains(KEY_ENTER),
        keyboard_keys().contains(KEY_DOT),
        keyboard_keys().contains(KEY_COMMA),
        keyboard_keys().contains(KEY_MINUS),
        keyboard_keys().contains(KEY_EQUAL),
        keyboard_keys().contains(KEY_SLASH),
        keyboard_keys().contains(KEY_SEMICOLON),
        keyboard_keys().contains(KEY_APOSTROPHE),
        keyboard_keys().contains(KEY_0),
        keyboard_keys().contains(KEY_1),
        keyboard_keys().contains(KEY_2),
        keyboard_keys().contains(KEY_3),
        keyboard_keys().contains(KEY_4),
        keyboard_keys().contains(KEY_5),
        keyboard_keys().contains(KEY_6),
        keyboard_keys().contains(KEY_7),
        keyboard_keys().contains(KEY_8),
        keyboard_keys().contains(KEY_9),
        keyboard_keys().contains(KEY_A),
        keyboard_keys().contains(KEY_B),
        keyboard_keys().contains(KEY_C),
        keyboard_keys().contains(KEY_D),
        keyboard_keys().contains(KEY_E),
        keyboard_keys().contains(KEY_F),
        keyboard_keys().contains(KEY_G),
        keyboard_keys().contains(KEY_H),
        keyboard_keys().contains(KEY_I),
        keyboard_keys().contains(KEY_J),
        keyboard_keys().contains(KEY_K),
        keyboard_keys().contains(KEY_L),
        keyboard_keys().contains(KEY_M),
        keyboard_keys().contains(KEY_N),
        keyboard_keys().contains(KEY_O),
        keyboard_keys().contains(KEY_P),
        keyboard_keys().contains(KEY_Q),
        keyboard_keys().contains(KEY_R),
        keyboard_keys().contains(KEY_S),
        keyboard_keys().contains(KEY_T),
        keyboard_keys().contains(KEY_U),
        keyboard_keys().contains(KEY_V),
        keyboard_keys().contains(KEY_W),
        keyboard_keys().contains(KEY_X),
        keyboard_keys().contains(KEY_Y),
        keyboard_keys().contains(KEY_Z),
{
    let ks = keyboard_keys();
    assert(ks[0] == KEY_SPACE);
    assert(ks[1] == KEY_BACKSPACE);
    assert(ks[2] == KEY_ENTER);
    assert(ks[3] == KEY_DOT);
    assert(ks[4] == KEY_COMMA);
    assert(ks[5] == KEY_MINUS);
    assert(ks[6] == KEY_EQUAL);
    assert(ks[7] == KEY_SLASH);
    assert(ks[8] == KEY_SEMICOLON);
    assert(ks[9] == KEY_APOSTROPHE);
    assert(ks[10] == KEY_0);
    assert(ks[11] == KEY_1);
    assert(ks[12] == KEY_2);
    assert(ks[13] == KEY_3);
    assert(ks[14] == KEY_4);
    assert(ks[15] == KEY_5);
    assert(ks[16] == KEY_6);
    assert(ks[17] == KEY_7);
    assert(ks[18] == KEY_8);
    assert(ks[19] == KEY_9);
    assert(ks[20] == KEY_A);
    assert(ks[21] == KEY_B);
    assert(ks[22] == KEY_C);
    assert(ks[23] == KEY_D);
    assert(ks[24] == KEY_E);
    assert(ks[25] == KEY_F);
    assert(ks[26] == KEY_G);
    assert(ks[27] == KEY_H);
    assert(ks[28] == KEY_I);
    assert(ks[29] == KEY_J);
    assert(ks[30] == KEY_K);
    assert(ks[31] == KEY_L);
    assert(ks[32] == KEY_M);
    assert(ks[33] == KEY_N);
    assert(ks[34] == KEY_O);
    assert(ks[35] == KEY_P);
    assert(ks[36] == KEY_Q);
    assert(ks[37] == KEY_R);
    assert(ks[38] == KEY_S);
    assert(ks[39] == KEY_T);
    assert(ks[40] == KEY_U);
    assert(ks[41] == KEY_V);
    assert(ks[42] == KEY_W);
    assert(ks[43] == KEY_X);
    assert(ks[44] == KEY_Y);
    assert(ks[45] == KEY_Z);
}

/// Whether the virtual keyboard can replay every keystroke.
pub open spec fn replayable(strokes: Seq<Stroke>) -> bool {
    forall|i: int| 0 <= i < strokes.len() ==> keyboard_keys().contains(#[trigger] strokes[i].code)
}

/// Whether every keystroke a cell types, shifted or not, can be replayed.
pub open spec fn cell_replayable(cell: Cell) -> bool {
    &&& (cell_typed(cell, false) matches Some(t) ==> keyboard_keys().contains(t.1.code))
    &&& (cell_typed(cell, true) matches Some(t) ==> keyboard_keys().contains(t.1.code))
}

proof fn lemma_row_replayable_0()
    ensures
        forall|c: int| 0 <= c < row_len(0) ==> cell_replayable(#[trigger] layout()[0][c]),
{
    lemma_keyboard_keys_contain();
    assert forall|c: int| 0 <= c < row_len(0) implies cell_replayable(#[trigger] layout()[0][c]) by {
        if c == 0 {
            assert(cell_replayable(layout()[0][0]));
        } else if c == 1 {
            assert(cell_replayable(layout()[0][1]));
        } else if c == 2 {
            assert(cell_replayable(layout()[0][2]));
        } else if c == 3 {
            assert(cell_replayable(layout()[0][3]));
        } else if c == 4 {
            assert(cell_replayable(layout()[0][4]));
        } else if c == 5 {
            assert(cell_replayable(layout()[0][5]));
        } else if c == 6 {
            assert(cell_replayable(layout()[0][6]));
        } else if c == 7 {
            assert(cell_replayable(layout()[0][7]));
        } else if c == 8 {
            assert(cell_replayable(layout()[0][8]));
        } else if c == 9 {
            assert(cell_replayable(layout()[0][9]));
        } else if c == 10 {
            assert(cell_replayable(layout()[0][10]));
        }
    }
}

proof fn lemma_row_replayable_1()
    ensures
        forall|c: int| 0 <= c < row_len(1) ==> cell_replayable(#[trigger] layout()[1][c]),
{
    lemma_keyboard_keys_contain();
    assert forall|c: int| 0 <= c < row_len(1) implies cell_replayable(#[trigger] layout()[1][c]) by {
        if c == 0 {
            assert(cell_replayable(layout()[1][0]));
        } else if c == 1 {
            assert(cell_replayable(layout()[1][1]));
        } else if c == 2 {
            assert(cell_replayable(layout()[1][2]));
        } else if c == 3 {
            assert(cell_replayable(layout()[1][3]));
        } else if c == 4 {
            assert(cell_replayable(layout()[1][4]));
        } else if c == 5 {
            assert(cell_replayable(layout()[1][5]));
        } else if c == 6 {
            assert(cell_replayable(layout()[1][6]));
        } else if c == 7 {
            assert(cell_replayable(layout()[1][7]));
        } else if c == 8 {
            assert(cell_replayable(layout()[1][8]));
        } else if c == 9 {
            assert(cell_replayable(layout()[1][9]));
        } else if c == 10 {
            assert(cell_replayable(layout()[1][10]));
        }
    }
}

proof fn lemma_row_replayable_2()
    ensures
        forall|c: int| 0 <= c < row_len(2) ==> cell_replayable(#[trigger] layout()[2][c]),
{
    lemma_keyboard_keys_contain();
    assert forall|c: int| 0 <= c < row_len(2) implies cell_replayable(#[trigger] layout()[2][c]) by {
        if c == 0 {
            assert(cell_replayable(layout()[2][0]));
        } else if c == 1 {
            assert(cell_replayable(layout()[2][1]));
        } else if c == 2 {
            assert(cell_replayable(layout()[2][2]));
        } else if c == 3 {
            assert(cell_replayable(layout()[2][3]));
        } else if c == 4 {
            assert(cell_replayable(layout()[2][4]));
        } else if c == 5 {
            assert(cell_replayable(layout()[2][5]));
        } else if c == 6 {
            assert(cell_replayable(layout()[2][6]));
        } else if c == 7 {
            assert(cell_replayable(layout()[2][7]));
        } else if c == 8 {
            assert(cell_replayable(layout()[2][8]));
        } else if c == 9 {
            assert(cell_replayable(layout()[2][9]));
        }
    }
}

proof fn lemma_row_replayable_3()
    ensures
        forall|c: int| 0 <= c < row_len(3) ==> cell_replayable(#[trigger] layout()[3][c]),
{
    lemma_keyboard_keys_contain();
    assert forall|c: int| 0 <= c < row_len(3) implies cell_replayable(#[trigger] layout()[3][c]) by {
        if c == 0 {
            assert(cell_replayable(layout()[3][0]));
        } else if c == 1 {
            assert(cell_replayable(layout()[3][1]));
        } else if c == 2 {
            assert(cell_replayable(layout()[3][2]));
        } else if c == 3 {
            assert(cell_replayable(layout()[3][3]));
        } else if c == 4 {
            assert(cell_replayable(layout()[3][4]));
        } else if c == 5 {
            assert(cell_replayable(layout()[3][5]));
        } else if c == 6 {
            assert(cell_replayable(layout()[3][6]));
        } else if c == 7 {
            assert(cell_replayable(layout()[3][7]));
        } else if c == 8 {
            assert(cell_replayable(layout()[3][8]));
        } else if c == 9 {
            assert(cell_replayable(layout()[3][9]));
        }
    }
}

proof fn lemma_row_replayable_4()
    ensures
        forall|c: int| 0 <= c < row_len(4) ==> cell_replayable(#[trigger] layout()[4][c]),
{
    lemma_keyboard_keys_contain();
    assert forall|c: int| 0 <= c < row_len(4) implies cell_replayable(#[trigger] layout()[4][c]) by {
        if c == 0 {
            assert(cell_replayable(layout()[4][0]));
        } else if c == 1 {
            assert(cell_replayable(layout()[4][1]));
        } else if c == 2 {
            assert(cell_replayable(layout()[4][2]));
        }
    }
}

/// Every keystroke the grid can type is one the virtual keyboard has.
pub proof fn law_cells_replayable()
    ensures
        forall|r: int, c: int|
            0 <= r < num_rows() && 0 <= c < row_len(r) ==> cell_replayable(#[trigger] layout()[r][c]),
{
    lemma_row_replayable_0();
    lemma_row_replayable_1();
    lemma_row_replayable_2();
    lemma_row_replayable_3();
    lemma_row_replayable_4();
    assert forall|r: int, c: int|
        0 <= r < num_rows() && 0 <= c < row_len(r) implies cell_replayable(#[trigger] layout()[r][c]) by {
        if r == 0 {
            assert(cell_replayable(layout()[0][c]));
        } else if r == 1 {
            assert(cell_replayable(layout()[1][c]));
        } else if r == 2 {
            assert(cell_replayable(layout()[2][c]));
        } else if r == 3 {
            assert(cell_replayable(layout()[3][c]));
        } else {
            assert(cell_replayable(layout()[4][c]));
        }
    }
}

/// Whatever the player does, the keyboard's keystrokes stay ones the
/// virtual keyboard can replay: a fresh keyboard has none, and no button
/// adds one it cannot.
pub proof fn law_step_keeps_replayable(v: OskView, button: PadButton)
    requires
        cursor_valid(v.cursor),
        replayable(v.strokes),
    ensures
        replayable(osk_step(v, button).0.strokes),
        replayable(osk_initial(v.player, v.target_window).strokes),
{
    law_cells_replayable();
    let w = osk_step(v, button).0;
    assert forall|i: int| 0 <= i < w.strokes.len() implies keyboard_keys().contains(
        #[trigger] w.strokes[i].code,
    ) by {
        if i < v.strokes.len() {
            assert(w.strokes[i] == v.strokes[i]);
        } else {
            let cell = layout()[v.cursor.0 as int][v.cursor.1 as int];
            assert(cell_replayable(cell));
        }
    }
}

} // verus!
