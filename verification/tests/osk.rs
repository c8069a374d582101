//! On-screen keyboard: combo timing and the navigation/typing state machine.

use hyprcoop::input::PadButton;
use hyprcoop::osk::{
    all_keycodes, digit_code, letter_code, Activation, ComboTracker, Osk, HOLD, KEY_0,
    KEY_1, KEY_A, KEY_B, KEY_Q, KEY_Z,
};

#[test]
fn combo_fires_only_after_hold() {
    let t0: u64 = 1_000;
    let mut combo = ComboTracker::default();

    combo.set(PadButton::Start, true, t0);
    assert!(!combo.fired(t0), "one button down should not fire");

    combo.set(PadButton::Select, true, t0);
    assert!(!combo.fired(t0), "not held long enough");
    assert!(!combo.fired(t0 + HOLD - 1), "just short");

    assert!(combo.fired(t0 + HOLD), "held long enough fires");
    assert!(!combo.fired(t0 + HOLD * 2), "fires only once per hold");

    // Releasing and re-holding arms it again.
    combo.set(PadButton::Select, false, t0 + HOLD * 2);
    combo.set(PadButton::Select, true, t0 + HOLD * 2);
    assert!(combo.fired(t0 + HOLD * 3));
}

#[test]
fn releasing_a_button_cancels_the_hold() {
    let t0: u64 = 1_000;
    let mut combo = ComboTracker::default();
    combo.set(PadButton::Start, true, t0);
    combo.set(PadButton::Select, true, t0);
    combo.set(PadButton::Start, false, t0 + 500);
    assert!(!combo.fired(t0 + HOLD * 2), "released before hold completed");
}

#[test]
fn typing_navigates_shifts_and_erases() {
    let mut osk = Osk::new(1, Some("0xabc".into()));
    assert_eq!(osk.cursor(), (0, 0));

    // Type "12" from the digit row.
    assert!(matches!(osk.on_button(PadButton::Accept), Activation::Continue));
    osk.on_button(PadButton::Right);
    osk.on_button(PadButton::Accept);
    assert_eq!(osk.display(), "12");

    // Erase the last digit.
    osk.on_button(PadButton::Erase);
    assert_eq!(osk.display(), "1");

    // Shift then type a letter -> uppercase display. Cursor is at digit col 1,
    // so step Left to col 0 before dropping into the qwerty row ('q').
    osk.on_button(PadButton::Left);
    osk.on_button(PadButton::Down);
    assert_eq!(osk.cursor(), (1, 0));
    osk.on_button(PadButton::Shift);
    assert!(osk.shifted());
    osk.on_button(PadButton::Accept); // 'q' -> 'Q'
    assert_eq!(osk.display(), "1Q");
    assert!(osk.strokes().last().unwrap().shift, "uppercase uses shift");

    // Cancel with Back.
    assert!(matches!(osk.on_button(PadButton::Back), Activation::Cancel));
}

#[test]
fn done_commits_and_wraps_navigation() {
    let mut osk = Osk::new(0, None);
    // Up from the top row wraps to the last row, which holds Done.
    osk.on_button(PadButton::Up);
    let last_row = osk.grid().len() - 1;
    assert_eq!(osk.cursor().0, last_row);
    // Walk to the Done cell and activate it.
    let done_col = osk.grid()[last_row]
        .iter()
        .position(|(label, _)| label == "Done")
        .expect("Done key exists");
    while osk.cursor().1 != done_col {
        osk.on_button(PadButton::Right);
    }
    assert!(matches!(osk.on_button(PadButton::Accept), Activation::Commit));
}

#[test]
fn combo_needs_both_buttons_and_new_tracker_is_idle() {
    let mut combo = ComboTracker::new();
    assert!(!combo.fired(HOLD * 10));
    combo.set(PadButton::Select, true, 0);
    assert!(!combo.fired(HOLD * 10), "Select alone never fires");
    combo.set(PadButton::Accept, true, 0);
    assert!(!combo.fired(HOLD * 10), "other buttons do not count");
}

#[test]
fn strokes_match_the_typed_text() {
    // "a" then shifted "B": Down, Down -> asdf row; 'a' at col 0.
    let mut osk = Osk::new(0, None);
    osk.on_button(PadButton::Down);
    osk.on_button(PadButton::Down);
    osk.on_button(PadButton::Accept);
    osk.on_button(PadButton::Shift);
    osk.on_button(PadButton::Down);
    for _ in 0..4 {
        osk.on_button(PadButton::Right);
    }
    osk.on_button(PadButton::Accept);
    assert_eq!(osk.display(), "aB");
    let strokes = osk.strokes();
    assert_eq!(strokes.len(), 2);
    assert_eq!(strokes[0].code, KEY_A);
    assert!(!strokes[0].shift);
    assert_eq!(strokes[1].code, KEY_B);
    assert!(strokes[1].shift);
}

#[test]
fn erase_on_empty_text_keeps_it_empty() {
    let mut osk = Osk::new(2, None);
    assert!(osk.is_empty());
    assert!(matches!(osk.on_button(PadButton::Erase), Activation::Continue));
    assert_eq!(osk.display(), "");
    assert!(osk.strokes().is_empty());
}

#[test]
fn shift_twice_restores_lower_case() {
    let mut osk = Osk::new(0, None);
    osk.on_button(PadButton::Shift);
    osk.on_button(PadButton::Shift);
    assert!(!osk.shifted());
    osk.on_button(PadButton::Down); // 'q'
    osk.on_button(PadButton::Accept);
    assert_eq!(osk.display(), "q");
    assert_eq!(osk.strokes()[0].code, KEY_Q);
}

#[test]
fn left_then_right_returns_to_the_same_key() {
    let mut osk = Osk::new(0, None);
    osk.on_button(PadButton::Left);
    assert_eq!(osk.cursor(), (0, 10), "left from the first column wraps");
    osk.on_button(PadButton::Right);
    assert_eq!(osk.cursor(), (0, 0));
}

#[test]
fn grid_has_five_rows_with_labels() {
    let osk = Osk::new(0, None);
    let grid = osk.grid();
    let lens: Vec<usize> = grid.iter().map(|r| r.len()).collect();
    assert_eq!(lens, vec![11, 11, 10, 10, 3]);
    assert_eq!(grid[0][0].0, "1");
    assert!(grid[0][0].1, "cursor cell is marked");
    assert!(!grid[0][1].1);
}

#[test]
fn into_commit_hands_over_player_target_and_strokes() {
    let mut osk = Osk::new(3, Some("0x55".to_string()));
    osk.on_button(PadButton::Accept); // '1'
    let (player, target, strokes) = osk.into_commit();
    assert_eq!(player, 3);
    assert_eq!(target, Some("0x55".to_string()));
    assert_eq!(strokes.len(), 1);
    assert_eq!(strokes[0].code, KEY_1);
}

#[test]
fn key_codes_follow_the_linux_table() {
    assert_eq!(digit_code(1), KEY_1);
    assert_eq!(digit_code(0), KEY_0);
    assert_eq!(letter_code('a'), KEY_A);
    assert_eq!(letter_code('z'), KEY_Z);
    assert_eq!(KEY_A, evdev::KeyCode::KEY_A.code());
    assert_eq!(KEY_Z, evdev::KeyCode::KEY_Z.code());
    assert_eq!(KEY_0, evdev::KeyCode::KEY_0.code());
    assert_eq!(hyprcoop::osk::KEY_LEFTSHIFT, evdev::KeyCode::KEY_LEFTSHIFT.code());
    assert_eq!(hyprcoop::osk::KEY_SPACE, evdev::KeyCode::KEY_SPACE.code());
    let codes = all_keycodes();
    assert!(codes.contains(&KEY_A));
}

#[test]
fn shifted_grid_shows_upper_forms() {
    let mut osk = Osk::new(0, None);
    osk.on_button(PadButton::Shift);
    let grid = osk.grid();
    assert_eq!(grid[0][0].0, "!");
    assert_eq!(grid[1][0].0, "Q");
    assert_eq!(grid[4][2].0, "Done");
}

#[test]
fn virtual_keyboard_keys_are_distinct_and_cover_the_grid() {
    let codes = all_keycodes();
    assert_eq!(codes.len(), 46);
    let mut sorted = codes.clone();
    sorted.sort();
    sorted.dedup();
    assert_eq!(sorted.len(), 46, "no code twice");
    // Type every character of every row, shifted and not.
    for shifted in [false, true] {
        for row in 0..4 {
            let mut osk = Osk::new(0, None);
            if shifted {
                osk.on_button(PadButton::Shift);
            }
            for _ in 0..row {
                osk.on_button(PadButton::Down);
            }
            for _ in 0..osk.grid()[row].len() {
                osk.on_button(PadButton::Accept);
                osk.on_button(PadButton::Right);
            }
            for stroke in osk.strokes() {
                assert!(codes.contains(&stroke.code), "code {} not replayable", stroke.code);
            }
        }
    }
}
