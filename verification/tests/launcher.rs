//! The launcher's state machine: choosing a game, claiming player slots,
//! unplugging pads, and ending sessions.

use hyprcoop::app::{App, Key, KeyOutcome, Screen};
use hyprcoop::handler::{GameHandler, LoadedHandler};
use hyprcoop::input::{PadButton, PadEvent, PadInfo};
use hyprcoop::launch::Assignment;

fn handler(name: &str, short: &str, max_players: u8) -> GameHandler {
    GameHandler {
        name: name.to_string(),
        short: short.to_string(),
        steam_appid: 322330,
        exe: "bin64/game".to_string(),
        workdir: None,
        game_dirs: vec!["~/games/x".to_string()],
        window_class: None,
        config_dir: None,
        steam_api_lib: None,
        goldberg: false,
        env: Vec::new(),
        args: Vec::new(),
        max_players,
        config_patch: Vec::new(),
        copy_instead: Vec::new(),
        notes: None,
    }
}

fn loaded(name: &str, installed: bool) -> LoadedHandler {
    LoadedHandler {
        handler: handler(name, name, 2),
        game_dir: if installed { Some(format!("/games/{name}")) } else { None },
    }
}

fn pad(n: u32) -> PadInfo {
    PadInfo {
        event_path: format!("/dev/input/event{n}"),
        js_path: Some(format!("/dev/input/js{n}")),
        name: format!("Pad {n}"),
    }
}

fn press(path: &str, button: PadButton) -> PadEvent {
    PadEvent::Button { path: path.to_string(), button, pressed: true }
}

#[test]
fn selection_moves_and_stays_in_range() {
    let mut app = App::new(vec![loaded("A", true), loaded("B", true)]);
    assert_eq!(app.selected, 0);
    app.on_key(Key::Up);
    assert_eq!(app.selected, 0);
    app.on_key(Key::Down);
    app.on_key(Key::Char('j'));
    assert_eq!(app.selected, 1);
    app.on_key(Key::Char('k'));
    assert_eq!(app.selected, 0);
}

#[test]
fn uninstalled_game_stays_on_the_list() {
    let mut app = App::new(vec![loaded("Missing", false)]);
    assert!(matches!(app.on_key(Key::Enter), KeyOutcome::Nothing));
    assert_eq!(app.screen, Screen::GameSelect);
    assert_eq!(app.status, "Missing is not installed");
}

#[test]
fn pads_claim_slots_once_and_keyboard_once() {
    let mut app = App::new(vec![loaded("A", true)]);
    app.on_key(Key::Enter);
    assert_eq!(app.screen, Screen::PlayerSetup);
    app.on_pad_event(PadEvent::Added(pad(3)), 0);
    app.on_pad_event(PadEvent::Added(pad(3)), 0);
    assert_eq!(app.pads.len(), 1, "a pad is listed once");
    app.on_pad_event(press("/dev/input/event3", PadButton::Accept), 10);
    app.on_pad_event(press("/dev/input/event3", PadButton::Back), 20);
    assert_eq!(app.slots.len(), 1, "a pad claims one slot");
    assert_eq!(app.status, "player 1 ← Pad 3");
    app.on_key(Key::Char('m'));
    assert_eq!(app.slots.len(), 2);
    assert!(matches!(app.slots[1], Assignment::Kbm));
    app.on_key(Key::Char('m'));
    assert_eq!(app.slots.len(), 2);
    assert_eq!(app.status, "keyboard + mouse is already assigned");
}

#[test]
fn slots_are_capped_by_the_handler() {
    let mut app = App::new(vec![loaded("A", true)]);
    app.on_key(Key::Enter);
    for n in 0..3 {
        app.on_pad_event(PadEvent::Added(pad(n)), 0);
        app.on_pad_event(press(&format!("/dev/input/event{n}"), PadButton::Accept), 1);
    }
    assert_eq!(app.slots.len(), 2, "max_players is 2");
    app.on_key(Key::Char('m'));
    assert_eq!(app.status, "all player slots are full");
}

#[test]
fn unplugging_a_claimed_pad_frees_its_slot() {
    let mut app = App::new(vec![loaded("A", true)]);
    app.on_key(Key::Enter);
    app.on_pad_event(PadEvent::Added(pad(1)), 0);
    app.on_pad_event(press("/dev/input/event1", PadButton::Accept), 1);
    assert_eq!(app.slots.len(), 1);
    app.on_pad_event(PadEvent::Removed("/dev/input/event1".to_string()), 2);
    assert!(app.slots.is_empty());
    assert!(app.pads.is_empty());
    assert_eq!(app.status, "a claimed controller was unplugged");
}

#[test]
fn enter_needs_a_player_and_then_starts_a_session() {
    let mut app = App::new(vec![loaded("A", true)]);
    app.on_key(Key::Enter);
    assert!(matches!(app.on_key(Key::Enter), KeyOutcome::Nothing));
    assert_eq!(app.status, "assign at least one player first");
    app.on_key(Key::Char('m'));
    assert!(matches!(app.on_key(Key::Enter), KeyOutcome::StartSession));
}

#[test]
fn backspace_removes_the_last_player_and_esc_goes_back() {
    let mut app = App::new(vec![loaded("A", true)]);
    app.on_key(Key::Enter);
    app.on_key(Key::Char('m'));
    app.on_key(Key::Backspace);
    assert!(app.slots.is_empty());
    assert_eq!(app.status, "removed last player");
    app.on_key(Key::Esc);
    assert_eq!(app.screen, Screen::GameSelect);
}

#[test]
fn q_quits_from_the_game_list() {
    let mut app = App::new(vec![loaded("A", true)]);
    app.on_key(Key::Char('q'));
    assert!(app.should_quit);
}
