//! Hyprland commands, event parsing and the session guard.

use hyprcoop::hypr::{
    active_window, addr, batch_arg, batch_rejected, dismiss_osk_terminal, focus_window,
    own_window, parse_event, parse_ppid, present_osk_terminal, session_rules, window_pid,
    Client, DesktopAction, HyprEvent, SessionGuard, WorkspaceInfo,
};

fn client(address: &str, pid: i32) -> Client {
    Client {
        address: address.to_string(),
        pid,
        class: "game".to_string(),
        title: "Game".to_string(),
        tags: Vec::new(),
        workspace: None,
    }
}

fn hyprctl_args(a: &DesktopAction) -> Option<Vec<String>> {
    match a {
        DesktopAction::Hyprctl(args) => Some(args.clone()),
        DesktopAction::ToggleWaybar => None,
    }
}

#[test]
fn addresses_get_exactly_one_hex_prefix() {
    assert_eq!(addr("55aa"), "address:0x55aa");
    assert_eq!(addr("0x55aa"), "address:0x55aa");
    assert_eq!(addr("0x0x1"), "address:0x1");
}

#[test]
fn focus_and_osk_terminal_batches() {
    assert_eq!(focus_window("0xab"), vec!["dispatch", "focuswindow", "address:0xab"]);
    let present = present_osk_terminal("ab");
    assert_eq!(present[0], "dispatch movetoworkspace name:coop,address:0xab");
    assert_eq!(present[4], "dispatch focuswindow address:0xab");
    assert_eq!(present.len(), 5);
    assert_eq!(
        dismiss_osk_terminal("ab", "3"),
        vec!["dispatch settiled address:0xab", "dispatch movetoworkspacesilent 3,address:0xab"]
    );
}

#[test]
fn batches_are_joined_with_semicolons() {
    let cmds = vec!["a".to_string(), "b c".to_string(), "d".to_string()];
    assert_eq!(batch_arg(&cmds), "a ; b c ; d");
    assert_eq!(batch_arg(&Vec::new()), "");
    assert_eq!(session_rules().len(), 7);
    assert_eq!(session_rules()[0], "keyword general:gaps_in 0");
}

#[test]
fn rejected_batches_are_recognised() {
    assert!(!batch_rejected("ok\nok\nok"));
    assert!(batch_rejected("ok\nInvalid field foo"));
    assert!(batch_rejected("windowrulev2 is DEPRECATED"));
    assert!(batch_rejected("Error: no such window"));
}

#[test]
fn open_and_close_window_events_parse() {
    match parse_event("openwindow>>80a1b2,3,steam_app_322330,Don't Starve Together") {
        Some(HyprEvent::OpenWindow(address, class)) => {
            assert_eq!(address, "80a1b2");
            assert_eq!(class, "steam_app_322330");
        }
        other => panic!("unexpected {other:?}"),
    }
    match parse_event("closewindow>>80a1b2") {
        Some(HyprEvent::CloseWindow(address)) => assert_eq!(address, "80a1b2"),
        other => panic!("unexpected {other:?}"),
    }
    assert!(parse_event("workspace>>2").is_none());
    assert!(parse_event("no separator here").is_none());
}

#[test]
fn parent_pid_is_read_from_status() {
    let status = "Name:\tbash\nState:\tS (sleeping)\nPid:\t4242\nPPid:\t  1234 \nTracerPid:\t0\n";
    assert_eq!(parse_ppid(status), Some(1234));
    assert_eq!(parse_ppid("Name:\tx\n"), None);
    assert_eq!(parse_ppid("PPid:\tabc\n"), None);
}

#[test]
fn own_window_and_window_pid_follow_pids_and_addresses() {
    let clients = vec![client("0x1", 10), client("0x2", 20)];
    assert_eq!(own_window(&clients, &[5, 20, 1]), Some("0x2".to_string()));
    assert_eq!(own_window(&clients, &[7]), None);
    assert_eq!(window_pid(&clients, "1"), Some(10));
    assert_eq!(window_pid(&clients, "0x2"), Some(20));
    assert_eq!(window_pid(&clients, "3"), None);
    assert_eq!(active_window(Some(client("0x9", 1))), Some("0x9".to_string()));
}

#[test]
fn restore_runs_once_and_undoes_the_session() {
    let mut guard =
        SessionGuard::apply(Some(WorkspaceInfo { id: 2, name: "2".to_string() }), true);
    let first = guard.restore();
    assert_eq!(first.len(), 3);
    assert_eq!(hyprctl_args(&first[0]), Some(vec!["reload".to_string()]));
    assert!(matches!(first[1], DesktopAction::ToggleWaybar));
    assert_eq!(
        hyprctl_args(&first[2]),
        Some(vec!["dispatch".to_string(), "workspace".to_string(), "2".to_string()])
    );
    assert!(guard.restore().is_empty(), "second restore does nothing");
}

#[test]
fn named_workspaces_are_restored_by_name() {
    let mut guard =
        SessionGuard::apply(Some(WorkspaceInfo { id: -98, name: "special:x".to_string() }), false);
    let actions = guard.restore();
    assert_eq!(actions.len(), 2, "waybar was not hidden");
    assert_eq!(
        hyprctl_args(&actions[1]),
        Some(vec!["dispatch".to_string(), "workspace".to_string(), "name:special:x".to_string()])
    );
}

#[test]
fn adopted_windows_are_tagged_and_moved() {
    let guard = SessionGuard::apply(None, false);
    let kbm = guard.adopt_window("0xab", true);
    assert_eq!(
        kbm,
        vec![
            "dispatch tagwindow +hyprcoop address:0xab",
            "dispatch settiled address:0xab",
            "dispatch movetoworkspace name:coop,address:0xab",
            "dispatch tagwindow +hyprcoop_kbm address:0xab",
        ]
    );
    assert_eq!(guard.adopt_window("ab", false).len(), 3);
}
