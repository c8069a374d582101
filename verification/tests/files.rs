//! Text helpers, INI patching, handler lists, Goldberg settings files and
//! the sandbox command line.

use hyprcoop::handler::{
    collect_handlers, default_max_players, expand_env_with, expand_tilde, expand_tilde_with,
    first_installed,
    GameHandler, LoadedHandler,
};
use hyprcoop::input::PadInfo;
use hyprcoop::launch::goldberg::{
    configs_user_ini, contains_dir, custom_broadcasts, goldberg_so_under, pick_release_libs,
    real_dirs, sanitize, shadow_dir,
};
use hyprcoop::launch::sandbox::{is_hidraw_name, sandbox_args, sandbox_env, SandboxSpec};
use hyprcoop::launch::{
    check_launch, goldberg_api_lib, input_nodes, instance_spec_with, Assignment, LaunchError,
};
use hyprcoop::profiles::{
    config_bind_path, expand_step, hyprcoop_dir, patch_ini_text, pattern_components,
    profile_name, profile_path,
};
use hyprcoop::text::{
    decimal_string, eq_ignore_case, find_pattern, parse_u32, replace, split_lines, text_lt,
    trim_chars,
};

fn chars(s: &str) -> Vec<char> {
    s.chars().collect()
}

fn strings(v: &[&str]) -> Vec<String> {
    v.iter().map(|s| s.to_string()).collect()
}

fn handler(name: &str, short: &str) -> GameHandler {
    GameHandler {
        name: name.to_string(),
        short: short.to_string(),
        steam_appid: 322330,
        exe: "bin64/game".to_string(),
        workdir: None,
        game_dirs: Vec::new(),
        window_class: None,
        config_dir: None,
        steam_api_lib: None,
        goldberg: false,
        env: Vec::new(),
        args: Vec::new(),
        max_players: default_max_players(),
        config_patch: Vec::new(),
        copy_instead: Vec::new(),
        notes: None,
    }
}

#[test]
fn text_helpers() {
    assert_eq!(trim_chars(&chars("  a b \t")), chars("a b"));
    assert!(eq_ignore_case(&chars("[Misc]"), &chars("[MISC]")));
    assert!(!eq_ignore_case(&chars("ab"), &chars("abc")));
    assert_eq!(find_pattern(&chars("a>>b>>c"), &chars(">>")), Some(1));
    assert_eq!(find_pattern(&chars("abc"), &chars("x")), None);
    assert_eq!(parse_u32(&chars("4294967295")), Some(u32::MAX));
    assert_eq!(parse_u32(&chars("4294967296")), None);
    assert_eq!(parse_u32(&chars("+7")), Some(7));
    assert_eq!(parse_u32(&chars("")), None);
    assert_eq!(decimal_string(0), "0");
    assert_eq!(decimal_string(47584), "47584");
    assert_eq!(split_lines(&chars("a\r\nb\n\nc")), vec![chars("a"), chars("b"), chars(""), chars("c")]);
    assert!(text_lt(&chars("Abc"), &chars("abc")));
    assert!(text_lt(&chars("ab"), &chars("abc")));
    assert!(!text_lt(&chars("abc"), &chars("abc")));
}

#[test]
fn replace_is_left_to_right_and_non_overlapping() {
    assert_eq!(replace(&chars("aaa"), &chars("aa"), &chars("b")), chars("ba"));
    assert_eq!(replace(&chars("x{home}/{home}"), &chars("{home}"), &chars("/h")), chars("x/h//h"));
    assert_eq!(replace(&chars("none"), &chars("zz"), &chars("y")), chars("none"));
}

#[test]
fn ini_patch_creates_a_missing_section() {
    let set = vec![("fullscreen".to_string(), "false".to_string())];
    assert_eq!(patch_ini_text("", "graphics", &set), "[graphics]\nfullscreen = false\n");
    assert_eq!(
        patch_ini_text("a=1\n", "graphics", &set),
        "a=1\n\n[graphics]\nfullscreen = false\n"
    );
}

#[test]
fn ini_patch_updates_keys_in_place_and_keeps_the_rest() {
    let text = "; top\n[GRAPHICS]\nFullscreen=true\nwidth = 800\n[misc]\nfullscreen=true\n";
    let set = vec![
        ("fullscreen".to_string(), "false".to_string()),
        ("vsync".to_string(), "1".to_string()),
    ];
    assert_eq!(
        patch_ini_text(text, "graphics", &set),
        "; top\n[GRAPHICS]\nvsync = 1\nFullscreen = false\nwidth = 800\n[misc]\nfullscreen=true\n"
    );
}

#[test]
fn tilde_and_env_expansion() {
    assert_eq!(expand_tilde_with("~/.klei", &Some("/home/p".to_string())), "/home/p/.klei");
    assert_eq!(expand_tilde_with("~/.klei", &None), "~/.klei");
    assert_eq!(expand_tilde_with("/opt/x", &Some("/home/p".to_string())), "/opt/x");
    assert_eq!(expand_tilde("/abs/path"), "/abs/path");
    assert_eq!(
        expand_env_with("{game_dir}/lib:{home}/.x:{game_dir}", "/g", "/home/p"),
        "/g/lib:/home/p/.x:/g"
    );
    assert_eq!(expand_env_with("plain", "/g", "/h"), "plain");
}

#[test]
fn handlers_keep_the_first_short_name_and_sort_by_name() {
    let found = vec![
        LoadedHandler { handler: handler("Zeta", "z"), game_dir: Some("/a".to_string()) },
        LoadedHandler { handler: handler("Alpha", "a"), game_dir: None },
        LoadedHandler { handler: handler("Zeta later", "z"), game_dir: Some("/b".to_string()) },
        LoadedHandler { handler: handler("Mid", "m"), game_dir: None },
    ];
    let list = collect_handlers(found).expect("some handlers");
    let names: Vec<&str> = list.iter().map(|h| h.handler.name.as_str()).collect();
    assert_eq!(names, vec!["Alpha", "Mid", "Zeta"]);
    assert_eq!(list[2].game_dir, Some("/a".to_string()), "the first z wins");
    assert!(collect_handlers(Vec::new()).is_none());
    assert_eq!(default_max_players(), 4);
}

#[test]
fn goldberg_settings_files() {
    let ini = configs_user_ini(1, "/p/player2/gse-saves");
    assert_eq!(
        ini,
        "[user::general]\naccount_name=Player2\naccount_steamid=76561198000000001\n\
         [user::saves]\nlocal_save_path=/p/player2/gse-saves\n"
    );
    let broadcasts = custom_broadcasts();
    let lines: Vec<&str> = broadcasts.lines().collect();
    assert_eq!(lines.len(), 10, "expected the full query port range: {broadcasts}");
    assert_eq!(lines[0], "127.0.0.1:47584");
    assert_eq!(lines[9], "127.0.0.1:47593");
    assert!(broadcasts.ends_with('\n'));
}

#[test]
fn shadow_names_and_real_dirs() {
    assert_eq!(sanitize("/games/Don't Starve Together"), "Don_t_Starve_Together");
    assert_eq!(sanitize("/"), "game");
    assert_eq!(shadow_dir("/d", "/games/dst", 3), "/d/shadow/dst-3");
    assert_eq!(goldberg_so_under("/d"), "/d/goldberg/libsteam_api.so");
    let dirs = real_dirs("bin64/game_x64", "bin64/lib64/libsteam_api.so");
    assert_eq!(dirs, vec![strings(&["bin64"]), strings(&["bin64", "lib64"])]);
    assert!(contains_dir(&dirs, &strings(&["bin64", "lib64"])));
    assert!(!contains_dir(&dirs, &strings(&["lib64"])));
    assert!(real_dirs("game", "libsteam_api.so").is_empty());
}

#[test]
fn release_libraries_are_picked_by_kind() {
    let files = strings(&[
        "/t/release/x32/libsteam_api.so",
        "/t/release/regular/x64/libsteam_api.so",
        "/t/release/experimental/x64/libsteam_api.so",
        "/t/release/regular/x64/readme.txt",
    ]);
    let (regular, experimental) = pick_release_libs(&files);
    assert_eq!(regular, Some("/t/release/regular/x64/libsteam_api.so".to_string()));
    assert_eq!(experimental, Some("/t/release/experimental/x64/libsteam_api.so".to_string()));
    let (none, none2) = pick_release_libs(&strings(&["/t/a.so"]));
    assert!(none.is_none() && none2.is_none());
}

#[test]
fn sandbox_masks_input_and_hidraw() {
    let spec = SandboxSpec {
        input_nodes: strings(&["/dev/input/event5", "/dev/input/js1"]),
        binds: vec![("/p/.klei".to_string(), "/home/u/.klei".to_string())],
        env: vec![("K".to_string(), "V".to_string())],
        workdir: "/g".to_string(),
        command: strings(&["/g/bin", "-x"]),
    };
    let args = sandbox_args(&spec, &strings(&["/dev/hidraw0"]));
    let expected = strings(&[
        "--die-with-parent", "--dev-bind", "/", "/", "--tmpfs", "/dev/input",
        "--dev-bind", "/dev/input/event5", "/dev/input/event5",
        "--dev-bind", "/dev/input/js1", "/dev/input/js1",
        "--dev-bind", "/dev/null", "/dev/hidraw0",
        "--bind", "/p/.klei", "/home/u/.klei",
        "--", "/g/bin", "-x",
    ]);
    assert_eq!(args, expected);
    let env = sandbox_env(&spec);
    assert_eq!(env[0], ("SDL_JOYSTICK_HIDAPI".to_string(), "0".to_string()));
    assert_eq!(env[1], ("SDL_JOYSTICK_ALLOW_BACKGROUND_EVENTS".to_string(), "1".to_string()));
    assert_eq!(env[2], ("K".to_string(), "V".to_string()));
    assert!(is_hidraw_name("hidraw12"));
    assert!(!is_hidraw_name("hid"));
    assert!(!is_hidraw_name("input"));
}

#[test]
fn instance_plan_for_a_pad_player() {
    let mut h = handler("Game", "g");
    h.workdir = Some("bin64".to_string());
    h.env = vec![("LD".to_string(), "{game_dir}/lib:{home}".to_string())];
    h.args = strings(&["-windowed"]);
    let pad = PadInfo {
        event_path: "/dev/input/event4".to_string(),
        js_path: None,
        name: "Pad".to_string(),
    };
    let spec = instance_spec_with(&h, "/shadow/g-0", "/home/u", &Assignment::Pad(pad), Vec::new());
    assert_eq!(spec.input_nodes, strings(&["/dev/input/event4"]));
    assert_eq!(spec.workdir, "/shadow/g-0/bin64");
    assert_eq!(spec.command, strings(&["/shadow/g-0/bin64/game", "-windowed"]));
    assert_eq!(spec.env, vec![("LD".to_string(), "/shadow/g-0/lib:/home/u".to_string())]);
    assert!(input_nodes(&Assignment::Kbm).is_empty());
}

#[test]
fn launch_checks() {
    let not_installed = LoadedHandler { handler: handler("Game", "g"), game_dir: None };
    let err = check_launch(&not_installed, &[Assignment::Kbm]).unwrap_err();
    assert_eq!(err, LaunchError::NotInstalled("Game".to_string()));
    assert_eq!(err.message(), "Game is not installed");
    let installed = LoadedHandler { handler: handler("Game", "g"), game_dir: Some("/g".to_string()) };
    assert_eq!(check_launch(&installed, &[]).unwrap_err().message(), "no players assigned");
    assert_eq!(check_launch(&installed, &[Assignment::Kbm]), Ok("/g".to_string()));
    assert_eq!(goldberg_api_lib(&handler("Game", "g")), Err(LaunchError::NoSteamApiLib));
    assert_eq!(
        LaunchError::NoSteamApiLib.message(),
        "handler has goldberg=true but no steam_api_lib"
    );
}

#[test]
fn profile_paths_and_patterns() {
    assert_eq!(profile_name(1), "player2");
    assert_eq!(profile_path("/d/hyprcoop", "player2"), "/d/hyprcoop/profiles/player2");
    assert_eq!(hyprcoop_dir("/d"), "/d/hyprcoop");
    assert_eq!(hyprcoop_dir("/d/"), "/d/hyprcoop");
    assert_eq!(hyprcoop_dir(""), "hyprcoop");
    assert_eq!(config_bind_path("/p", "/home/u/.klei"), "/p/.klei");
    assert_eq!(config_bind_path("/p", "/"), "/p/config");
    assert_eq!(pattern_components("a/*/client.ini"), strings(&["a", "*", "client.ini"]));
    assert_eq!(pattern_components(""), strings(&[""]));
    let cands = strings(&["/r/a", "/r/b"]);
    assert_eq!(expand_step(&cands, "x", &Vec::new()), strings(&["/r/a/x", "/r/b/x"]));
    let listings = vec![strings(&["/r/a/1", "/r/a/2"]), strings(&[])];
    assert_eq!(expand_step(&cands, "*", &listings), strings(&["/r/a/1", "/r/a/2"]));
}

#[test]
fn instances_get_distinct_identities() {
    let a = configs_user_ini(0, "/s");
    let b = configs_user_ini(1, "/s");
    assert!(a.contains("account_name=Player1\n"));
    assert!(a.contains("account_steamid=76561198000000000\n"));
    assert!(b.contains("account_name=Player2\n"));
    assert_ne!(a, b);
}

#[test]
fn patched_settings_read_back_whatever_their_case() {
    let text = "[Other]\nvsync=0\n[Graphics]\nVSYNC = 1\nfullscreen=true\n";
    let set = vec![("vsync".to_string(), "0".to_string()), ("width".to_string(), "800".to_string())];
    let patched = patch_ini_text(text, "graphics", &set);
    assert_eq!(
        patched,
        "[Other]\nvsync=0\n[Graphics]\nwidth = 800\nVSYNC = 0\nfullscreen=true\n"
    );
    // Patching again with the same settings changes nothing more.
    assert_eq!(patch_ini_text(&patched, "graphics", &set), patched);
}

#[test]
fn patching_twice_keeps_values_as_given() {
    let text = "[graphics]\r\nname =  old \r\n";
    let set = vec![
        ("name".to_string(), "  padded  ".to_string()),
        ("mode".to_string(), "cr\r".to_string()),
    ];
    let patched = patch_ini_text(text, "graphics", &set);
    assert_eq!(patched, "[graphics]\nmode = cr\r\nname =   padded  \n");
    assert_eq!(patch_ini_text(&patched, "graphics", &set), patched);
}

#[test]
fn sandbox_masks_hidraw_and_sets_sdl_env() {
    let spec = SandboxSpec {
        input_nodes: vec![],
        binds: vec![],
        env: vec![],
        workdir: "/".to_string(),
        command: vec![
            "sh".into(),
            "-c".into(),
            "echo hidapi=$SDL_JOYSTICK_HIDAPI; for f in /dev/hidraw*; do \
             [ -e \"$f\" ] && stat -c '%n %t:%T' \"$f\"; done"
                .into(),
        ],
    };
    let env = sandbox_env(&spec);
    assert!(
        env.contains(&("SDL_JOYSTICK_HIDAPI".to_string(), "0".to_string())),
        "SDL_JOYSTICK_HIDAPI not set: {env:?}"
    );
    // Every hidraw node present is replaced by /dev/null inside the sandbox.
    let hidraw = strings(&["/dev/hidraw0", "/dev/hidraw3"]);
    let args = sandbox_args(&spec, &hidraw);
    for node in &hidraw {
        let masked = args
            .windows(3)
            .any(|w| w[0] == "--dev-bind" && w[1] == "/dev/null" && &w[2] == node);
        assert!(masked, "hidraw node not masked with /dev/null: {node}");
    }
    // With no pad assigned, nothing else is bound under /dev/input.
    assert!(!args.iter().any(|a| a.starts_with("/dev/input/")));
    assert_eq!(args.last().map(String::as_str), Some(spec.command[2].as_str()));
}

#[test]
fn the_first_existing_install_location_wins() {
    let dirs = strings(&["/a", "/b", "/c"]);
    assert_eq!(first_installed(&dirs, &vec![false, true, true]), Some("/b".to_string()));
    assert_eq!(first_installed(&dirs, &vec![false, false, false]), None);
}

#[test]
fn replacing_the_empty_pattern_fills_every_gap() {
    assert_eq!(replace(&chars("abc"), &chars(""), &chars("x")), chars("xaxbxcx"));
    assert_eq!(replace(&chars(""), &chars(""), &chars("x")), chars("x"));
    assert_eq!("abc".replace("", "x"), "xaxbxcx");
}
