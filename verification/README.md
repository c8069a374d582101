# hyprcoop

A Hyprland split-screen launcher: several instances of one game, each in a
bubblewrap sandbox that sees only its own player's controller, tiled on a
dedicated workspace, with a controller-driven on-screen keyboard.

The decision-making part of the program is a library verified with Verus:

- `src/app.rs` — the launcher's state machine (game list, player slots,
  sessions, the on-screen keyboard's life cycle) and the invariant it keeps.
- `src/osk.rs` — the on-screen keyboard and the Start+Select hold that
  summons it.
- `src/input.rs` — gamepad buttons and d-pad hat edges.
- `src/hypr.rs` — Hyprland commands, event parsing and the session guard.
- `src/handler.rs`, `src/profiles.rs` — game handlers, per-player profiles,
  `{game_dir}`/`{home}` expansion and the INI patcher.
- `src/launch/` — sessions, the Goldberg shadow tree and settings files,
  and the sandbox command line.
- `src/text.rs`, `src/paths.rs` — text helpers and the few std and `dirs`
  calls the library makes.

`app/` is the program around it: terminal UI, evdev and uinput, hyprctl,
files and processes. `tests/` exercises the library on concrete values.
