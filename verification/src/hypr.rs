//! Hyprland: window rules, the co-op workspace, the commands that move
//! windows around, and what to restore when a session ends.

use vstd::prelude::*;

use crate::text::{
    chars_of, contains, contains_seq, decimal, find, find_char, find_pattern, find_seq,
    lemma_find_char, lowercase, push_decimal, push_str, strip_hex_prefix, string_of,
    to_lowercase, trim, trim_chars, trim_hex_prefix, slice_chars, seq_eq, strip_prefix,
    strip_prefix_spec,
};

verus! {

/// Tag given to every adopted game window.
pub const TAG_ALL: &'static str = "hyprcoop";

/// Tag given to the keyboard+mouse player's window.
pub const TAG_KBM: &'static str = "hyprcoop_kbm";

/// The dedicated co-op workspace.
pub const WORKSPACE: &'static str = "coop";

/// A window as `hyprctl -j clients` reports it.
#[derive(Debug, Clone)]
pub struct Client {
    pub address: String,
    pub pid: i32,
    pub class: String,
    pub title: String,
    pub tags: Vec<String>,
    pub workspace: Option<WorkspaceRef>,
}

#[derive(Debug, Clone)]
pub struct WorkspaceRef {
    pub id: i32,
    pub name: String,
}

/// The active workspace as `hyprctl -j activeworkspace` reports it.
#[derive(Debug, Clone)]
pub struct WorkspaceInfo {
    pub id: i32,
    pub name: String,
}

/// Name of the active workspace, if it could be read (for returning windows
/// to it).
pub fn active_workspace_name(active: Option<WorkspaceInfo>) -> (r: Option<String>)
    ensures
        r == match active {
            Some(ws) => Some(ws.name),
            None => None,
        },
{
    match active {
        Some(ws) => Some(ws.name),
        None => None,
    }
}

/// The address of the focused window as reported by `hyprctl -j
/// activewindow`: none when nothing is focused (empty address).
pub fn active_window(client: Option<Client>) -> (r: Option<String>)
    ensures
        r == match client {
            Some(c) => if c.address@.len() == 0 {
                None
            } else {
                Some(c.address)
            },
            None => None,
        },
{
    match client {
        Some(c) => if c.address.as_str().is_empty() {
            None
        } else {
            Some(c.address)
        },
        None => None,
    }
}

/// `address:0x<hex>` for a window address given with or without `0x`.
pub open spec fn addr_spec(address: Seq<char>) -> Seq<char> {
    "address:0x"@ + strip_hex_prefix(address)
}

/// The window selector for an address (see [`addr_spec`]).
pub fn addr(address: &str) -> (r: String)
    ensures
        r@ == addr_spec(address@),
{
    let mut r = "address:0x".to_string();
    let a = chars_of(address);
    let hex = trim_hex_prefix(a.as_slice());
    push_str(&mut r, string_of(hex.as_slice()).as_str());
    r
}

/// `prefix` followed by `rest`, as a new string.
fn cat(prefix: &str, rest: &str) -> (r: String)
    ensures
        r@ == prefix@ + rest@,
{
    let mut r = prefix.to_string();
    push_str(&mut r, rest);
    r
}

/// The hyprctl arguments that focus a window.
pub open spec fn focus_window_spec(address: Seq<char>) -> Seq<Seq<char>> {
    seq!["dispatch"@, "focuswindow"@, addr_spec(address)]
}

/// The hyprctl arguments that focus a window (`dispatch focuswindow`).
pub fn focus_window(address: &str) -> (r: Vec<String>)
    ensures
        r@.map_values(|s: String| s@) == focus_window_spec(address@),
{
    let r = vec!["dispatch".to_string(), "focuswindow".to_string(), addr(address)];
    assert(r@.map_values(|s: String| s@) =~= focus_window_spec(address@));
    r
}

/// The batch that floats the launcher's terminal on the co-op workspace,
/// sizes and centres it, and focuses it so the on-screen keyboard is visible
/// over the games.
pub open spec fn present_osk_terminal_spec(address: Seq<char>) -> Seq<Seq<char>> {
    let a = addr_spec(address);
    seq![
        "dispatch movetoworkspace name:coop,"@ + a,
        "dispatch setfloating "@ + a,
        "dispatch resizewindowpixel exact 60% 55%,"@ + a,
        "dispatch centerwindow "@ + a,
        "dispatch focuswindow "@ + a,
    ]
}

/// The batch of [`present_osk_terminal_spec`].
pub fn present_osk_terminal(address: &str) -> (r: Vec<String>)
    ensures
        r@.map_values(|s: String| s@) == present_osk_terminal_spec(address@),
{
    let a = addr(address);
    let r = vec![
        cat("dispatch movetoworkspace name:coop,", a.as_str()),
        cat("dispatch setfloating ", a.as_str()),
        cat("dispatch resizewindowpixel exact 60% 55%,", a.as_str()),
        cat("dispatch centerwindow ", a.as_str()),
        cat("dispatch focuswindow ", a.as_str()),
    ];
    assert(r@.map_values(|s: String| s@) =~= present_osk_terminal_spec(address@));
    r
}

/// Undoing [`present_osk_terminal_spec`]: retile the terminal and send it
/// back to a workspace without following it.
pub open spec fn dismiss_osk_terminal_spec(address: Seq<char>, workspace: Seq<char>) -> Seq<
    Seq<char>,
> {
    let a = addr_spec(address);
    seq!["dispatch settiled "@ + a, "dispatch movetoworkspacesilent "@ + workspace + ","@ + a]
}

/// The batch of [`dismiss_osk_terminal_spec`].
pub fn dismiss_osk_terminal(address: &str, workspace: &str) -> (r: Vec<String>)
    ensures
        r@.map_values(|s: String| s@) == dismiss_osk_terminal_spec(address@, workspace@),
{
    let a = addr(address);
    let mut second = cat("dispatch movetoworkspacesilent ", workspace);
    push_str(&mut second, ",");
    push_str(&mut second, a.as_str());
    let r = vec![cat("dispatch settiled ", a.as_str()), second];
    assert(r@.map_values(|s: String| s@) =~= dismiss_osk_terminal_spec(address@, workspace@));
    r
}

/// The keywords a session applies: no gaps, borders or rounding, and window
/// rules for tagged game windows (Hyprland ≥0.53 syntax).
pub open spec fn session_rules_spec() -> Seq<Seq<char>> {
    seq![
        "keyword general:gaps_in 0"@,
        "keyword general:gaps_out 0"@,
        "keyword general:border_size 0"@,
        "keyword decoration:rounding 0"@,
        "keyword windowrule suppress_event fullscreen maximize, match:tag hyprcoop"@,
        "keyword windowrule idle_inhibit always, match:tag hyprcoop"@,
        "keyword windowrule stay_focused on, match:tag hyprcoop_kbm"@,
    ]
}

/// The batch of [`session_rules_spec`].
pub fn session_rules() -> (r: Vec<String>)
    ensures
        r@.map_values(|s: String| s@) == session_rules_spec(),
{
    let r = vec![
        "keyword general:gaps_in 0".to_string(),
        "keyword general:gaps_out 0".to_string(),
        "keyword general:border_size 0".to_string(),
        "keyword decoration:rounding 0".to_string(),
        "keyword windowrule suppress_event fullscreen maximize, match:tag hyprcoop".to_string(),
        "keyword windowrule idle_inhibit always, match:tag hyprcoop".to_string(),
        "keyword windowrule stay_focused on, match:tag hyprcoop_kbm".to_string(),
    ];
    assert(r@.map_values(|s: String| s@) =~= session_rules_spec());
    r
}

/// The batch that adopts a new game window: tag it, tile it, move it to the
/// co-op workspace, and tag it as the keyboard+mouse window if it is.
pub open spec fn adopt_window_spec(address: Seq<char>, kbm: bool) -> Seq<Seq<char>> {
    let a = addr_spec(address);
    let base = seq![
        "dispatch tagwindow +hyprcoop "@ + a,
        "dispatch settiled "@ + a,
        "dispatch movetoworkspace name:coop,"@ + a,
    ];
    if kbm {
        base.push("dispatch tagwindow +hyprcoop_kbm "@ + a)
    } else {
        base
    }
}

/// Whether a batch reply reports a rejected command: hyprctl exits 0 even for
/// rejected keywords, so its lower-cased output is searched for `invalid`,
/// `deprecated` or `error` (every accepted command just echoes `ok`).
pub open spec fn batch_rejected_spec(out: Seq<char>) -> bool {
    let lower = lowercase(out);
    contains_seq(lower, "invalid"@) || contains_seq(lower, "deprecated"@) || contains_seq(
        lower,
        "error"@,
    )
}

/// Decides [`batch_rejected_spec`] for a reply.
pub fn batch_rejected(out: &str) -> (r: bool)
    ensures
        r == batch_rejected_spec(out@),
{
    let lower = to_lowercase(out);
    let l = chars_of(lower.as_str());
    let invalid = chars_of("invalid");
    let deprecated = chars_of("deprecated");
    let error = chars_of("error");
    contains(l.as_slice(), invalid.as_slice()) || contains(l.as_slice(), deprecated.as_slice())
        || contains(l.as_slice(), error.as_slice())
}

/// Commands joined by ` ; ` into one `hyprctl --batch` argument.
pub open spec fn batch_arg_spec(commands: Seq<Seq<char>>) -> Seq<char>
    decreases commands.len(),
{
    if commands.len() == 0 {
        seq![]
    } else if commands.len() == 1 {
        commands[0]
    } else {
        batch_arg_spec(commands.drop_last()) + " ; "@ + commands.last()
    }
}

/// The `--batch` argument for commands (see [`batch_arg_spec`]).
pub fn batch_arg(commands: &Vec<String>) -> (r: String)
    ensures
        r@ == batch_arg_spec(commands@.map_values(|s: String| s@)),
{
    let ghost cs = commands@.map_values(|s: String| s@);
    let mut r = String::new();
    let mut i: usize = 0;
    while i < commands.len()
        invariant
            i <= commands@.len(),
            cs == commands@.map_values(|s: String| s@),
            r@ == batch_arg_spec(cs.take(i as int)),
        decreases commands@.len() - i,
    {
        if i > 0 {
            push_str(&mut r, " ; ");
        }
        push_str(&mut r, commands[i].as_str());
        assert(cs.take(i + 1).drop_last() =~= cs.take(i as int));
        if i == 0 {
            assert(r@ =~= batch_arg_spec(cs.take(1)));
        }
        i = i + 1;
    }
    assert(cs.take(commands@.len() as int) =~= cs);
    r
}

} // verus!

verus! {

/// Something to do to the desktop: run `hyprctl` with arguments, or toggle
/// waybar's visibility.
#[derive(Debug, Clone)]
pub enum DesktopAction {
    Hyprctl(Vec<String>),
    ToggleWaybar,
}

/// A [`DesktopAction`] as plain text.
pub enum ActionView {
    Hyprctl(Seq<Seq<char>>),
    ToggleWaybar,
}

pub open spec fn action_view(a: DesktopAction) -> ActionView {
    match a {
        DesktopAction::Hyprctl(args) => ActionView::Hyprctl(args@.map_values(|s: String| s@)),
        DesktopAction::ToggleWaybar => ActionView::ToggleWaybar,
    }
}

/// What a [`SessionGuard`] remembers.
pub struct GuardView {
    /// The workspace to return to (`hyprctl dispatch workspace` argument).
    pub original_workspace: Option<Seq<char>>,
    /// Whether waybar was hidden (and so must be shown again).
    pub waybar_hidden: bool,
    /// Whether the desktop has been restored already.
    pub restored: bool,
}

/// How to name a workspace to jump back to it: its id when positive, else
/// `name:<name>` (special and named workspaces).
pub open spec fn workspace_selector(ws: WorkspaceInfo) -> Seq<char> {
    if ws.id > 0 {
        decimal(ws.id as nat)
    } else {
        "name:"@ + ws.name@
    }
}

/// A fresh guard for the workspace that was active and whether hiding
/// waybar worked.
pub open spec fn guard_applied(active: Option<WorkspaceInfo>, waybar_hidden: bool) -> GuardView {
    GuardView {
        original_workspace: match active {
            Some(ws) => Some(workspace_selector(ws)),
            None => None,
        },
        waybar_hidden,
        restored: false,
    }
}

/// Restoring: the first time, reload the config (resetting every dynamic
/// keyword and rule), show waybar again if it was hidden, and jump back to
/// the original workspace; afterwards, nothing.
pub open spec fn guard_restore(v: GuardView) -> (GuardView, Seq<ActionView>) {
    if v.restored {
        (v, seq![])
    } else {
        let reload = seq![ActionView::Hyprctl(seq!["reload"@])];
        let waybar = if v.waybar_hidden {
            seq![ActionView::ToggleWaybar]
        } else {
            seq![]
        };
        let ws = match v.original_workspace {
            Some(w) => seq![ActionView::Hyprctl(seq!["dispatch"@, "workspace"@, w])],
            None => seq![],
        };
        (GuardView { restored: true, ..v }, reload + waybar + ws)
    }
}

/// Applies the co-op desktop state (see [`session_rules`]) and restores it
/// when the session ends: `hyprctl reload` resets all dynamic keywords and
/// rules to the user's config, waybar is toggled back, and the original
/// workspace is focused again.
#[derive(Debug)]
pub struct SessionGuard {
    original_workspace: Option<String>,
    waybar_hidden: bool,
    restored: bool,
}

impl View for SessionGuard {
    type V = GuardView;

    closed spec fn view(&self) -> GuardView {
        GuardView {
            original_workspace: match self.original_workspace {
                Some(w) => Some(w@),
                None => None,
            },
            waybar_hidden: self.waybar_hidden,
            restored: self.restored,
        }
    }
}

impl SessionGuard {
    /// The guard for a session applied while `active` was the active
    /// workspace, with waybar hidden or not.
    pub fn apply(active: Option<WorkspaceInfo>, waybar_hidden: bool) -> (g: SessionGuard)
        ensures
            g@ == guard_applied(active, waybar_hidden),
    {
        let original_workspace = match active {
            Some(ws) => if ws.id > 0 {
                let mut s = String::new();
                push_decimal(&mut s, ws.id as u128);
                assert(s@ =~= decimal(ws.id as nat));
                Some(s)
            } else {
                let mut s = "name:".to_string();
                push_str(&mut s, ws.name.as_str());
                Some(s)
            },
            None => None,
        };
        SessionGuard { original_workspace, waybar_hidden, restored: false }
    }

    /// The batch that adopts a newly opened game window (see
    /// [`adopt_window_spec`]).
    pub fn adopt_window(&self, address: &str, kbm: bool) -> (r: Vec<String>)
        ensures
            r@.map_values(|s: String| s@) == adopt_window_spec(address@, kbm),
    {
        let a = addr(address);
        let mut cmds = vec![
            cat("dispatch tagwindow +hyprcoop ", a.as_str()),
            cat("dispatch settiled ", a.as_str()),
            cat("dispatch movetoworkspace name:coop,", a.as_str()),
        ];
        if kbm {
            cmds.push(cat("dispatch tagwindow +hyprcoop_kbm ", a.as_str()));
        }
        assert(cmds@.map_values(|s: String| s@) =~= adopt_window_spec(address@, kbm));
        cmds
    }

    /// The actions that restore the desktop (see [`guard_restore`]); only the
    /// first call has any.
    pub fn restore(&mut self) -> (r: Vec<DesktopAction>)
        ensures
            (final(self)@, r@.map_values(|a: DesktopAction| action_view(a))) == guard_restore(old(self)@),
    {
        if self.restored {
            let r: Vec<DesktopAction> = Vec::new();
            assert(r@.map_values(|a: DesktopAction| action_view(a)) =~= Seq::<ActionView>::empty());
            return r;
        }
        self.restored = true;
        let mut actions: Vec<DesktopAction> = Vec::new();
        actions.push(DesktopAction::Hyprctl(vec!["reload".to_string()]));
        if self.waybar_hidden {
            actions.push(DesktopAction::ToggleWaybar);
        }
        if let Some(ws) = &self.original_workspace {
            actions.push(
                DesktopAction::Hyprctl(vec!["dispatch".to_string(), "workspace".to_string(), ws.clone()]),
            );
        }
        proof {
            let v = old(self)@;
            let expected = guard_restore(v).1;
            let got = actions@.map_values(|a: DesktopAction| action_view(a));
            assert(got.len() == expected.len());
            assert forall|i: int| 0 <= i < got.len() implies got[i] == expected[i] by {
                match got[i] {
                    ActionView::Hyprctl(args) => {
                        assert(args =~= expected[i]->Hyprctl_0);
                    },
                    _ => {},
                }
            }
            assert(got =~= expected);
        }
        actions
    }
}

/// Restoring twice does nothing the second time: the desktop is reset
/// exactly once per session, however often restore is asked for.
pub proof fn law_restore_once(v: GuardView)
    ensures
        guard_restore(guard_restore(v).0).1 == Seq::<ActionView>::empty(),
        guard_restore(guard_restore(v).0).0 == guard_restore(v).0,
{
}

} // verus!

verus! {

/// A window event from Hyprland's event socket.
#[derive(Debug, Clone)]
pub enum HyprEvent {
    /// address (without 0x prefix), class
    OpenWindow(String, String),
    CloseWindow(String),
}

/// A [`HyprEvent`] as plain text.
pub enum EventView {
    OpenWindow(Seq<char>, Seq<char>),
    CloseWindow(Seq<char>),
}

pub open spec fn event_view(e: HyprEvent) -> EventView {
    match e {
        HyprEvent::OpenWindow(a, c) => EventView::OpenWindow(a@, c@),
        HyprEvent::CloseWindow(a) => EventView::CloseWindow(a@),
    }
}

/// The address and class of an `openwindow` payload
/// `ADDRESS,WORKSPACENAME,CLASS,TITLE`: the first and third of at most four
/// comma-separated fields, the class empty when missing.
pub open spec fn open_window_fields(data: Seq<char>) -> (Seq<char>, Seq<char>) {
    match find_char(data, ',') {
        None => (data, seq![]),
        Some(i) => {
            let rest1 = data.skip(i + 1);
            (
                data.take(i),
                match find_char(rest1, ',') {
                    None => seq![],
                    Some(j) => {
                        let rest2 = rest1.skip(j + 1);
                        match find_char(rest2, ',') {
                            None => rest2,
                            Some(k) => rest2.take(k),
                        }
                    },
                },
            )
        },
    }
}

/// The event a socket line `EVENT>>DATA` carries: `openwindow` and
/// `closewindow` are understood; other events and lines without `>>` carry
/// none.
pub open spec fn parse_event_spec(line: Seq<char>) -> Option<EventView> {
    match find_seq(line, ">>"@) {
        None => None,
        Some(i) => {
            let event = line.take(i);
            let data = line.skip(i + 2);
            if event == "openwindow"@ {
                let (address, class) = open_window_fields(data);
                Some(EventView::OpenWindow(address, class))
            } else if event == "closewindow"@ {
                Some(EventView::CloseWindow(data))
            } else {
                None
            }
        },
    }
}

fn open_window_parts(data: &[char]) -> (r: (Vec<char>, Vec<char>))
    ensures
        (r.0@, r.1@) == open_window_fields(data@),
{
    proof {
        lemma_find_char(data@, ',');
    }
    match find(data, ',') {
        None => (crate::text::copy_chars(data), Vec::new()),
        Some(i) => {
            let n = data.len();
            let address = slice_chars(data, 0, i);
            let rest1 = slice_chars(data, i + 1, n);
            assert(rest1@ =~= data@.skip(i + 1));
            assert(address@ =~= data@.take(i as int));
            proof {
                lemma_find_char(rest1@, ',');
            }
            let class = match find(rest1.as_slice(), ',') {
                None => Vec::new(),
                Some(j) => {
                    let rest2 = slice_chars(rest1.as_slice(), j + 1, rest1.len());
                    assert(rest2@ =~= rest1@.skip(j + 1));
                    proof {
                        lemma_find_char(rest2@, ',');
                    }
                    match find(rest2.as_slice(), ',') {
                        None => rest2,
                        Some(k) => {
                            let c = slice_chars(rest2.as_slice(), 0, k);
                            assert(c@ =~= rest2@.take(k as int));
                            c
                        },
                    }
                },
            };
            assert(class@ == open_window_fields(data@).1);
            (address, class)
        },
    }
}

/// The event named `event` with payload `data`.
fn event_of(event: &[char], data: &[char]) -> (r: Option<HyprEvent>)
    ensures
        match r {
            Some(e) => {
                if event@ == "openwindow"@ {
                    event_view(e) == EventView::OpenWindow(
                        open_window_fields(data@).0,
                        open_window_fields(data@).1,
                    )
                } else {
                    event@ == "closewindow"@ && event_view(e) == EventView::CloseWindow(data@)
                }
            },
            None => event@ != "openwindow"@ && event@ != "closewindow"@,
        },
{
    let open = chars_of("openwindow");
    let close = chars_of("closewindow");
    if seq_eq(event, open.as_slice()) {
        let (address, class) = open_window_parts(data);
        Some(HyprEvent::OpenWindow(string_of(address.as_slice()), string_of(class.as_slice())))
    } else if seq_eq(event, close.as_slice()) {
        Some(HyprEvent::CloseWindow(string_of(data)))
    } else {
        None
    }
}

/// Parses one line of Hyprland's event socket (see [`parse_event_spec`]).
pub fn parse_event(line: &str) -> (r: Option<HyprEvent>)
    ensures
        match r {
            Some(e) => parse_event_spec(line@) == Some(event_view(e)),
            None => parse_event_spec(line@) is None,
        },
{
    let l = chars_of(line);
    let arrow = chars_of(">>");
    proof {
        reveal_strlit(">>");
    }
    match find_pattern(l.as_slice(), arrow.as_slice()) {
        None => None,
        Some(i) => {
            let n = l.len();
            let event = slice_chars(l.as_slice(), 0, i);
            let data = slice_chars(l.as_slice(), i + 2, n);
            assert(event@ =~= l@.take(i as int));
            assert(data@ =~= l@.skip(i + 2));
            event_of(event.as_slice(), data.as_slice())
        },
    }
}

} // verus!

verus! {

/// The rest of the first line starting with `prefix`, if any.
pub open spec fn first_field(lines: Seq<Seq<char>>, prefix: Seq<char>) -> Option<Seq<char>>
    decreases lines.len(),
{
    if lines.len() == 0 {
        None
    } else {
        match strip_prefix_spec(lines[0], prefix) {
            Some(rest) => Some(rest),
            None => first_field(lines.drop_first(), prefix),
        }
    }
}

/// The parent pid in a `/proc/<pid>/status` text: the value of its first
/// `PPid:` line, trimmed, as a `u32`.
pub open spec fn parse_ppid_spec(status: Seq<char>) -> Option<u32> {
    match first_field(crate::text::lines_of(status), "PPid:"@) {
        None => None,
        Some(v) => crate::text::parse_u32_spec(trim(v)),
    }
}

/// Reads the parent pid out of a `/proc/<pid>/status` text (see
/// [`parse_ppid_spec`]).
pub fn parse_ppid(status: &str) -> (r: Option<u32>)
    ensures
        r == parse_ppid_spec(status@),
{
    let t = chars_of(status);
    let lines = crate::text::split_lines(t.as_slice());
    let ghost ls = lines@.map_values(|l: Vec<char>| l@);
    let prefix = chars_of("PPid:");
    let mut i: usize = 0;
    assert(ls.skip(0) =~= ls);
    while i < lines.len()
        invariant
            i <= lines@.len(),
            ls == lines@.map_values(|l: Vec<char>| l@),
            ls == crate::text::lines_of(status@),
            prefix@ == "PPid:"@,
            first_field(ls, "PPid:"@) == first_field(ls.skip(i as int), "PPid:"@),
        decreases lines@.len() - i,
    {
        assert(ls[i as int] == lines@[i as int]@);
        assert(ls.skip(i as int).drop_first() =~= ls.skip(i + 1));
        match strip_prefix(lines[i].as_slice(), prefix.as_slice()) {
            Some(rest) => {
                let v = trim_chars(rest.as_slice());
                return crate::text::parse_u32(v.as_slice());
            },
            None => {},
        }
        i = i + 1;
    }
    None
}

/// The first client whose pid is among `ancestors` (the window hosting a
/// process whose ancestor chain is given).
pub fn own_window(clients: &[Client], ancestors: &[u32]) -> (r: Option<String>)
    ensures
        match r {
            Some(a) => exists|i: int|
                0 <= i < clients@.len() && ancestors@.contains(clients@[i].pid as u32) && a
                    == clients@[i].address && forall|j: int|
                    0 <= j < i ==> !ancestors@.contains(#[trigger] clients@[j].pid as u32),
            None => forall|i: int|
                0 <= i < clients@.len() ==> !ancestors@.contains(#[trigger] clients@[i].pid as u32),
        },
{
    let mut i: usize = 0;
    while i < clients.len()
        invariant
            i <= clients@.len(),
            forall|j: int| 0 <= j < i ==> !ancestors@.contains(#[trigger] clients@[j].pid as u32),
        decreases clients@.len() - i,
    {
        let pid = clients[i].pid as u32;
        if contains_u32(ancestors, pid) {
            return Some(clients[i].address.clone());
        }
        i = i + 1;
    }
    None
}

/// Whether `v` occurs in `s`.
pub fn contains_u32(s: &[u32], v: u32) -> (r: bool)
    ensures
        r == s@.contains(v),
{
    let mut i: usize = 0;
    while i < s.len()
        invariant
            i <= s@.len(),
            forall|j: int| 0 <= j < i ==> s@[j] != v,
        decreases s@.len() - i,
    {
        if s[i] == v {
            return true;
        }
        i = i + 1;
    }
    false
}

/// Whether two window addresses name the same window (compared without
/// their `0x` prefixes).
pub open spec fn same_address(a: Seq<char>, b: Seq<char>) -> bool {
    strip_hex_prefix(a) == strip_hex_prefix(b)
}

/// The pid of the first client with the given address.
pub fn window_pid(clients: &[Client], address: &str) -> (r: Option<i32>)
    ensures
        match r {
            Some(pid) => exists|i: int|
                0 <= i < clients@.len() && same_address(clients@[i].address@, address@) && pid
                    == clients@[i].pid && forall|j: int|
                    0 <= j < i ==> !same_address(#[trigger] clients@[j].address@, address@),
            None => forall|i: int|
                0 <= i < clients@.len() ==> !same_address(#[trigger] clients@[i].address@, address@),
        },
{
    let a = chars_of(address);
    let want = trim_hex_prefix(a.as_slice());
    let mut i: usize = 0;
    while i < clients.len()
        invariant
            i <= clients@.len(),
            want@ == strip_hex_prefix(address@),
            forall|j: int| 0 <= j < i ==> !same_address(#[trigger] clients@[j].address@, address@),
        decreases clients@.len() - i,
    {
        let c = chars_of(clients[i].address.as_str());
        let got = trim_hex_prefix(c.as_slice());
        if seq_eq(got.as_slice(), want.as_slice()) {
            return Some(clients[i].pid);
        }
        i = i + 1;
    }
    None
}

} // verus!

verus! {

/// How many pids the walk up the process tree collects at most.
pub const MAX_ANCESTORS: usize = 32;

/// Whether the walk up the process tree goes on at `pid` with `depth` pids
/// collected: it stops at init (pid 1) or pid 0, and at the depth limit.
pub fn keep_walking(pid: u32, depth: usize) -> (r: bool)
    ensures
        r == (pid > 1 && depth < MAX_ANCESTORS),
{
    pid > 1 && depth < MAX_ANCESTORS
}

} // verus!
