//! The launcher's state machine: choosing a game, claiming player slots,
//! running a session, and the controller keyboard. Every decision is made
//! here; the program around it performs the desktop, process and device
//! work that the returned plans ask for, and reports back.

use vstd::prelude::*;

use crate::handler::LoadedHandler;
use crate::input::{PadButton, PadEvent, PadInfo};
use crate::launch::{assigned_pad, is_pad_at, Assignment, Session};
use crate::osk::{
    combo_fires, combo_idle, combo_poll, combo_set, osk_initial, osk_inv, osk_step, Activation,
    ComboTracker, ComboView, Osk, OskView, Stroke,
};
use crate::text::{decimal, push_decimal, push_str, str_eq};

verus! {

#[derive(Debug, Clone, Copy, PartialEq, Eq, Structural)]
pub enum Screen {
    GameSelect,
    PlayerSetup,
    Session,
}

/// The terminal keys the launcher reacts to.
#[derive(Debug, Clone, Copy, PartialEq, Eq, Structural)]
pub enum Key {
    Char(char),
    Up,
    Down,
    Enter,
    Esc,
    Backspace,
    Other,
}

/// Desktop state to restore when the on-screen keyboard closes.
#[derive(Debug)]
pub struct OskReturn {
    /// The pad whose player opened the keyboard (only it drives it).
    pub owner_pad: String,
    /// The window focused before the keyboard opened.
    pub prev_focus: Option<String>,
    /// The launcher's own terminal window, if found.
    pub terminal: Option<String>,
    /// The workspace to send the terminal back to.
    pub terminal_home_ws: String,
}

/// Text to type into a player's game when the keyboard commits.
#[derive(Debug)]
pub struct OskCommit {
    pub player: usize,
    /// Window to focus before typing.
    pub target_window: Option<String>,
    pub strokes: Vec<Stroke>,
}

/// The desktop work that closing the keyboard asks for, in order: send the
/// terminal back, then either type the committed text (reporting back with
/// [`App::typing_finished`]) or give focus back.
#[derive(Debug)]
pub struct OskClosing {
    /// Terminal window and the workspace to send it back to.
    pub dismiss: Option<(String, String)>,
    pub commit: Option<OskCommit>,
    /// Window to focus again when nothing is typed.
    pub refocus: Option<String>,
}

/// Ending a session: close the keyboard (if it was open), then shut the
/// session down.
#[derive(Debug)]
pub struct SessionEnd {
    pub closing: Option<OskClosing>,
    pub session: Option<Session>,
}

/// What a key press asks of the program around the state machine.
#[derive(Debug)]
pub enum KeyOutcome {
    Nothing,
    /// The keyboard was closed.
    CloseOsk(Option<OskClosing>),
    /// Launch the current handler for the assigned slots, then report back
    /// with [`App::session_started`] or [`App::session_failed`].
    StartSession,
    EndSession(SessionEnd),
}

/// The trackers by pad path, as plain values.
pub open spec fn combos_view(s: Seq<(String, ComboTracker)>) -> Seq<(Seq<char>, ComboView)> {
    s.map_values(|e: (String, ComboTracker)| (e.0@, e.1@))
}

/// The launcher's state, as plain values.
pub struct AppView {
    pub handlers: Seq<LoadedHandler>,
    pub selected: usize,
    pub screen: Screen,
    pub slots: Seq<Assignment>,
    pub pads: Seq<PadInfo>,
    pub session: Option<Session>,
    pub status: Seq<char>,
    pub should_quit: bool,
    pub osk: Option<OskView>,
    /// Start+Select trackers by pad path.
    pub combos: Seq<(Seq<char>, ComboView)>,
    pub osk_return: Option<OskReturn>,
}

/// The player limit of the selected handler.
pub open spec fn max_players(v: AppView) -> int {
    v.handlers[v.selected as int].handler.max_players as int
}

/// Whether some slot is the keyboard+mouse player.
pub open spec fn kbm_taken(slots: Seq<Assignment>) -> bool {
    exists|i: int| 0 <= i < slots.len() && (#[trigger] slots[i]) is Kbm
}

/// Whether some slot is the pad at `path`.
pub open spec fn pad_in_slots(slots: Seq<Assignment>, path: Seq<char>) -> bool {
    exists|i: int| 0 <= i < slots.len() && assigned_pad(#[trigger] slots[i], path)
}

/// Whether a pad at `path` is connected.
pub open spec fn pad_known(pads: Seq<PadInfo>, path: Seq<char>) -> bool {
    exists|k: int| 0 <= k < pads.len() && (#[trigger] pads[k]).event_path@ == path
}

/// Whether two assignments are not the same pad.
pub open spec fn different_pads(a: Assignment, b: Assignment) -> bool {
    match (a, b) {
        (Assignment::Pad(x), Assignment::Pad(y)) => x.event_path@ != y.event_path@,
        _ => true,
    }
}

/// The launcher's invariant.
pub open spec fn app_inv(v: AppView) -> bool {
    // A game is selected.
    &&& 0 < v.handlers.len()
    &&& v.selected < v.handlers.len()
    // Slots are only assigned after choosing a game, and never more than
    // the game allows.
    &&& v.screen == Screen::GameSelect ==> v.slots.len() == 0
    &&& v.slots.len() <= max_players(v)
    // At most one keyboard+mouse player.
    &&& forall|i: int, j: int|
        #![trigger v.slots[i], v.slots[j]]
        0 <= i < v.slots.len() && 0 <= j < v.slots.len() && v.slots[i] is Kbm && v.slots[j] is Kbm
            ==> i == j
    // No pad drives two players, and claimed pads are connected.
    &&& forall|i: int, j: int|
        #![trigger v.slots[i], v.slots[j]]
        0 <= i < j < v.slots.len() ==> different_pads(v.slots[i], v.slots[j])
    &&& forall|i: int|
        0 <= i < v.slots.len() ==> match #[trigger] v.slots[i] {
            Assignment::Pad(p) => pad_known(v.pads, p.event_path@),
            Assignment::Kbm => true,
        }
    // Each connected pad is listed once, and tracked once.
    &&& forall|i: int, j: int|
        #![trigger v.pads[i], v.pads[j]]
        0 <= i < j < v.pads.len() ==> v.pads[i].event_path@ != v.pads[j].event_path@
    &&& forall|i: int, j: int|
        #![trigger v.combos[i], v.combos[j]]
        0 <= i < j < v.combos.len() ==> v.combos[i].0 != v.combos[j].0
    // A session only runs on the session screen; the keyboard only opens
    // during a session.
    &&& v.session is Some ==> v.screen == Screen::Session
    &&& v.osk is Some <==> v.osk_return is Some
    &&& v.osk is Some ==> v.session is Some && v.screen == Screen::Session
    &&& v.osk matches Some(o) ==> osk_inv(o)
}

/// The launcher's state machine (see [`app_inv`] for what it keeps).
pub struct App {
    pub handlers: Vec<LoadedHandler>,
    pub selected: usize,
    pub screen: Screen,
    pub slots: Vec<Assignment>,
    pub pads: Vec<PadInfo>,
    pub session: Option<Session>,
    pub status: String,
    pub should_quit: bool,
    pub osk: Option<Osk>,
    combos: Vec<(String, ComboTracker)>,
    osk_return: Option<OskReturn>,
}

impl View for App {
    type V = AppView;

    closed spec fn view(&self) -> AppView {
        AppView {
            handlers: self.handlers@,
            selected: self.selected,
            screen: self.screen,
            slots: self.slots@,
            pads: self.pads@,
            session: self.session,
            status: self.status@,
            should_quit: self.should_quit,
            osk: match self.osk {
                Some(o) => Some(o@),
                None => None,
            },
            combos: combos_view(self.combos@),
            osk_return: self.osk_return,
        }
    }
}

} // verus!

verus! {

/// `player <n> ← <who>`.
pub open spec fn player_msg(n: nat, who: Seq<char>) -> Seq<char> {
    "player "@ + decimal(n) + " ← "@ + who
}

/// The screen-specific effect of a key while the keyboard is closed.
pub open spec fn key_step(v: AppView, key: Key) -> AppView {
    match v.screen {
        Screen::GameSelect => match key {
            Key::Char('q') | Key::Esc => AppView { should_quit: true, ..v },
            Key::Up | Key::Char('k') => AppView {
                selected: if v.selected > 0 {
                    (v.selected - 1) as usize
                } else {
                    0
                },
                ..v
            },
            Key::Down | Key::Char('j') => AppView {
                selected: if v.selected + 1 < v.handlers.len() {
                    (v.selected + 1) as usize
                } else {
                    (v.handlers.len() - 1) as usize
                },
                ..v
            },
            Key::Enter => if v.handlers[v.selected as int].game_dir is Some {
                AppView {
                    slots: seq![],
                    status: "press a button on each controller to claim a player slot"@,
                    screen: Screen::PlayerSetup,
                    ..v
                }
            } else {
                AppView {
                    status: v.handlers[v.selected as int].handler.name@ + " is not installed"@,
                    ..v
                }
            },
            _ => v,
        },
        Screen::PlayerSetup => match key {
            Key::Char('q') => AppView { should_quit: true, ..v },
            Key::Esc => AppView { slots: seq![], screen: Screen::GameSelect, ..v },
            Key::Char('m') => if kbm_taken(v.slots) {
                AppView { status: "keyboard + mouse is already assigned"@, ..v }
            } else if v.slots.len() >= max_players(v) {
                AppView { status: "all player slots are full"@, ..v }
            } else {
                AppView {
                    status: player_msg(v.slots.len() + 1, "keyboard + mouse"@),
                    slots: v.slots.push(Assignment::Kbm),
                    ..v
                }
            },
            Key::Backspace | Key::Char('x') => if v.slots.len() > 0 {
                AppView { slots: v.slots.drop_last(), status: "removed last player"@, ..v }
            } else {
                v
            },
            Key::Enter => if v.slots.len() == 0 {
                AppView { status: "assign at least one player first"@, ..v }
            } else {
                v
            },
            _ => v,
        },
        Screen::Session => match key {
            Key::Char('e') | Key::Esc => AppView {
                session: None,
                screen: Screen::PlayerSetup,
                status: "session ended — desktop restored"@,
                ..v
            },
            Key::Char('q') => AppView { session: None, should_quit: true, ..v },
            _ => v,
        },
    }
}

/// Whether a key (with the keyboard closed) asks to launch a session.
pub open spec fn key_starts_session(v: AppView, key: Key) -> bool {
    v.screen == Screen::PlayerSetup && key == Key::Enter && v.slots.len() > 0
}

/// Whether a key (with the keyboard closed) ends the session.
pub open spec fn key_ends_session(v: AppView, key: Key) -> bool {
    v.screen == Screen::Session && (key == Key::Char('e') || key == Key::Esc || key == Key::Char('q'))
}

impl App {
    /// The launcher's invariant holds (see [`app_inv`]), and the open
    /// keyboard is well formed.
    pub closed spec fn wf(&self) -> bool {
        &&& app_inv(self@)
        &&& self.osk matches Some(o) ==> o.wf()
    }

    /// A launcher for the given handlers, on the game list.
    pub fn new(handlers: Vec<LoadedHandler>) -> (a: App)
        requires
            handlers@.len() > 0,
        ensures
            a.wf(),
            a@ == (AppView {
                handlers: handlers@,
                selected: 0,
                screen: Screen::GameSelect,
                slots: seq![],
                pads: seq![],
                session: None,
                status: seq![],
                should_quit: false,
                osk: None,
                combos: seq![],
                osk_return: None,
            }),
    {
        let a = App {
            handlers,
            selected: 0,
            screen: Screen::GameSelect,
            slots: Vec::new(),
            pads: Vec::new(),
            session: None,
            status: String::new(),
            should_quit: false,
            osk: None,
            combos: Vec::new(),
            osk_return: None,
        };
        assert(a@.combos =~= Seq::<(Seq<char>, ComboView)>::empty());
        a
    }

    pub fn current_handler(&self) -> (h: &LoadedHandler)
        requires
            self.wf(),
        ensures
            *h == self@.handlers[self@.selected as int],
    {
        &self.handlers[self.selected]
    }

    fn max_players(&self) -> (n: usize)
        requires
            self.wf(),
        ensures
            n == max_players(self@),
    {
        self.current_handler().handler.max_players as usize
    }

    fn kbm_taken(&self) -> (r: bool)
        ensures
            r == kbm_taken(self@.slots),
    {
        let mut i: usize = 0;
        while i < self.slots.len()
            invariant
                i <= self@.slots.len(),
                self@.slots == self.slots@,
                forall|j: int| 0 <= j < i ==> !(#[trigger] self@.slots[j] is Kbm),
            decreases self@.slots.len() - i,
        {
            if let Assignment::Kbm = self.slots[i] {
                return true;
            }
            i = i + 1;
        }
        false
    }

    /// The slot claimed by `pad`, if any.
    pub fn pad_claimed(&self, pad: &PadInfo) -> (r: Option<usize>)
        ensures
            match r {
                Some(i) => i < self@.slots.len() && assigned_pad(self@.slots[i as int], pad.event_path@)
                    && forall|j: int| 0 <= j < i ==> !assigned_pad(#[trigger] self@.slots[j], pad.event_path@),
                None => !pad_in_slots(self@.slots, pad.event_path@),
            },
    {
        let mut i: usize = 0;
        while i < self.slots.len()
            invariant
                i <= self@.slots.len(),
                self@.slots == self.slots@,
                forall|j: int| 0 <= j < i ==> !assigned_pad(#[trigger] self@.slots[j], pad.event_path@),
            decreases self@.slots.len() - i,
        {
            if is_pad_at(&self.slots[i], pad.event_path.as_str()) {
                return Some(i);
            }
            i = i + 1;
        }
        None
    }
}

/// `prefix` followed by the decimal of `n` and `suffix`.
fn msg_num(prefix: &str, n: u128, suffix: &str) -> (s: String)
    ensures
        s@ == prefix@ + decimal(n as nat) + suffix@,
{
    let mut s = prefix.to_string();
    push_decimal(&mut s, n);
    push_str(&mut s, suffix);
    s
}

} // verus!

verus! {

/// The terminal to send back and where, when the keyboard closes.
pub open spec fn dismiss_of(ret: Option<OskReturn>) -> Option<(String, String)> {
    match ret {
        Some(r) => match r.terminal {
            Some(t) => Some((t, r.terminal_home_ws)),
            None => None,
        },
        None => None,
    }
}

/// Whether closing the keyboard types its text: only a commit with
/// something typed does.
pub open spec fn closing_types(o: OskView, commit: bool) -> bool {
    commit && o.strokes.len() > 0
}

/// The state after closing the keyboard: it and its return info are gone;
/// when nothing is typed the status says it closed (a typed commit reports
/// later, see [`typed_status`]).
pub open spec fn close_osk_view(v: AppView, commit: bool) -> AppView {
    match v.osk {
        None => v,
        Some(o) => if closing_types(o, commit) {
            AppView { osk: None, osk_return: None, ..v }
        } else {
            AppView { osk: None, osk_return: None, status: "controller keyboard closed"@, ..v }
        },
    }
}

/// The plan for closing the keyboard in state `v`: send the terminal back,
/// then type the text into the player's window (commit with something
/// typed) or focus the previously focused window again.
pub open spec fn closing_ok(c: Option<OskClosing>, v: AppView, commit: bool) -> bool {
    match v.osk {
        None => c is None,
        Some(o) => c matches Some(cl) && cl.dismiss == dismiss_of(v.osk_return) && if closing_types(
            o,
            commit,
        ) {
            &&& cl.refocus is None
            &&& cl.commit matches Some(cm) && cm.player == o.player && cm.target_window
                == o.target_window && cm.strokes@ == o.strokes
        } else {
            &&& cl.commit is None
            &&& cl.refocus == match v.osk_return {
                Some(r) => r.prev_focus,
                None => None,
            }
        },
    }
}

impl App {
    /// Closes the keyboard (see [`close_osk_view`] and [`closing_ok`]).
    fn close_osk(&mut self, commit: bool) -> (c: Option<OskClosing>)
        requires
            old(self).wf(),
        ensures
            final(self).wf(),
            final(self)@ == close_osk_view(old(self)@, commit),
            closing_ok(c, old(self)@, commit),
    {
        let osk = match self.osk.take() {
            Some(o) => o,
            None => return None,
        };
        let ret = self.osk_return.take();
        let (dismiss, prev_focus) = match ret {
            Some(r) => {
                let d = match r.terminal {
                    Some(t) => Some((t, r.terminal_home_ws)),
                    None => None,
                };
                (d, r.prev_focus)
            },
            None => (None, None),
        };
        if commit && !osk.is_empty() {
            let (player, target_window, strokes) = osk.into_commit();
            Some(
                OskClosing {
                    dismiss,
                    commit: Some(OskCommit { player, target_window, strokes }),
                    refocus: None,
                },
            )
        } else {
            self.status = "controller keyboard closed".to_string();
            Some(OskClosing { dismiss, commit: None, refocus: prev_focus })
        }
    }
}

} // verus!

verus! {

impl App {
    /// Handles a terminal key. While the keyboard is open only Esc acts (it
    /// cancels the keyboard, so it is never a trap); otherwise the current
    /// screen handles the key (see [`key_step`]).
    pub fn on_key(&mut self, key: Key) -> (r: KeyOutcome)
        requires
            old(self).wf(),
        ensures
            final(self).wf(),
            old(self)@.osk is Some ==> {
                if key == Key::Esc {
                    &&& final(self)@ == close_osk_view(old(self)@, false)
                    &&& r matches KeyOutcome::CloseOsk(c) && closing_ok(c, old(self)@, false)
                } else {
                    final(self)@ == old(self)@ && r is Nothing
                }
            },
            old(self)@.osk is None ==> {
                &&& final(self)@ == key_step(old(self)@, key)
                &&& key_starts_session(old(self)@, key) ==> r is StartSession
                &&& key_ends_session(old(self)@, key) ==> (r matches KeyOutcome::EndSession(e)
                    && e.closing is None && e.session == old(self)@.session)
                &&& !key_starts_session(old(self)@, key) && !key_ends_session(old(self)@, key)
                    ==> r is Nothing
            },
    {
        if self.osk.is_some() {
            if key == Key::Esc {
                return KeyOutcome::CloseOsk(self.close_osk(false));
            }
            return KeyOutcome::Nothing;
        }
        match self.screen {
            Screen::GameSelect => {
                self.on_key_game_select(key);
                KeyOutcome::Nothing
            },
            Screen::PlayerSetup => self.on_key_player_setup(key),
            Screen::Session => self.on_key_session(key),
        }
    }

    fn on_key_game_select(&mut self, key: Key)
        requires
            old(self).wf(),
            old(self)@.osk is None,
            old(self)@.screen == Screen::GameSelect,
        ensures
            final(self).wf(),
            final(self)@ == key_step(old(self)@, key),
    {
        match key {
            Key::Char('q') | Key::Esc => self.should_quit = true,
            Key::Up | Key::Char('k') => {
                if self.selected > 0 {
                    self.selected = self.selected - 1;
                }
            },
            Key::Down | Key::Char('j') => {
                let n = self.handlers.len();
                if self.selected + 1 < n {
                    self.selected = self.selected + 1;
                } else {
                    self.selected = self.handlers.len() - 1;
                }
            },
            Key::Enter => {
                if self.current_handler().installed() {
                    self.slots = Vec::new();
                    self.status = "press a button on each controller to claim a player slot".to_string();
                    self.screen = Screen::PlayerSetup;
                } else {
                    let mut s = self.current_handler().handler.name.clone();
                    push_str(&mut s, " is not installed");
                    self.status = s;
                }
            },
            _ => {},
        }
    }

    fn on_key_player_setup(&mut self, key: Key) -> (r: KeyOutcome)
        requires
            old(self).wf(),
            old(self)@.osk is None,
            old(self)@.screen == Screen::PlayerSetup,
        ensures
            final(self).wf(),
            final(self)@ == key_step(old(self)@, key),
            key_starts_session(old(self)@, key) ==> r is StartSession,
            !key_starts_session(old(self)@, key) ==> r is Nothing,
    {
        match key {
            Key::Char('q') => {
                self.should_quit = true;
                KeyOutcome::Nothing
            },
            Key::Esc => {
                self.slots = Vec::new();
                self.screen = Screen::GameSelect;
                KeyOutcome::Nothing
            },
            Key::Char('m') => {
                if self.kbm_taken() {
                    self.status = "keyboard + mouse is already assigned".to_string();
                } else if self.slots.len() >= self.max_players() {
                    self.status = "all player slots are full".to_string();
                } else {
                    self.status = msg_num("player ", self.slots.len() as u128 + 1, " ← keyboard + mouse");
                    proof {
                        reveal_strlit(" ← keyboard + mouse");
                        reveal_strlit(" ← ");
                        reveal_strlit("keyboard + mouse");
                        assert(" ← keyboard + mouse"@ =~= " ← "@ + "keyboard + mouse"@);
                    }
                    let ghost before = self@;
                    self.slots.push(Assignment::Kbm);
                    assert(self@.status =~= player_msg(before.slots.len() + 1, "keyboard + mouse"@));
                }
                KeyOutcome::Nothing
            },
            Key::Backspace | Key::Char('x') => {
                if self.slots.len() > 0 {
                    self.slots.pop();
                    self.status = "removed last player".to_string();
                }
                KeyOutcome::Nothing
            },
            Key::Enter => {
                if self.slots.len() == 0 {
                    self.status = "assign at least one player first".to_string();
                    KeyOutcome::Nothing
                } else {
                    KeyOutcome::StartSession
                }
            },
            _ => KeyOutcome::Nothing,
        }
    }

    fn on_key_session(&mut self, key: Key) -> (r: KeyOutcome)
        requires
            old(self).wf(),
            old(self)@.osk is None,
            old(self)@.screen == Screen::Session,
        ensures
            final(self).wf(),
            final(self)@ == key_step(old(self)@, key),
            key_ends_session(old(self)@, key) ==> (r matches KeyOutcome::EndSession(e) && e.closing is None
                && e.session == old(self)@.session),
            !key_ends_session(old(self)@, key) ==> r is Nothing,
    {
        match key {
            Key::Char('e') | Key::Esc => {
                let session = self.session.take();
                self.screen = Screen::PlayerSetup;
                self.status = "session ended — desktop restored".to_string();
                KeyOutcome::EndSession(SessionEnd { closing: None, session })
            },
            Key::Char('q') => {
                let session = self.session.take();
                self.should_quit = true;
                KeyOutcome::EndSession(SessionEnd { closing: None, session })
            },
            _ => KeyOutcome::Nothing,
        }
    }
}

} // verus!

verus! {

/// Keeps the pads not at `path`.
pub open spec fn pad_elsewhere(path: Seq<char>) -> spec_fn(PadInfo) -> bool {
    |p: PadInfo| p.event_path@ != path
}

/// Keeps the slots not driven by the pad at `path`.
pub open spec fn slot_elsewhere(path: Seq<char>) -> spec_fn(Assignment) -> bool {
    |a: Assignment| !assigned_pad(a, path)
}

/// Keeps the trackers not for the pad at `path`.
pub open spec fn combo_elsewhere(path: Seq<char>) -> spec_fn((Seq<char>, ComboView)) -> bool {
    |e: (Seq<char>, ComboView)| e.0 != path
}

/// Unplugging the pad at `path`: it is forgotten, its Start+Select tracker
/// too, and its slot is freed (the status says so when it had one).
pub open spec fn pad_removed_view(v: AppView, path: Seq<char>) -> AppView {
    let slots = v.slots.filter(slot_elsewhere(path));
    AppView {
        pads: v.pads.filter(pad_elsewhere(path)),
        combos: v.combos.filter(combo_elsewhere(path)),
        slots,
        status: if slots.len() != v.slots.len() {
            "a claimed controller was unplugged"@
        } else {
            v.status
        },
        ..v
    }
}

/// Plugging in a pad: it is listed unless a pad at its path already is.
pub open spec fn pad_added_view(v: AppView, pad: PadInfo) -> AppView {
    if pad_known(v.pads, pad.event_path@) {
        v
    } else {
        AppView { pads: v.pads.push(pad), ..v }
    }
}

impl App {
    fn pad_added(&mut self, pad: PadInfo)
        requires
            old(self).wf(),
        ensures
            final(self).wf(),
            final(self)@ == pad_added_view(old(self)@, pad),
    {
        let mut i: usize = 0;
        while i < self.pads.len()
            invariant
                self.wf(),
                self@ == old(self)@,
                i <= self@.pads.len(),
                self@.pads == self.pads@,
                forall|j: int| 0 <= j < i ==> (#[trigger] self@.pads[j]).event_path@ != pad.event_path@,
            decreases self@.pads.len() - i,
        {
            if str_eq(self.pads[i].event_path.as_str(), pad.event_path.as_str()) {
                assert(pad_known(self@.pads, pad.event_path@));
                return;
            }
            i = i + 1;
        }
        let ghost before = self@;
        self.pads.push(pad);
        proof {
            let v = self@;
            assert forall|k: int| 0 <= k < before.slots.len() implies match #[trigger] v.slots[k] {
                Assignment::Pad(p) => pad_known(v.pads, p.event_path@),
                Assignment::Kbm => true,
            } by {
                if let Assignment::Pad(p) = v.slots[k] {
                    let m = choose|m: int| 0 <= m < before.pads.len() && (#[trigger] before.pads[m]).event_path@ == p.event_path@;
                    assert(v.pads[m] == before.pads[m]);
                }
            }
        }
    }

    fn pad_removed(&mut self, path: &str)
        requires
            old(self).wf(),
        ensures
            final(self).wf(),
            final(self)@ == pad_removed_view(old(self)@, path@),
    {
        let ghost v0 = self@;
        let ghost p = path@;
        let pads = pads_without(&self.pads, path);
        let mut all: Vec<(String, ComboTracker)> = Vec::new();
        std::mem::swap(&mut all, &mut self.combos);
        assert(combos_view(all@) == v0.combos);
        let combos = combos_without(all, path);
        let slots = slots_without(&self.slots, path);
        let changed = slots.len() != self.slots.len();
        self.slots = slots;
        self.pads = pads;
        self.combos = combos;
        if changed {
            self.status = "a claimed controller was unplugged".to_string();
        }
        proof {
            let v = self@;
            reveal(Seq::filter);
            v0.slots.lemma_filter_len(slot_elsewhere(p));
            assert forall|k: int| 0 <= k < v.slots.len() implies match #[trigger] v.slots[k] {
                Assignment::Pad(q) => pad_known(v.pads, q.event_path@),
                Assignment::Kbm => true,
            } by {
                let x = choose|x: int| 0 <= x < v0.slots.len() && #[trigger] v.slots[k] == v0.slots[x];
                if let Assignment::Pad(q) = v.slots[k] {
                    v0.slots.lemma_filter_pred(slot_elsewhere(p), k);
                    assert(q.event_path@ != p);
                    assert(match v0.slots[x] {
                        Assignment::Pad(pp) => pad_known(v0.pads, pp.event_path@),
                        Assignment::Kbm => true,
                    });
                    let m = choose|m: int| 0 <= m < v0.pads.len() && (#[trigger] v0.pads[m]).event_path@ == q.event_path@;
                    assert(pad_elsewhere(p)(v0.pads[m]));
                    v0.pads.lemma_filter_contains(pad_elsewhere(p), m);
                    assert(v.pads.contains(v0.pads[m]));
                    let n = choose|n: int| 0 <= n < v.pads.len() && v.pads[n] == v0.pads[m];
                    assert(v.pads[n].event_path@ == q.event_path@);
                }
            }
        }
    }
}

/// The pads not at `path`, in order.
fn pads_without(old_pads: &Vec<PadInfo>, path: &str) -> (pads: Vec<PadInfo>)
    requires
        forall|a: int, b: int|
            #![trigger old_pads@[a], old_pads@[b]]
            0 <= a < b < old_pads@.len() ==> old_pads@[a].event_path@ != old_pads@[b].event_path@,
    ensures
        pads@ == old_pads@.filter(pad_elsewhere(path@)),
        forall|a: int, b: int|
            #![trigger pads@[a], pads@[b]]
            0 <= a < b < pads@.len() ==> pads@[a].event_path@ != pads@[b].event_path@,
{
    let ghost p = path@;
    let ghost v0_pads = old_pads@;
        // Pads.
        let mut pads: Vec<PadInfo> = Vec::new();
        let mut i: usize = 0;
        assert(v0_pads.take(0) =~= Seq::<PadInfo>::empty());
        while i < old_pads.len()
            invariant
                p == path@,
                i <= v0_pads.len(),
                old_pads@ == v0_pads,
                pads@ == v0_pads.take(i as int).filter(pad_elsewhere(p)),
                forall|a: int, b: int|
                    #![trigger pads@[a], pads@[b]]
                    0 <= a < b < pads@.len() ==> pads@[a].event_path@ != pads@[b].event_path@,
                forall|a: int| 0 <= a < pads@.len() ==> exists|k: int| 0 <= k < i && #[trigger] pads@[a] == v0_pads[k],
                forall|a: int, b: int|
                    #![trigger v0_pads[a], v0_pads[b]]
                    0 <= a < b < v0_pads.len() ==> v0_pads[a].event_path@ != v0_pads[b].event_path@,
            decreases v0_pads.len() - i,
        {
            proof {
                reveal(Seq::filter);
            }
            assert(v0_pads.take(i + 1).drop_last() =~= v0_pads.take(i as int));
            assert(v0_pads.take(i + 1).last() == v0_pads[i as int]);
            if !str_eq(old_pads[i].event_path.as_str(), path) {
                assert(pad_elsewhere(p)(v0_pads[i as int]));
                let ghost before = pads@;
                pads.push(old_pads[i].clone());
                proof {
                    assert forall|a: int| 0 <= a < before.len() implies before[a].event_path@ != v0_pads[i as int].event_path@ by {
                        let k = choose|k: int| 0 <= k < i && #[trigger] before[a] == v0_pads[k];
                        assert(v0_pads[k].event_path@ != v0_pads[i as int].event_path@);
                    }
                    assert forall|a: int| 0 <= a < pads@.len() implies exists|k: int| 0 <= k < i + 1 && #[trigger] pads@[a] == v0_pads[k] by {
                        if a < before.len() {
                            let k = choose|k: int| 0 <= k < i && #[trigger] before[a] == v0_pads[k];
                            assert(pads@[a] == v0_pads[k]);
                        } else {
                            assert(pads@[a] == v0_pads[i as int]);
                        }
                    }
                }
            } else {
                assert(!pad_elsewhere(p)(v0_pads[i as int]));
            }
            i = i + 1;
        }
        assert(v0_pads.take(v0_pads.len() as int) =~= v0_pads);

    pads
}

/// The trackers not for `path`, in order.
fn combos_without(all: Vec<(String, ComboTracker)>, path: &str) -> (combos: Vec<(String, ComboTracker)>)
    requires
        forall|a: int, b: int|
            #![trigger combos_view(all@)[a], combos_view(all@)[b]]
            0 <= a < b < all@.len() ==> combos_view(all@)[a].0 != combos_view(all@)[b].0,
    ensures
        combos_view(combos@) == combos_view(all@).filter(combo_elsewhere(path@)),
        forall|a: int, b: int|
            #![trigger combos@[a], combos@[b]]
            0 <= a < b < combos@.len() ==> combos@[a].0@ != combos@[b].0@,
{
    let ghost p = path@;
    let mut rest = all;
        // Trackers.
        let mut combos: Vec<(String, ComboTracker)> = Vec::new();
        let ghost cv0 = combos_view(rest@);
        let n0 = rest.len();
        assert(cv0.take(0) =~= Seq::<(Seq<char>, ComboView)>::empty());
        assert(cv0.skip(0) =~= cv0);
        let mut i: usize = 0;
        while rest.len() > 0
            invariant
                p == path@,
                i <= n0,
                n0 == cv0.len(),
                rest@.len() == n0 - i,
                combos_view(rest@) == cv0.skip(i as int),
                combos_view(combos@) == cv0.take(i as int).filter(combo_elsewhere(p)),
                forall|a: int, b: int|
                    #![trigger combos@[a], combos@[b]]
                    0 <= a < b < combos@.len() ==> combos@[a].0@ != combos@[b].0@,
                forall|a: int| 0 <= a < combos@.len() ==> exists|k: int| 0 <= k < i && (#[trigger] combos@[a]).0@ == cv0[k].0,
                forall|a: int, b: int|
                    #![trigger cv0[a], cv0[b]]
                    0 <= a < b < cv0.len() ==> cv0[a].0 != cv0[b].0,
            decreases rest@.len(),
        {
            proof {
                reveal(Seq::filter);
            }
            let ghost prev = rest@;
            let e = rest.remove(0);
            assert(cv0[i as int] == (e.0@, e.1@)) by {
                assert(combos_view(prev)[0] == cv0.skip(i as int)[0]);
            }
            assert(combos_view(rest@) =~= cv0.skip(i + 1)) by {
                assert forall|k: int| 0 <= k < rest@.len() implies #[trigger] combos_view(rest@)[k] == cv0.skip(i + 1)[k] by {
                    assert(rest@[k] == prev[k + 1]);
                    assert(combos_view(prev)[k + 1] == cv0.skip(i as int)[k + 1]);
                }
            }
            assert(cv0.take(i + 1).drop_last() =~= cv0.take(i as int));
            assert(cv0.take(i + 1).last() == cv0[i as int]);
            if !str_eq(e.0.as_str(), path) {
                assert(combo_elsewhere(p)(cv0[i as int]));
                let ghost before = combos@;
                combos.push(e);
                proof {
                    assert(combos_view(combos@) =~= combos_view(before).push(cv0[i as int]));
                    assert forall|a: int| 0 <= a < before.len() implies before[a].0@ != cv0[i as int].0 by {
                        let k = choose|k: int| 0 <= k < i && (#[trigger] before[a]).0@ == cv0[k].0;
                        assert(cv0[k].0 != cv0[i as int].0);
                    }
                    assert forall|a: int| 0 <= a < combos@.len() implies exists|k: int| 0 <= k < i + 1 && (#[trigger] combos@[a]).0@ == cv0[k].0 by {
                        if a < before.len() {
                            let k = choose|k: int| 0 <= k < i && (#[trigger] before[a]).0@ == cv0[k].0;
                            assert(combos@[a] == before[a]);
                        } else {
                            assert(combos@[a].0@ == cv0[i as int].0);
                        }
                    }
                }
            } else {
                assert(!combo_elsewhere(p)(cv0[i as int]));
            }
            i = i + 1;
        }
        assert(cv0.take(n0 as int) =~= cv0);

    proof {
        assert forall|a: int, b: int| 0 <= a < b < combos@.len() implies #[trigger] combos@[a].0@ != #[trigger] combos@[b].0@ by {
            assert(combos_view(combos@)[a].0 == combos@[a].0@);
            assert(combos_view(combos@)[b].0 == combos@[b].0@);
        }
    }
    combos
}

/// The slots not driven by the pad at `path`, in order, each one of the
/// given slots, and in their order.
fn slots_without(old_slots: &Vec<Assignment>, path: &str) -> (slots: Vec<Assignment>)
    requires
        forall|i: int, j: int|
            #![trigger old_slots@[i], old_slots@[j]]
            0 <= i < old_slots@.len() && 0 <= j < old_slots@.len() && old_slots@[i] is Kbm
                && old_slots@[j] is Kbm ==> i == j,
        forall|i: int, j: int|
            #![trigger old_slots@[i], old_slots@[j]]
            0 <= i < j < old_slots@.len() ==> different_pads(old_slots@[i], old_slots@[j]),
    ensures
        slots@ == old_slots@.filter(slot_elsewhere(path@)),
        forall|a: int| 0 <= a < slots@.len() ==> old_slots@.contains(#[trigger] slots@[a]),
        forall|i: int, j: int|
            #![trigger slots@[i], slots@[j]]
            0 <= i < slots@.len() && 0 <= j < slots@.len() && slots@[i] is Kbm && slots@[j] is Kbm
                ==> i == j,
        forall|i: int, j: int|
            #![trigger slots@[i], slots@[j]]
            0 <= i < j < slots@.len() ==> different_pads(slots@[i], slots@[j]),
{
    let ghost p = path@;
    let ghost v0 = old_slots@;
    let ghost mut origin: Seq<int> = seq![];
    let mut slots: Vec<Assignment> = Vec::new();
    let mut i: usize = 0;
    assert(v0.take(0) =~= Seq::<Assignment>::empty());
    while i < old_slots.len()
        invariant
            p == path@,
            v0 == old_slots@,
            i <= v0.len(),
            slots@ == v0.take(i as int).filter(slot_elsewhere(p)),
            origin.len() == slots@.len(),
            forall|a: int| 0 <= a < origin.len() ==> 0 <= #[trigger] origin[a] < i && slots@[a] == v0[origin[a]],
            forall|a: int, b: int| 0 <= a < b < origin.len() ==> #[trigger] origin[a] < #[trigger] origin[b],
        decreases v0.len() - i,
    {
        proof {
            reveal(Seq::filter);
        }
        assert(v0.take(i + 1).drop_last() =~= v0.take(i as int));
        assert(v0.take(i + 1).last() == v0[i as int]);
        if !is_pad_at(&old_slots[i], path) {
            assert(slot_elsewhere(p)(v0[i as int]));
            slots.push(old_slots[i].clone());
            proof {
                origin = origin.push(i as int);
            }
        } else {
            assert(!slot_elsewhere(p)(v0[i as int]));
        }
        i = i + 1;
    }
    assert(v0.take(v0.len() as int) =~= v0);
    assert forall|a: int| 0 <= a < slots@.len() implies old_slots@.contains(#[trigger] slots@[a]) by {
        assert(slots@[a] == old_slots@[origin[a]]);
    }
    assert forall|i: int, j: int|
        #![trigger slots@[i], slots@[j]]
        0 <= i < slots@.len() && 0 <= j < slots@.len() && slots@[i] is Kbm && slots@[j] is Kbm implies i == j by {
        assert(slots@[i] == old_slots@[origin[i]] && slots@[j] == old_slots@[origin[j]]);
        if i < j {
            assert(origin[i] < origin[j]);
        } else if j < i {
            assert(origin[j] < origin[i]);
        }
    }
    assert forall|i: int, j: int|
        #![trigger slots@[i], slots@[j]]
        0 <= i < j < slots@.len() implies different_pads(slots@[i], slots@[j]) by {
        assert(origin[i] < origin[j]);
        assert(slots@[i] == old_slots@[origin[i]] && slots@[j] == old_slots@[origin[j]]);
    }
    slots
}

} // verus!

verus! {

/// Claiming a slot for the pad at `path` during player setup: refused when
/// all slots are taken, the pad is unknown or it already has a slot;
/// otherwise the pad gets the next slot and the status names the player.
pub open spec fn claim_view(v: AppView, path: Seq<char>) -> AppView {
    if v.slots.len() >= max_players(v) || !pad_known(v.pads, path) || pad_in_slots(v.slots, path) {
        v
    } else {
        let k = choose|k: int| 0 <= k < v.pads.len() && (#[trigger] v.pads[k]).event_path@ == path;
        let pad = v.pads[k];
        AppView {
            status: player_msg(v.slots.len() + 1, pad.name@),
            slots: v.slots.push(Assignment::Pad(pad)),
            ..v
        }
    }
}

/// The keyboard after a button, and whether it asked to close (Some(true)
/// commits, Some(false) cancels).
pub open spec fn osk_button_step(v: AppView, button: PadButton) -> (AppView, Option<bool>) {
    match v.osk {
        Some(o) => {
            let (o2, act) = osk_step(o, button);
            let v2 = AppView { osk: Some(o2), ..v };
            match act {
                Activation::Continue => (v2, None),
                Activation::Commit => (v2, Some(true)),
                Activation::Cancel => (v2, Some(false)),
            }
        },
        None => (v, None),
    }
}

/// The trackers after a button edge on the pad at `path`: its tracker is
/// created idle if it has none yet.
pub open spec fn combo_update(
    combos: Seq<(Seq<char>, ComboView)>,
    path: Seq<char>,
    button: PadButton,
    pressed: bool,
    now: u64,
) -> Seq<(Seq<char>, ComboView)> {
    if exists|j: int| 0 <= j < combos.len() && (#[trigger] combos[j]).0 == path {
        let j = choose|j: int| 0 <= j < combos.len() && (#[trigger] combos[j]).0 == path;
        combos.update(j, (path, combo_set(combos[j].1, button, pressed, now)))
    } else {
        combos.push((path, combo_set(combo_idle(), button, pressed, now)))
    }
}

/// Whether a button press from `path` drives the open keyboard: only its
/// owner's presses do.
pub open spec fn drives_osk(v: AppView, path: Seq<char>, pressed: bool) -> bool {
    pressed && (v.osk_return matches Some(r) && r.owner_pad@ == path)
}

/// A button edge on the pad at `path`: during player setup a press claims a
/// slot; with the keyboard open only its owner's presses drive it (and may
/// close it, see [`osk_button_step`]); otherwise the edge feeds the pad's
/// Start+Select tracker.
pub open spec fn pad_button_view(
    v: AppView,
    path: Seq<char>,
    button: PadButton,
    pressed: bool,
    now: u64,
) -> (AppView, Option<bool>) {
    if v.screen == Screen::PlayerSetup && pressed {
        (claim_view(v, path), None)
    } else if v.osk is Some {
        if drives_osk(v, path, pressed) {
            let (v2, close) = osk_button_step(v, button);
            match close {
                Some(commit) => (close_osk_view(v2, commit), Some(commit)),
                None => (v2, None),
            }
        } else {
            (v, None)
        }
    } else {
        (AppView { combos: combo_update(v.combos, path, button, pressed, now), ..v }, None)
    }
}

impl App {
    fn claim_pad(&mut self, path: &str)
        requires
            old(self).wf(),
            old(self)@.screen == Screen::PlayerSetup,
        ensures
            final(self).wf(),
            final(self)@ == claim_view(old(self)@, path@),
    {
        if self.slots.len() >= self.max_players() {
            return;
        }
        let mut i: usize = 0;
        let mut found = false;
        while !found && i < self.pads.len()
            invariant
                self.wf(),
                self@ == old(self)@,
                i <= self@.pads.len(),
                self.pads@ == self@.pads,
                forall|j: int| 0 <= j < i ==> (#[trigger] self@.pads[j]).event_path@ != path@,
                found ==> i < self@.pads.len() && self@.pads[i as int].event_path@ == path@,
            decreases self@.pads.len() - i + (if found { 0int } else { 1int }),
        {
            if str_eq(self.pads[i].event_path.as_str(), path) {
                found = true;
            } else {
                i = i + 1;
            }
        }
        if !found {
            return;
        }
        let pad = self.pads[i].clone();
        proof {
            let v = self@;
            assert(pad_known(v.pads, path@));
            let k = choose|k: int| 0 <= k < v.pads.len() && (#[trigger] v.pads[k]).event_path@ == path@;
            if k != i {
                if k < i {
                    assert(v.pads[k].event_path@ != v.pads[i as int].event_path@);
                } else {
                    assert(v.pads[i as int].event_path@ != v.pads[k].event_path@);
                }
            }
        }
        if self.pad_claimed(&pad).is_some() {
            return;
        }
        let ghost before = self@;
        let mut s = msg_num("player ", self.slots.len() as u128 + 1, " ← ");
        push_str(&mut s, pad.name.as_str());
        self.status = s;
        self.slots.push(Assignment::Pad(pad));
        proof {
            let v = self@;
            assert(v.status =~= player_msg(before.slots.len() + 1, before.pads[i as int].name@));
            assert forall|a: int, b: int|
                #![trigger v.slots[a], v.slots[b]]
                0 <= a < b < v.slots.len() implies different_pads(v.slots[a], v.slots[b]) by {
                if b == before.slots.len() {
                    assert(!assigned_pad(before.slots[a], path@));
                }
            }
            assert forall|k: int| 0 <= k < v.slots.len() implies match #[trigger] v.slots[k] {
                Assignment::Pad(q) => pad_known(v.pads, q.event_path@),
                Assignment::Kbm => true,
            } by {
                if k < before.slots.len() {
                    assert(v.slots[k] == before.slots[k]);
                } else {
                    assert(v.pads[i as int].event_path@ == path@);
                }
            }
        }
    }

    /// A button press while the keyboard is open and owned by the pressing
    /// pad.
    fn osk_button(&mut self, button: PadButton) -> (c: Option<OskClosing>)
        requires
            old(self).wf(),
            old(self)@.osk is Some,
        ensures
            final(self).wf(),
            ({
                let (v2, close) = osk_button_step(old(self)@, button);
                match close {
                    Some(commit) => final(self)@ == close_osk_view(v2, commit) && closing_ok(c, v2, commit),
                    None => final(self)@ == v2 && c is None,
                }
            }),
    {
        let mut o = match self.osk.take() {
            Some(o) => o,
            None => return None,
        };
        let act = o.on_button(button);
        proof {
            crate::osk::law_step_keeps_inv(old(self)@.osk->Some_0, button);
        }
        self.osk = Some(o);
        match act {
            Activation::Continue => None,
            Activation::Commit => self.close_osk(true),
            Activation::Cancel => self.close_osk(false),
        }
    }

    fn update_combo(&mut self, path: &str, button: PadButton, pressed: bool, now: u64)
        requires
            old(self).wf(),
        ensures
            final(self).wf(),
            final(self)@ == (AppView { combos: combo_update(old(self)@.combos, path@, button, pressed, now), ..old(self)@ }),
    {
        let ghost v = self@;
        let mut j: usize = 0;
        let mut found = false;
        while !found && j < self.combos.len()
            invariant
                self.wf(),
                self@ == v,
                j <= v.combos.len(),
                combos_view(self.combos@) == v.combos,
                forall|k: int| 0 <= k < j ==> (#[trigger] v.combos[k]).0 != path@,
                found ==> j < v.combos.len() && v.combos[j as int].0 == path@,
            decreases v.combos.len() - j + (if found { 0int } else { 1int }),
        {
            assert(v.combos[j as int] == (self.combos@[j as int].0@, self.combos@[j as int].1@));
            if str_eq(self.combos[j].0.as_str(), path) {
                found = true;
            } else {
                j = j + 1;
            }
        }
        if found {
            proof {
                let k = choose|k: int| 0 <= k < v.combos.len() && (#[trigger] v.combos[k]).0 == path@;
                assert(v.combos[j as int].0 == path@);
                if k != j {
                    if k < j {
                        assert(v.combos[k].0 != v.combos[j as int].0);
                    } else {
                        assert(v.combos[j as int].0 != v.combos[k].0);
                    }
                }
            }
            let (p, mut t) = self.combos.remove(j);
            t.set(button, pressed, now);
            self.combos.insert(j, (p, t));
            proof {
                let expected = combo_update(v.combos, path@, button, pressed, now);
                assert(combos_view(self.combos@) =~= expected);
            }
        } else {
            let mut t = ComboTracker::new();
            t.set(button, pressed, now);
            let ghost before = self.combos@;
            self.combos.push((path.to_string(), t));
            proof {
                assert(self.combos@ == before.push(self.combos@.last()));
                assert(combos_view(self.combos@) =~= v.combos.push((path@, t@)));
                let v2 = self@;
                assert forall|a: int, b: int|
                    #![trigger v2.combos[a], v2.combos[b]]
                    0 <= a < b < v2.combos.len() implies v2.combos[a].0 != v2.combos[b].0 by {
                    if b == v.combos.len() {
                        assert(v.combos[a].0 != path@);
                    }
                }
            }
        }
    }
}

} // verus!

verus! {

/// Whether instance `i` is the first one driven by the pad at `pad`.
pub open spec fn first_pad_instance(insts: Seq<crate::launch::Instance>, pad: Seq<char>, i: int) -> bool {
    &&& 0 <= i < insts.len()
    &&& assigned_pad(insts[i].assignment, pad)
    &&& forall|j: int| 0 <= j < i ==> !assigned_pad(#[trigger] insts[j].assignment, pad)
}

/// The status while the keyboard is open for player `n` (counting from 1).
pub open spec fn osk_open_msg(n: nat) -> Seq<char> {
    "controller keyboard open for player "@ + decimal(n)
        + " — d-pad to move, ✕/A to type, △/Y shift, □/X erase"@
}

/// The state after opening the keyboard for the session instance driven by
/// the pad at `pad`: the keyboard targets that player's window, remembers
/// what to restore (the terminal returns to `home`, or workspace `1`), and
/// the status explains the controls. Nothing changes when no instance is
/// driven by that pad.
pub open spec fn osk_opened(
    v: AppView,
    w: AppView,
    pad: Seq<char>,
    prev_focus: Option<String>,
    terminal: Option<String>,
    home: Option<String>,
) -> bool {
    match v.session {
        Some(s) => if exists|i: int| first_pad_instance(s.instances@, pad, i) {
            let i = choose|i: int| first_pad_instance(s.instances@, pad, i);
            let inst = s.instances@[i];
            &&& w == AppView {
                osk: Some(osk_initial(inst.player, inst.window)),
                osk_return: w.osk_return,
                status: osk_open_msg((inst.player + 1) as nat),
                ..v
            }
            &&& w.osk_return matches Some(r) && r.owner_pad@ == pad && r.prev_focus == prev_focus
                && r.terminal == terminal && r.terminal_home_ws@ == match home {
                Some(h) => h@,
                None => "1"@,
            }
        } else {
            w == v
        },
        None => w == v,
    }
}

/// The first tracker that fires when polled at `now`.
pub open spec fn first_firing(combos: Seq<(Seq<char>, ComboView)>, now: u64, j: int) -> bool {
    &&& 0 <= j < combos.len()
    &&& combo_fires(combos[j].1, now)
    &&& forall|k: int| 0 <= k < j ==> !combo_fires(#[trigger] combos[k].1, now)
}

/// Polling the Start+Select holds at `now` (only during a session with the
/// keyboard closed): the first tracker whose hold has lasted long enough
/// fires, and its pad is returned.
pub open spec fn poll_view(v: AppView, now: u64) -> (AppView, Option<Seq<char>>) {
    if v.osk is None && v.screen == Screen::Session && exists|j: int| first_firing(v.combos, now, j) {
        let j = choose|j: int| first_firing(v.combos, now, j);
        (
            AppView {
                combos: v.combos.update(j, (v.combos[j].0, combo_poll(v.combos[j].1, now))),
                ..v
            },
            Some(v.combos[j].0),
        )
    } else {
        (v, None)
    }
}

/// Whether the session has run out: every instance has exited.
pub open spec fn session_over(v: AppView) -> bool {
    v.session matches Some(s) && forall|i: int| 0 <= i < s.instances@.len() ==> (#[trigger] s.instances@[i]).exited
}

impl App {
    /// The player and window of the session instance driven by `pad`.
    pub fn osk_target(&self, pad: &str) -> (r: Option<(usize, Option<String>)>)
        requires
            self.wf(),
        ensures
            match r {
                Some((player, window)) => self@.session matches Some(s) && exists|i: int|
                    first_pad_instance(s.instances@, pad@, i) && player == s.instances@[i].player
                        && window == s.instances@[i].window,
                None => self@.session matches Some(s) ==> !exists|i: int| first_pad_instance(s.instances@, pad@, i),
            },
    {
        match &self.session {
            Some(s) => {
                let r = s.instance_for_pad(pad);
                proof {
                    if r is Some {
                        let player = r->Some_0.0;
                        let window = r->Some_0.1;
                        let i = choose|i: int|
                            0 <= i < s.instances@.len() && assigned_pad(s.instances@[i].assignment, pad@)
                                && (forall|j: int|
                                0 <= j < i ==> !assigned_pad(#[trigger] s.instances@[j].assignment, pad@))
                                && player == s.instances@[i].player && window == s.instances@[i].window;
                        assert(first_pad_instance(s.instances@, pad@, i));
                    } else {
                        assert forall|i: int| !first_pad_instance(s.instances@, pad@, i) by {}
                    }
                }
                r
            },
            None => None,
        }
    }

    /// Opens the keyboard for the player driven by `pad`, remembering the
    /// previously focused window, the launcher's terminal and the workspace
    /// to send it back to (see [`osk_opened`]).
    pub fn open_osk(
        &mut self,
        pad: &str,
        prev_focus: Option<String>,
        terminal: Option<String>,
        home: Option<String>,
    )
        requires
            old(self).wf(),
        ensures
            final(self).wf(),
            osk_opened(old(self)@, final(self)@, pad@, prev_focus, terminal, home),
    {
        let target = self.osk_target(pad);
        let (player, target_window) = match target {
            Some(t) => t,
            None => return,
        };
        proof {
            let s = old(self)@.session->Some_0;
            let i = choose|i: int| first_pad_instance(s.instances@, pad@, i) && player == s.instances@[i].player
                && target_window == s.instances@[i].window;
            let c = choose|i: int| first_pad_instance(s.instances@, pad@, i);
            if c < i {
                assert(!assigned_pad(s.instances@[c].assignment, pad@));
            } else if i < c {
                assert(!assigned_pad(s.instances@[i].assignment, pad@));
            }
        }
        let terminal_home_ws = match home {
            Some(h) => h,
            None => "1".to_string(),
        };
        self.osk = Some(Osk::new(player, target_window));
        self.osk_return = Some(
            OskReturn { owner_pad: pad.to_string(), prev_focus, terminal, terminal_home_ws },
        );
        self.status = msg_num(
            "controller keyboard open for player ",
            player as u128 + 1,
            " — d-pad to move, ✕/A to type, △/Y shift, □/X erase",
        );
        proof {
            assert(osk_inv(osk_initial(player, target_window))) by {
                assert(osk_initial(player, target_window).strokes =~= osk_initial(player, target_window).display.map_values(|c: char| crate::osk::keystroke(c)));
            }
            let v = self@;
            assert(v.session is Some);
            assert(v.screen == Screen::Session);
            assert(v.osk is Some <==> v.osk_return is Some);
            assert(v.osk matches Some(o) ==> osk_inv(o));
            assert(v.slots == old(self)@.slots);
            assert(v.pads == old(self)@.pads);
            assert(v.combos == old(self)@.combos);
            assert(v.handlers == old(self)@.handlers);
            assert(app_inv(v));
        }
    }

    /// Polls the Start+Select holds (see [`poll_view`]); the returned pad's
    /// player asked for the keyboard.
    pub fn poll_combos(&mut self, now: u64) -> (r: Option<String>)
        requires
            old(self).wf(),
        ensures
            final(self).wf(),
            final(self)@ == poll_view(old(self)@, now).0,
            match r {
                Some(p) => poll_view(old(self)@, now).1 == Some(p@),
                None => poll_view(old(self)@, now).1 is None,
            },
    {
        if self.osk.is_some() || self.screen != Screen::Session {
            return None;
        }
        let ghost v = self@;
        let mut j: usize = 0;
        while j < self.combos.len()
            invariant
                self.wf(),
                self@ == v,
                v == old(self)@,
                v.osk is None,
                v.screen == Screen::Session,
                j <= v.combos.len(),
                combos_view(self.combos@) == v.combos,
                forall|k: int| 0 <= k < j ==> !combo_fires(#[trigger] v.combos[k].1, now),
            decreases v.combos.len() - j,
        {
            assert(v.combos[j as int] == (self.combos@[j as int].0@, self.combos@[j as int].1@));
            let (p, mut t) = self.combos.remove(j);
            let fired = t.fired(now);
            let out = if fired {
                Some(p.clone())
            } else {
                None
            };
            self.combos.insert(j, (p, t));
            if fired {
                proof {
                    assert(first_firing(v.combos, now, j as int));
                    let c = choose|c: int| first_firing(v.combos, now, c);
                    if c < j {
                    } else if j < c {
                        assert(!combo_fires(v.combos[j as int].1, now));
                    }
                    assert(c == j);
                    assert(combos_view(self.combos@) =~= poll_view(v, now).0.combos);
                    assert(self@ == poll_view(v, now).0);
                    assert(poll_view(v, now).1 == Some(v.combos[j as int].0));
                    let w = self@;
                    assert forall|a: int, b: int|
                        #![trigger w.combos[a], w.combos[b]]
                        0 <= a < b < w.combos.len() implies w.combos[a].0 != w.combos[b].0 by {
                        assert(w.combos[a].0 == v.combos[a].0);
                        assert(w.combos[b].0 == v.combos[b].0);
                    }
                }
                return out;
            }
            assert(combos_view(self.combos@) =~= v.combos);
            j = j + 1;
        }
        proof {
            assert forall|c: int| !first_firing(v.combos, now, c) by {}
        }
        None
    }

    /// Reports how typing the committed text went.
    pub fn typing_finished(&mut self, player: usize, error: Option<String>)
        requires
            old(self).wf(),
        ensures
            final(self).wf(),
            final(self)@ == (AppView {
                status: match error {
                    None => "typed into player "@ + decimal((player + 1) as nat) + "'s game"@,
                    Some(e) => "keyboard injection failed: "@ + e@,
                },
                ..old(self)@
            }),
    {
        match error {
            None => {
                self.status = msg_num("typed into player ", player as u128 + 1, "'s game");
            },
            Some(e) => {
                let mut s = "keyboard injection failed: ".to_string();
                push_str(&mut s, e.as_str());
                self.status = s;
            },
        }
    }

    /// A session was launched for the slots: it runs on the session screen.
    pub fn session_started(&mut self, session: Session)
        requires
            old(self).wf(),
        ensures
            final(self).wf(),
            final(self)@ == (AppView {
                session: Some(session),
                screen: Screen::Session,
                status: "launched "@ + decimal(old(self)@.slots.len() as nat)
                    + " instance(s) — switch back to this workspace to manage the session"@,
                ..old(self)@
            }),
    {
        self.session = Some(session);
        self.screen = Screen::Session;
        self.status = msg_num(
            "launched ",
            self.slots.len() as u128,
            " instance(s) — switch back to this workspace to manage the session",
        );
    }

    /// Launching failed; the status gives the reason.
    pub fn session_failed(&mut self, error: &str)
        requires
            old(self).wf(),
        ensures
            final(self).wf(),
            final(self)@ == (AppView { status: "launch failed: "@ + error@, ..old(self)@ }),
    {
        let mut s = "launch failed: ".to_string();
        push_str(&mut s, error);
        self.status = s;
    }

    /// Ends the session once every instance has exited: the keyboard closes,
    /// the session is handed back for shutdown, and setup resumes.
    pub fn check_session_end(&mut self) -> (r: Option<SessionEnd>)
        requires
            old(self).wf(),
        ensures
            final(self).wf(),
            !session_over(old(self)@) ==> final(self)@ == old(self)@ && r is None,
            session_over(old(self)@) ==> {
                &&& final(self)@ == (AppView {
                    session: None,
                    screen: Screen::PlayerSetup,
                    status: "all game instances exited — session ended"@,
                    ..close_osk_view(old(self)@, false)
                })
                &&& r matches Some(e) && e.session == old(self)@.session && closing_ok(e.closing, old(self)@, false)
            },
    {
        let over = match &self.session {
            Some(s) => s.all_exited(),
            None => false,
        };
        if !over {
            return None;
        }
        let closing = self.close_osk(false);
        let session = self.session.take();
        self.screen = Screen::PlayerSetup;
        self.status = "all game instances exited — session ended".to_string();
        Some(SessionEnd { closing, session })
    }

    /// Ends whatever session runs, for quitting: the keyboard closes and the
    /// session is handed back for shutdown.
    pub fn quit_cleanup(&mut self) -> (r: SessionEnd)
        requires
            old(self).wf(),
        ensures
            final(self).wf(),
            final(self)@ == (AppView { session: None, ..close_osk_view(old(self)@, false) }),
            r.session == old(self)@.session,
            closing_ok(r.closing, old(self)@, false),
    {
        let closing = self.close_osk(false);
        let session = self.session.take();
        SessionEnd { closing, session }
    }

    /// Handles an event from the controller watcher at time `now`
    /// (milliseconds): pads plugged in and out, and button edges (see
    /// [`pad_added_view`], [`pad_removed_view`] and [`pad_button_view`]).
    /// Returns the plan for closing the keyboard when a button closed it.
    pub fn on_pad_event(&mut self, event: PadEvent, now: u64) -> (c: Option<OskClosing>)
        requires
            old(self).wf(),
        ensures
            final(self).wf(),
            match event {
                PadEvent::Added(pad) => final(self)@ == pad_added_view(old(self)@, pad) && c is None,
                PadEvent::Removed(path) => final(self)@ == pad_removed_view(old(self)@, path@) && c is None,
                PadEvent::Button { path, button, pressed } => {
                    let (w, close) = pad_button_view(old(self)@, path@, button, pressed, now);
                    &&& final(self)@ == w
                    &&& match close {
                        None => c is None,
                        Some(commit) => closing_ok(c, osk_button_step(old(self)@, button).0, commit),
                    }
                },
            },
    {
        match event {
            PadEvent::Added(pad) => {
                self.pad_added(pad);
                None
            },
            PadEvent::Removed(path) => {
                self.pad_removed(path.as_str());
                None
            },
            PadEvent::Button { path, button, pressed } => {
                if self.screen == Screen::PlayerSetup && pressed {
                    self.claim_pad(path.as_str());
                    return None;
                }
                if self.osk.is_some() {
                    let owns = match &self.osk_return {
                        Some(r) => str_eq(r.owner_pad.as_str(), path.as_str()),
                        None => false,
                    };
                    if owns && pressed {
                        return self.osk_button(button);
                    }
                    return None;
                }
                self.update_combo(path.as_str(), button, pressed, now);
                None
            },
        }
    }
}

} // verus!

verus! {

impl App {
    /// Every launcher the library hands out keeps [`app_inv`]: at most one
    /// keyboard+mouse player, no pad driving two players, claimed pads
    /// connected, no more players than the game allows, and the keyboard
    /// open only during a session.
    pub proof fn law_invariant_holds(&self)
        requires
            self.wf(),
        ensures
            app_inv(self@),
    {
    }
}

/// Unplugging a pad frees its slot and forgets it: afterwards no slot is
/// driven by it and it is no longer listed, while every other slot stays.
pub proof fn law_unplug_frees_slot(v: AppView, path: Seq<char>)
    ensures
        !pad_in_slots(pad_removed_view(v, path).slots, path),
        !pad_known(pad_removed_view(v, path).pads, path),
        forall|i: int|
            0 <= i < v.slots.len() && !assigned_pad(v.slots[i], path) ==> pad_removed_view(
                v,
                path,
            ).slots.contains(#[trigger] v.slots[i]),
{
    let w = pad_removed_view(v, path);
    broadcast use vstd::seq_lib::group_filter_ensures;
    assert forall|i: int| 0 <= i < w.slots.len() implies !assigned_pad(#[trigger] w.slots[i], path) by {
        assert(slot_elsewhere(path)(w.slots[i]));
    }
    assert forall|k: int| 0 <= k < w.pads.len() implies (#[trigger] w.pads[k]).event_path@ != path by {
        assert(pad_elsewhere(path)(w.pads[k]));
    }
    assert forall|i: int|
        0 <= i < v.slots.len() && !assigned_pad(v.slots[i], path) implies w.slots.contains(
        #[trigger] v.slots[i],
    ) by {
        assert(slot_elsewhere(path)(v.slots[i]));
    }
}

/// Claiming a slot with a pad on the player-setup screen (a button press,
/// the step [`App::on_pad_event`] takes): the first connected pad at `path`
/// takes the next slot when there is room and it does not play yet;
/// otherwise nothing changes. The launcher's invariant holds afterwards.
pub proof fn law_claim_pad(v: AppView, path: Seq<char>, button: PadButton, now: u64)
    requires
        app_inv(v),
        v.screen == Screen::PlayerSetup,
    ensures
        pad_button_view(v, path, button, true, now).1 is None,
        (v.slots.len() < max_players(v) && pad_known(v.pads, path) && !pad_in_slots(v.slots, path))
            ==> exists|k: int|
            0 <= k < v.pads.len() && (#[trigger] v.pads[k]).event_path@ == path && (forall|j: int|
                0 <= j < k ==> v.pads[j].event_path@ != path) && pad_button_view(
                v,
                path,
                button,
                true,
                now,
            ).0.slots == v.slots.push(Assignment::Pad(v.pads[k])),
        !(v.slots.len() < max_players(v) && pad_known(v.pads, path) && !pad_in_slots(v.slots, path))
            ==> pad_button_view(v, path, button, true, now).0 == v,
        app_inv(pad_button_view(v, path, button, true, now).0),
{
    assert(pad_button_view(v, path, button, true, now) == (claim_view(v, path), None::<bool>));
    if v.slots.len() < max_players(v) && pad_known(v.pads, path) && !pad_in_slots(v.slots, path) {
        let k = choose|k: int| 0 <= k < v.pads.len() && (#[trigger] v.pads[k]).event_path@ == path;
        assert forall|j: int| 0 <= j < k implies v.pads[j].event_path@ != path by {
            assert(v.pads[j].event_path@ != v.pads[k].event_path@);
        }
        let w = claim_view(v, path);
        assert(w.slots == v.slots.push(Assignment::Pad(v.pads[k])));
        assert forall|a: int, b: int|
            #![trigger w.slots[a], w.slots[b]]
            0 <= a < b < w.slots.len() implies different_pads(w.slots[a], w.slots[b]) by {
            if b == v.slots.len() {
                assert(w.slots[a] == v.slots[a]);
                assert(!assigned_pad(v.slots[a], path));
            } else {
                assert(w.slots[a] == v.slots[a]);
                assert(w.slots[b] == v.slots[b]);
            }
        }
        assert forall|i: int, j: int|
            #![trigger w.slots[i], w.slots[j]]
            0 <= i < w.slots.len() && 0 <= j < w.slots.len() && w.slots[i] is Kbm && w.slots[j] is Kbm
                implies i == j by {
            if i < v.slots.len() && j < v.slots.len() {
                assert(w.slots[i] == v.slots[i]);
                assert(w.slots[j] == v.slots[j]);
            }
        }
        assert forall|i: int| 0 <= i < w.slots.len() implies match #[trigger] w.slots[i] {
            Assignment::Pad(p) => pad_known(w.pads, p.event_path@),
            Assignment::Kbm => true,
        } by {
            if i < v.slots.len() {
                assert(w.slots[i] == v.slots[i]);
            }
        }
    }
}

/// Keys on the game list (the step [`App::on_key`] takes): `q` or Esc
/// quits; Up/`k` and Down/`j` move the selection by one, stopping at the
/// first and last game; Enter on an installed game goes to player setup
/// with no players yet, and on a game that is not installed only says so.
/// No key assigns a player or starts a session there. (The game list is
/// held in memory, so it has at most `usize::MAX` entries.)
pub proof fn law_game_list_keys(v: AppView, key: Key)
    requires
        app_inv(v),
        v.handlers.len() <= usize::MAX,
        v.osk is None,
        v.screen == Screen::GameSelect,
    ensures
        ({
            let w = key_step(v, key);
            &&& (key == Key::Char('q') || key == Key::Esc) ==> w.should_quit && w.screen == v.screen
                && w.selected == v.selected
            &&& (key == Key::Up || key == Key::Char('k')) ==> w.selected == (if v.selected == 0 {
                0
            } else {
                v.selected - 1
            }) && w.screen == v.screen && w.should_quit == v.should_quit
            &&& (key == Key::Down || key == Key::Char('j')) ==> w.selected == (if v.selected + 1
                == v.handlers.len() {
                v.selected as int
            } else {
                v.selected + 1
            }) && w.screen == v.screen && w.should_quit == v.should_quit
            &&& (key == Key::Enter && v.handlers[v.selected as int].game_dir is Some) ==> w.screen
                == Screen::PlayerSetup && w.slots.len() == 0 && w.selected == v.selected
            &&& (key == Key::Enter && v.handlers[v.selected as int].game_dir is None) ==> w.screen
                == v.screen && w.status == v.handlers[v.selected as int].handler.name@
                + " is not installed"@
            &&& w.slots.len() == 0 && w.session is None && !key_starts_session(v, key)
            &&& w.pads == v.pads && w.handlers == v.handlers
        }),
{
}

/// Keys on player setup other than claiming and removing players: `q`
/// quits keeping the players; Esc goes back to the game list and lets all
/// players go; Enter asks to launch when at least one player is assigned
/// and otherwise only says one is needed.
pub proof fn law_setup_keys(v: AppView, key: Key)
    requires
        app_inv(v),
        v.osk is None,
        v.screen == Screen::PlayerSetup,
    ensures
        ({
            let w = key_step(v, key);
            &&& key == Key::Char('q') ==> w.should_quit && w.slots == v.slots && w.screen == v.screen
            &&& key == Key::Esc ==> w.screen == Screen::GameSelect && w.slots.len() == 0
                && w.should_quit == v.should_quit
            &&& key == Key::Enter ==> (key_starts_session(v, key) <==> v.slots.len() > 0)
                && w.slots == v.slots && w.screen == v.screen
            &&& (key == Key::Enter && v.slots.len() == 0) ==> w.status
                == "assign at least one player first"@
            &&& w.pads == v.pads && w.handlers == v.handlers && w.selected == v.selected
            &&& app_inv(w)
        }),
{
}

/// Keys during a session: `e` or Esc ends it and goes back to player setup
/// with the players kept; `q` ends it and quits; every other key does
/// nothing.
pub proof fn law_session_keys(v: AppView, key: Key)
    requires
        app_inv(v),
        v.osk is None,
        v.screen == Screen::Session,
    ensures
        ({
            let w = key_step(v, key);
            &&& (key == Key::Char('e') || key == Key::Esc) ==> w.session is None && w.screen
                == Screen::PlayerSetup && w.slots == v.slots && !w.should_quit
                == !v.should_quit && key_ends_session(v, key)
            &&& key == Key::Char('q') ==> w.session is None && w.should_quit && w.slots == v.slots
                && key_ends_session(v, key)
            &&& !(key == Key::Char('e') || key == Key::Esc || key == Key::Char('q')) ==> w == v
                && !key_ends_session(v, key)
        }),
{
}

/// Removing a player with Backspace or `x` on the player-setup screen (the
/// step [`App::on_key`] takes with the keyboard closed): with at least one
/// player, exactly the last one leaves and every earlier player keeps its
/// slot and its place, and the status says so; with none, nothing changes.
/// Nothing else changes, and the launcher's invariant holds afterwards.
pub proof fn law_remove_last_player(v: AppView, key: Key)
    requires
        app_inv(v),
        v.osk is None,
        v.screen == Screen::PlayerSetup,
        key == Key::Backspace || key == Key::Char('x'),
    ensures
        ({
            let w = key_step(v, key);
            &&& v.slots.len() > 0 ==> {
                &&& w.slots.len() == v.slots.len() - 1
                &&& forall|i: int| 0 <= i < w.slots.len() ==> #[trigger] w.slots[i] == v.slots[i]
                &&& w.status == "removed last player"@
            }
            &&& v.slots.len() == 0 ==> w == v
            &&& w.screen == v.screen && w.pads == v.pads && w.session == v.session && w.selected
                == v.selected && w.handlers == v.handlers && w.combos == v.combos && w.osk == v.osk
            &&& app_inv(w)
        }),
{
    let w = key_step(v, key);
    if v.slots.len() > 0 {
        assert forall|a: int, b: int|
            #![trigger w.slots[a], w.slots[b]]
            0 <= a < b < w.slots.len() implies different_pads(w.slots[a], w.slots[b]) by {
            assert(w.slots[a] == v.slots[a]);
            assert(w.slots[b] == v.slots[b]);
        }
        assert forall|i: int, j: int|
            #![trigger w.slots[i], w.slots[j]]
            0 <= i < w.slots.len() && 0 <= j < w.slots.len() && w.slots[i] is Kbm && w.slots[j] is Kbm
                implies i == j by {
            assert(w.slots[i] == v.slots[i]);
            assert(w.slots[j] == v.slots[j]);
        }
        assert forall|i: int| 0 <= i < w.slots.len() implies match #[trigger] w.slots[i] {
            Assignment::Pad(p) => pad_known(w.pads, p.event_path@),
            Assignment::Kbm => true,
        } by {
            assert(w.slots[i] == v.slots[i]);
        }
    }
}

/// Claiming the keyboard+mouse player with `m` on the player-setup screen
/// (the step [`App::on_key`] takes with the keyboard closed): it takes the
/// next slot when nobody has it and there is room; otherwise the slots stay
/// as they are. The launcher's invariant holds afterwards.
pub proof fn law_kbm_key(v: AppView)
    requires
        app_inv(v),
        v.osk is None,
        v.screen == Screen::PlayerSetup,
    ensures
        key_step(v, Key::Char('m')).slots == if !kbm_taken(v.slots) && v.slots.len() < max_players(v) {
            v.slots.push(Assignment::Kbm)
        } else {
            v.slots
        },
        app_inv(key_step(v, Key::Char('m'))),
{
    let w = key_step(v, Key::Char('m'));
    if !kbm_taken(v.slots) && v.slots.len() < max_players(v) {
        assert(w.slots == v.slots.push(Assignment::Kbm));
        assert forall|a: int, b: int|
            #![trigger w.slots[a], w.slots[b]]
            0 <= a < b < w.slots.len() implies different_pads(w.slots[a], w.slots[b]) by {
            assert(w.slots[a] == v.slots[a]);
            if b < v.slots.len() {
                assert(w.slots[b] == v.slots[b]);
            }
        }
        assert forall|i: int, j: int|
            #![trigger w.slots[i], w.slots[j]]
            0 <= i < w.slots.len() && 0 <= j < w.slots.len() && w.slots[i] is Kbm && w.slots[j] is Kbm
                implies i == j by {
            if i < v.slots.len() {
                assert(w.slots[i] == v.slots[i]);
            }
            if j < v.slots.len() {
                assert(w.slots[j] == v.slots[j]);
            }
        }
        assert forall|i: int| 0 <= i < w.slots.len() implies match #[trigger] w.slots[i] {
            Assignment::Pad(p) => pad_known(w.pads, p.event_path@),
            Assignment::Kbm => true,
        } by {
            if i < v.slots.len() {
                assert(w.slots[i] == v.slots[i]);
            }
        }
    }
}

} // verus!
