//! Sessions: one sandboxed game instance per player.

pub mod goldberg;
pub mod sandbox;

use vstd::prelude::*;

use crate::handler::{env_expansion, expand_env_with, GameHandler, LoadedHandler};
use crate::hypr::{action_view, guard_restore, DesktopAction, SessionGuard};
use crate::input::PadInfo;
use crate::launch::sandbox::{pair_texts, SandboxSpec};
use crate::paths::{join_path, path_join};
use crate::text::texts;
use crate::text::push_str;

verus! {

/// What drives a player's instance: a gamepad, or the keyboard and mouse.
#[derive(Debug)]
pub enum Assignment {
    Pad(PadInfo),
    Kbm,
}

impl Clone for Assignment {
    fn clone(&self) -> (r: Assignment)
        ensures
            r == *self,
    {
        match self {
            Assignment::Pad(p) => Assignment::Pad(p.clone()),
            Assignment::Kbm => Assignment::Kbm,
        }
    }
}

/// The label of a keyboard+mouse slot.
pub open spec fn kbm_label() -> Seq<char> {
    "Keyboard + Mouse"@
}

impl Assignment {
    pub fn label(&self) -> (s: String)
        ensures
            s@ == match self {
                Assignment::Pad(pad) => pad.name@,
                Assignment::Kbm => kbm_label(),
            },
    {
        match self {
            Assignment::Pad(pad) => pad.name.clone(),
            Assignment::Kbm => "Keyboard + Mouse".to_string(),
        }
    }
}

/// One player's running game instance.
#[derive(Debug, Clone)]
pub struct Instance {
    pub player: usize,
    pub assignment: Assignment,
    /// Process id of the sandbox the instance runs in.
    pub pid: u32,
    /// Address of the game window, once it has been adopted.
    pub window: Option<String>,
    /// Whether the process has exited.
    pub exited: bool,
}

impl Instance {
    pub fn running(&self) -> (r: bool)
        ensures
            r == !self.exited,
    {
        !self.exited
    }
}

/// A running co-op session: the instances and the desktop state applied
/// for them.
#[derive(Debug)]
pub struct Session {
    pub instances: Vec<Instance>,
    pub guard: SessionGuard,
}

} // verus!

verus! {

/// Whether an assignment is the pad at `path`.
pub open spec fn assigned_pad(a: Assignment, path: Seq<char>) -> bool {
    match a {
        Assignment::Pad(p) => p.event_path@ == path,
        Assignment::Kbm => false,
    }
}

/// Whether `a` is the pad at `path`.
pub fn is_pad_at(a: &Assignment, path: &str) -> (r: bool)
    ensures
        r == assigned_pad(*a, path@),
{
    match a {
        Assignment::Pad(p) => crate::text::str_eq(p.event_path.as_str(), path),
        Assignment::Kbm => false,
    }
}

impl Session {
    pub fn new(instances: Vec<Instance>, guard: SessionGuard) -> (s: Session)
        ensures
            s.instances == instances,
            s.guard == guard,
    {
        Session { instances, guard }
    }

    /// Whether every instance's process has exited.
    pub fn all_exited(&self) -> (r: bool)
        ensures
            r == forall|i: int| 0 <= i < self.instances@.len() ==> (#[trigger] self.instances@[i]).exited,
    {
        let mut i: usize = 0;
        while i < self.instances.len()
            invariant
                i <= self.instances@.len(),
                forall|j: int| 0 <= j < i ==> (#[trigger] self.instances@[j]).exited,
            decreases self.instances@.len() - i,
        {
            if self.instances[i].running() {
                return false;
            }
            i = i + 1;
        }
        true
    }

    /// Records that instance `index` has exited.
    pub fn mark_exited(&mut self, index: usize)
        requires
            index < old(self).instances@.len(),
        ensures
            final(self).guard == old(self).guard,
            final(self).instances@ == old(self).instances@.update(
                index as int,
                Instance { exited: true, ..old(self).instances@[index as int] },
            ),
    {
        let mut inst = self.instances[index].clone_instance();
        inst.exited = true;
        self.instances.set(index, inst);
    }

    /// Maps a newly opened window to the first instance without a window
    /// whose sandbox pid is among the window process's ancestors. Returns
    /// whether that instance is the keyboard+mouse player's, for adopting the
    /// window; nothing when no instance matches.
    pub fn match_window(&mut self, address: &str, ancestors: &[u32]) -> (r: Option<bool>)
        ensures
            final(self).guard == old(self).guard,
            match r {
                Some(kbm) => exists|i: int|
                    0 <= i < old(self).instances@.len() && claims_window(
                        old(self).instances@[i],
                        ancestors@,
                    ) && (forall|j: int|
                        0 <= j < i ==> !claims_window(#[trigger] old(self).instances@[j], ancestors@))
                        && kbm == (old(self).instances@[i].assignment is Kbm) && adopted(
                        old(self).instances@,
                        final(self).instances@,
                        i,
                        address@,
                    ),
                None => final(self).instances@ == old(self).instances@ && forall|i: int|
                    0 <= i < old(self).instances@.len() ==> !claims_window(
                        #[trigger] old(self).instances@[i],
                        ancestors@,
                    ),
            },
    {
        let mut i: usize = 0;
        while i < self.instances.len()
            invariant
                i <= self.instances@.len(),
                self.instances@ == old(self).instances@,
                self.guard == old(self).guard,
                forall|j: int| 0 <= j < i ==> !claims_window(#[trigger] self.instances@[j], ancestors@),
            decreases self.instances@.len() - i,
        {
            if self.instances[i].window.is_none() && crate::hypr::contains_u32(ancestors, self.instances[i].pid) {
                let kbm = match self.instances[i].assignment {
                    Assignment::Kbm => true,
                    Assignment::Pad(_) => false,
                };
                let mut inst = self.instances[i].clone_instance();
                inst.window = Some(address.to_string());
                self.instances.set(i, inst);
                assert(adopted(old(self).instances@, self.instances@, i as int, address@));
                assert(claims_window(old(self).instances@[i as int], ancestors@));
                return Some(kbm);
            }
            i = i + 1;
        }
        None
    }

    /// The player and window of the instance driven by the pad at `pad`.
    pub fn instance_for_pad(&self, pad: &str) -> (r: Option<(usize, Option<String>)>)
        ensures
            match r {
                Some((player, window)) => exists|i: int|
                    0 <= i < self.instances@.len() && assigned_pad(self.instances@[i].assignment, pad@)
                        && (forall|j: int|
                        0 <= j < i ==> !assigned_pad(#[trigger] self.instances@[j].assignment, pad@))
                        && player == self.instances@[i].player && window == self.instances@[i].window,
                None => forall|i: int|
                    0 <= i < self.instances@.len() ==> !assigned_pad(#[trigger] self.instances@[i].assignment, pad@),
            },
    {
        let mut i: usize = 0;
        while i < self.instances.len()
            invariant
                i <= self.instances@.len(),
                forall|j: int| 0 <= j < i ==> !assigned_pad(#[trigger] self.instances@[j].assignment, pad@),
            decreases self.instances@.len() - i,
        {
            if is_pad_at(&self.instances[i].assignment, pad) {
                let window = match &self.instances[i].window {
                    Some(w) => Some(w.clone()),
                    None => None,
                };
                return Some((self.instances[i].player, window));
            }
            i = i + 1;
        }
        None
    }

    /// Ends the session: the indices of the instances still running (to be
    /// killed and reaped), then the actions that restore the desktop.
    pub fn shutdown(&mut self) -> (r: (Vec<usize>, Vec<DesktopAction>))
        ensures
            final(self).instances == old(self).instances,
            (final(self).guard@, r.1@.map_values(|a: DesktopAction| action_view(a))) == guard_restore(
                old(self).guard@,
            ),
            forall|k: int| 0 <= k < r.0@.len() ==> (#[trigger] r.0@[k]) < old(self).instances@.len(),
            forall|i: int|
                0 <= i < old(self).instances@.len() ==> (r.0@.contains(i as usize) <==> !(
                #[trigger] old(self).instances@[i]).exited),
            forall|a: int, b: int| 0 <= a < b < r.0@.len() ==> r.0@[a] < r.0@[b],
    {
        let mut kill: Vec<usize> = Vec::new();
        let mut i: usize = 0;
        while i < self.instances.len()
            invariant
                i <= self.instances@.len(),
                self.instances == old(self).instances,
                self.guard == old(self).guard,
                forall|k: int| 0 <= k < kill@.len() ==> (#[trigger] kill@[k]) < i,
                forall|j: int| 0 <= j < i ==> (kill@.contains(j as usize) <==> !(#[trigger] self.instances@[j]).exited),
                forall|a: int, b: int| 0 <= a < b < kill@.len() ==> kill@[a] < kill@[b],
            decreases self.instances@.len() - i,
        {
            let ghost before = kill@;
            if self.instances[i].running() {
                kill.push(i);
                assert(kill@ == before.push(i));
                assert(kill@[kill@.len() - 1] == i);
                assert forall|j: int| 0 <= j < i implies (#[trigger] kill@.contains(j as usize) <==> before.contains(j as usize)) by {
                    if kill@.contains(j as usize) {
                        let k = choose|k: int| 0 <= k < kill@.len() && kill@[k] == j as usize;
                        if k < before.len() {
                            assert(before[k] == j as usize);
                        }
                    }
                    if before.contains(j as usize) {
                        let k = choose|k: int| 0 <= k < before.len() && before[k] == j as usize;
                        assert(kill@[k] == j as usize);
                    }
                }
            } else {
                assert forall|k: int| 0 <= k < kill@.len() implies kill@[k] != i by {}
            }
            i = i + 1;
        }
        let actions = self.guard.restore();
        (kill, actions)
    }
}

/// `after` is `before` with instance `i` given the window at `address`.
pub open spec fn adopted(before: Seq<Instance>, after: Seq<Instance>, i: int, address: Seq<char>) -> bool {
    &&& after.len() == before.len()
    &&& forall|j: int| 0 <= j < before.len() && j != i ==> after[j] == before[j]
    &&& after[i] == Instance { window: after[i].window, ..before[i] }
    &&& after[i].window matches Some(w) && w@ == address
}

/// Whether an instance claims a window whose process has these ancestors:
/// it has no window yet and its sandbox pid is among them.
pub open spec fn claims_window(inst: Instance, ancestors: Seq<u32>) -> bool {
    inst.window is None && ancestors.contains(inst.pid)
}

impl Instance {
    /// A copy of the instance.
    pub fn clone_instance(&self) -> (r: Instance)
        ensures
            r == *self,
    {
        let assignment = self.assignment.clone();
        let window = match &self.window {
            Some(w) => Some(w.clone()),
            None => None,
        };
        Instance { player: self.player, assignment, pid: self.pid, window, exited: self.exited }
    }
}

} // verus!

verus! {

/// Why a session cannot start.
#[derive(Debug, Clone, PartialEq, Eq)]
pub enum LaunchError {
    /// The handler's game is not installed; holds the game's name.
    NotInstalled(String),
    /// No player was assigned.
    NoPlayers,
    /// The handler asks for Goldberg but names no Steam API library.
    NoSteamApiLib,
}

impl LaunchError {
    /// The error as the launcher reports it.
    pub fn message(&self) -> (r: String)
        ensures
            r@ == match self {
                LaunchError::NotInstalled(name) => name@ + " is not installed"@,
                LaunchError::NoPlayers => "no players assigned"@,
                LaunchError::NoSteamApiLib => "handler has goldberg=true but no steam_api_lib"@,
            },
    {
        match self {
            LaunchError::NotInstalled(name) => {
                let mut r = name.clone();
                push_str(&mut r, " is not installed");
                r
            },
            LaunchError::NoPlayers => "no players assigned".to_string(),
            LaunchError::NoSteamApiLib => "handler has goldberg=true but no steam_api_lib".to_string(),
        }
    }
}

/// Checks that a session can start: the game is installed and someone
/// plays. Gives the game's directory.
pub fn check_launch(loaded: &LoadedHandler, players: &[Assignment]) -> (r: Result<String, LaunchError>)
    ensures
        match r {
            Ok(dir) => loaded.game_dir == Some(dir) && players@.len() > 0,
            Err(LaunchError::NotInstalled(name)) => loaded.game_dir is None && name@
                == loaded.handler.name@,
            Err(LaunchError::NoPlayers) => loaded.game_dir is Some && players@.len() == 0,
            Err(LaunchError::NoSteamApiLib) => false,
        },
{
    let dir = match &loaded.game_dir {
        Some(d) => d.clone(),
        None => {
            return Err(LaunchError::NotInstalled(loaded.handler.name.clone()));
        },
    };
    if players.len() == 0 {
        return Err(LaunchError::NoPlayers);
    }
    Ok(dir)
}

/// The Steam API library that a Goldberg instance swaps out.
pub fn goldberg_api_lib(handler: &GameHandler) -> (r: Result<String, LaunchError>)
    ensures
        match r {
            Ok(lib) => handler.steam_api_lib == Some(lib),
            Err(e) => handler.steam_api_lib is None && e == LaunchError::NoSteamApiLib,
        },
{
    match &handler.steam_api_lib {
        Some(lib) => Ok(lib.clone()),
        None => Err(LaunchError::NoSteamApiLib),
    }
}

/// The device nodes an instance may see: its pad's event node and joystick
/// node, or none for the keyboard+mouse player.
pub open spec fn input_nodes_spec(a: Assignment) -> Seq<Seq<char>> {
    match a {
        Assignment::Pad(p) => match p.js_path {
            Some(js) => seq![p.event_path@, js@],
            None => seq![p.event_path@],
        },
        Assignment::Kbm => Seq::empty(),
    }
}

/// See [`input_nodes_spec`].
pub fn input_nodes(a: &Assignment) -> (r: Vec<String>)
    ensures
        texts(r@) == input_nodes_spec(*a),
{
    match a {
        Assignment::Pad(p) => {
            let mut nodes = vec![p.event_path.clone()];
            match &p.js_path {
                Some(js) => {
                    nodes.push(js.clone());
                },
                None => {},
            }
            assert(texts(nodes@) =~= input_nodes_spec(*a));
            nodes
        },
        Assignment::Kbm => {
            let nodes: Vec<String> = Vec::new();
            assert(texts(nodes@) =~= input_nodes_spec(*a));
            nodes
        },
    }
}

/// What an instance may see of the input devices: a pad player sees its
/// pad's event node first, and then its joystick node exactly when the pad
/// has one, and nothing else; the keyboard+mouse player sees no pad node.
pub proof fn law_input_nodes(a: Assignment)
    ensures
        ({
            let nodes = input_nodes_spec(a);
            match a {
                Assignment::Pad(p) => {
                    &&& nodes.len() >= 1
                    &&& nodes[0] == p.event_path@
                    &&& nodes.len() == if p.js_path is Some { 2int } else { 1int }
                    &&& p.js_path matches Some(j) ==> nodes[1] == j@ && nodes.contains(j@)
                },
                Assignment::Kbm => nodes.len() == 0,
            }
        }),
{
    match a {
        Assignment::Pad(p) => {
            if let Some(j) = p.js_path {
                assert(input_nodes_spec(a)[1] == j@);
            }
        },
        Assignment::Kbm => {},
    }
}

/// An instance's working directory: the handler's, relative to the
/// instance root, or the root itself.
pub open spec fn workdir_spec(root: Seq<char>, workdir: Option<String>) -> Seq<char> {
    match workdir {
        Some(w) => path_join(root, w@),
        None => root,
    }
}

/// The handler's environment with `{game_dir}` read as the instance root.
pub open spec fn env_spec(env: Seq<(Seq<char>, Seq<char>)>, root: Seq<char>, home: Seq<char>) -> Seq<
    (Seq<char>, Seq<char>),
> {
    env.map_values(|kv: (Seq<char>, Seq<char>)| (kv.0, env_expansion(kv.1, root, home)))
}

/// The command: the executable under the instance root, then the
/// handler's arguments.
pub open spec fn command_spec(root: Seq<char>, exe: Seq<char>, args: Seq<Seq<char>>) -> Seq<Seq<char>> {
    seq![path_join(root, exe)] + args
}

/// What an instance's sandbox is made of, for a given home directory.
pub open spec fn instance_spec_holds(
    s: SandboxSpec,
    handler: GameHandler,
    root: Seq<char>,
    home: Seq<char>,
    assignment: Assignment,
    binds: Seq<(Seq<char>, Seq<char>)>,
) -> bool {
    &&& texts(s.input_nodes@) == input_nodes_spec(assignment)
    &&& pair_texts(s.binds@) == binds
    &&& pair_texts(s.env@) == env_spec(pair_texts(handler.env@), root, home)
    &&& s.workdir@ == workdir_spec(root, handler.workdir)
    &&& texts(s.command@) == command_spec(root, handler.exe@, texts(handler.args@))
}

/// The sandbox of one instance running from `root` (the game directory, or
/// its Goldberg shadow), with `{home}` read as `home`.
pub fn instance_spec_with(
    handler: &GameHandler,
    root: &str,
    home: &str,
    assignment: &Assignment,
    binds: Vec<(String, String)>,
) -> (s: SandboxSpec)
    ensures
        instance_spec_holds(s, *handler, root@, home@, *assignment, pair_texts(binds@)),
{
    let nodes = input_nodes(assignment);
    let exe = join_path(root, handler.exe.as_str());
    let workdir = match &handler.workdir {
        Some(w) => join_path(root, w.as_str()),
        None => root.to_string(),
    };
    let ghost es = pair_texts(handler.env@);
    let mut env: Vec<(String, String)> = Vec::new();
    let mut i: usize = 0;
    while i < handler.env.len()
        invariant
            i <= handler.env@.len(),
            es == pair_texts(handler.env@),
            pair_texts(env@) == env_spec(es.take(i as int), root@, home@),
        decreases handler.env@.len() - i,
    {
        let kv = &handler.env[i];
        let v = expand_env_with(kv.1.as_str(), root, home);
        let ghost prev = pair_texts(env@);
        env.push((kv.0.clone(), v));
        assert(es[i as int] == (kv.0@, kv.1@));
        assert(pair_texts(env@) =~= prev.push((kv.0@, v@)));
        assert(env_spec(es.take(i + 1), root@, home@) =~= env_spec(es.take(i as int), root@, home@).push(
            (kv.0@, env_expansion(kv.1@, root@, home@)),
        ));
        i = i + 1;
    }
    assert(es.take(i as int) =~= es);
    let mut command = vec![exe];
    let ghost head = texts(command@);
    let ghost args = texts(handler.args@);
    let mut i: usize = 0;
    while i < handler.args.len()
        invariant
            i <= handler.args@.len(),
            args == texts(handler.args@),
            texts(command@) == head + args.take(i as int),
        decreases handler.args@.len() - i,
    {
        let ghost prev = texts(command@);
        command.push(handler.args[i].clone());
        assert(texts(command@) =~= prev.push(args[i as int]));
        assert(args.take(i + 1) =~= args.take(i as int).push(args[i as int]));
        i = i + 1;
    }
    assert(args.take(i as int) =~= args);
    let ghost cmd_head = head;
    assert(cmd_head =~= seq![path_join(root@, handler.exe@)]);
    SandboxSpec { input_nodes: nodes, binds, env, workdir, command }
}

/// The sandbox of one instance running from `root`; `{home}` in the
/// handler's environment is the user's home directory (empty when there is
/// none), which comes from the environment.
pub fn instance_spec(
    handler: &GameHandler,
    root: &str,
    assignment: &Assignment,
    binds: Vec<(String, String)>,
) -> (s: SandboxSpec)
    ensures
        exists|home: Seq<char>|
            instance_spec_holds(s, *handler, root@, home, *assignment, pair_texts(binds@)),
{
    let home = match crate::paths::home_dir() {
        Some(h) => h,
        None => String::new(),
    };
    let ghost b = pair_texts(binds@);
    let s = instance_spec_with(handler, root, home.as_str(), assignment, binds);
    assert(instance_spec_holds(s, *handler, root@, home@, *assignment, b));
    s
}

} // verus!
