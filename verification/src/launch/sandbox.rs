//! The bubblewrap sandbox that gives each game instance only its own
//! player's input devices.

use vstd::prelude::*;

use crate::text::{chars_of, seq_eq, slice_chars, texts};

verus! {

/// The sandbox program.
pub const SANDBOX_PROGRAM: &'static str = "bwrap";

/// Everything needed to launch one sandboxed game instance.
#[derive(Debug)]
pub struct SandboxSpec {
    /// Pad device nodes this instance is allowed to see. All other
    /// /dev/input nodes are masked by a tmpfs.
    pub input_nodes: Vec<String>,
    /// Read-write binds applied inside the sandbox (src, dest),
    /// e.g. the player's profile klei dir over ~/.klei.
    pub binds: Vec<(String, String)>,
    pub env: Vec<(String, String)>,
    pub workdir: String,
    /// Program + args (absolute exe path).
    pub command: Vec<String>,
}

/// The texts of a list of string pairs.
pub open spec fn pair_texts(v: Seq<(String, String)>) -> Seq<(Seq<char>, Seq<char>)> {
    v.map_values(|p: (String, String)| (p.0@, p.1@))
}

/// Binds each node onto itself inside the sandbox's empty `/dev/input`.
pub open spec fn node_args(nodes: Seq<Seq<char>>) -> Seq<Seq<char>>
    decreases nodes.len(),
{
    if nodes.len() == 0 {
        Seq::empty()
    } else {
        node_args(nodes.drop_last()) + seq!["--dev-bind"@, nodes.last(), nodes.last()]
    }
}

/// Masks each hidraw node with `/dev/null`.
pub open spec fn hidraw_args(nodes: Seq<Seq<char>>) -> Seq<Seq<char>>
    decreases nodes.len(),
{
    if nodes.len() == 0 {
        Seq::empty()
    } else {
        hidraw_args(nodes.drop_last()) + seq!["--dev-bind"@, "/dev/null"@, nodes.last()]
    }
}

/// The read-write binds.
pub open spec fn bind_args(binds: Seq<(Seq<char>, Seq<char>)>) -> Seq<Seq<char>>
    decreases binds.len(),
{
    if binds.len() == 0 {
        Seq::empty()
    } else {
        bind_args(binds.drop_last()) + seq!["--bind"@, binds.last().0, binds.last().1]
    }
}

/// The sandbox's arguments: the whole system passed through
/// (`--dev-bind / /`) so GPU, display sockets and network work; a tmpfs
/// over `/dev/input` with only this player's pad nodes bound back in; every
/// hidraw node masked; the binds; then the command.
pub open spec fn sandbox_args_spec(
    input_nodes: Seq<Seq<char>>,
    hidraw: Seq<Seq<char>>,
    binds: Seq<(Seq<char>, Seq<char>)>,
    command: Seq<Seq<char>>,
) -> Seq<Seq<char>> {
    seq![
        "--die-with-parent"@,
        "--dev-bind"@,
        "/"@,
        "/"@,
        "--tmpfs"@,
        "/dev/input"@,
    ] + node_args(input_nodes) + hidraw_args(hidraw) + bind_args(binds) + seq!["--"@] + command
}

/// Appends three strings.
fn push3(out: &mut Vec<String>, a: String, b: String, c: String)
    ensures
        texts(final(out)@) == texts(old(out)@) + seq![a@, b@, c@],
{
    let ghost before = texts(out@);
    out.push(a);
    out.push(b);
    out.push(c);
    assert(texts(out@) =~= before + seq![a@, b@, c@]);
}

/// The arguments of [`SANDBOX_PROGRAM`] for one instance, given the hidraw
/// nodes present on the machine (see [`sandbox_args_spec`]).
pub fn sandbox_args(spec: &SandboxSpec, hidraw: &Vec<String>) -> (r: Vec<String>)
    ensures
        texts(r@) == sandbox_args_spec(
            texts(spec.input_nodes@),
            texts(hidraw@),
            pair_texts(spec.binds@),
            texts(spec.command@),
        ),
{
    let mut out: Vec<String> = vec![
        "--die-with-parent".to_string(),
        "--dev-bind".to_string(),
        "/".to_string(),
        "/".to_string(),
        "--tmpfs".to_string(),
        "/dev/input".to_string(),
    ];
    let ghost head = texts(out@);
    assert(head =~= seq!["--die-with-parent"@, "--dev-bind"@, "/"@, "/"@, "--tmpfs"@, "/dev/input"@]);
    let ghost nodes = texts(spec.input_nodes@);
    let mut i: usize = 0;
    assert(nodes.take(0) =~= Seq::<Seq<char>>::empty());
    assert(texts(out@) =~= head + node_args(nodes.take(0)));
    while i < spec.input_nodes.len()
        invariant
            i <= spec.input_nodes@.len(),
            nodes == texts(spec.input_nodes@),
            texts(out@) == head + node_args(nodes.take(i as int)),
        decreases spec.input_nodes@.len() - i,
    {
        let n = &spec.input_nodes[i];
        push3(&mut out, "--dev-bind".to_string(), n.clone(), n.clone());
        assert(nodes.take(i + 1).drop_last() =~= nodes.take(i as int));
        assert(nodes.take(i + 1).last() == n@);
        assert(texts(out@) =~= head + node_args(nodes.take(i + 1)));
        i = i + 1;
    }
    assert(nodes.take(i as int) =~= nodes);
    let ghost mid = texts(out@);
    let ghost hs = texts(hidraw@);
    let mut i: usize = 0;
    assert(hs.take(0) =~= Seq::<Seq<char>>::empty());
    assert(texts(out@) =~= mid + hidraw_args(hs.take(0)));
    while i < hidraw.len()
        invariant
            i <= hidraw@.len(),
            hs == texts(hidraw@),
            texts(out@) == mid + hidraw_args(hs.take(i as int)),
        decreases hidraw@.len() - i,
    {
        let h = &hidraw[i];
        push3(&mut out, "--dev-bind".to_string(), "/dev/null".to_string(), h.clone());
        assert(hs.take(i + 1).drop_last() =~= hs.take(i as int));
        assert(hs.take(i + 1).last() == h@);
        assert(texts(out@) =~= mid + hidraw_args(hs.take(i + 1)));
        i = i + 1;
    }
    assert(hs.take(i as int) =~= hs);
    let ghost mid2 = texts(out@);
    let ghost bs = pair_texts(spec.binds@);
    let mut i: usize = 0;
    assert(bs.take(0) =~= Seq::<(Seq<char>, Seq<char>)>::empty());
    assert(texts(out@) =~= mid2 + bind_args(bs.take(0)));
    while i < spec.binds.len()
        invariant
            i <= spec.binds@.len(),
            bs == pair_texts(spec.binds@),
            texts(out@) == mid2 + bind_args(bs.take(i as int)),
        decreases spec.binds@.len() - i,
    {
        let b = &spec.binds[i];
        push3(&mut out, "--bind".to_string(), b.0.clone(), b.1.clone());
        assert(bs.take(i + 1).drop_last() =~= bs.take(i as int));
        assert(bs.take(i + 1).last() == (b.0@, b.1@));
        assert(texts(out@) =~= mid2 + bind_args(bs.take(i + 1)));
        i = i + 1;
    }
    assert(bs.take(i as int) =~= bs);
    let ghost mid3 = texts(out@);
    out.push("--".to_string());
    assert(texts(out@) =~= mid3 + seq!["--"@]);
    let ghost mid4 = texts(out@);
    let ghost cs = texts(spec.command@);
    let mut i: usize = 0;
    while i < spec.command.len()
        invariant
            i <= spec.command@.len(),
            cs == texts(spec.command@),
            texts(out@) == mid4 + cs.take(i as int),
        decreases spec.command@.len() - i,
    {
        let ghost prev = texts(out@);
        out.push(spec.command[i].clone());
        assert(texts(out@) =~= prev.push(cs[i as int]));
        assert(cs.take(i + 1) =~= cs.take(i as int).push(cs[i as int]));
        i = i + 1;
    }
    assert(cs.take(i as int) =~= cs);
    assert(texts(out@) =~= sandbox_args_spec(nodes, hs, bs, cs));
    out
}

/// The environment an instance runs with: SDL's HIDAPI joystick backend off
/// (so pads are read through evdev only), joystick events kept while the
/// window is unfocused, then the handler's own variables.
pub open spec fn sandbox_env_spec(env: Seq<(Seq<char>, Seq<char>)>) -> Seq<(Seq<char>, Seq<char>)> {
    seq![
        ("SDL_JOYSTICK_HIDAPI"@, "0"@),
        ("SDL_JOYSTICK_ALLOW_BACKGROUND_EVENTS"@, "1"@),
    ] + env
}

/// See [`sandbox_env_spec`]; later entries override earlier ones.
pub fn sandbox_env(spec: &SandboxSpec) -> (r: Vec<(String, String)>)
    ensures
        pair_texts(r@) == sandbox_env_spec(pair_texts(spec.env@)),
{
    let mut out: Vec<(String, String)> = vec![
        ("SDL_JOYSTICK_HIDAPI".to_string(), "0".to_string()),
        ("SDL_JOYSTICK_ALLOW_BACKGROUND_EVENTS".to_string(), "1".to_string()),
    ];
    let ghost head = pair_texts(out@);
    let ghost es = pair_texts(spec.env@);
    let mut i: usize = 0;
    assert(es.take(0) =~= Seq::<(Seq<char>, Seq<char>)>::empty());
    assert(pair_texts(out@) =~= head + es.take(0));
    while i < spec.env.len()
        invariant
            i <= spec.env@.len(),
            es == pair_texts(spec.env@),
            pair_texts(out@) == head + es.take(i as int),
        decreases spec.env@.len() - i,
    {
        let ghost prev = pair_texts(out@);
        let kv = &spec.env[i];
        out.push((kv.0.clone(), kv.1.clone()));
        assert(pair_texts(out@) =~= prev.push(es[i as int]));
        assert(es.take(i + 1) =~= es.take(i as int).push(es[i as int]));
        i = i + 1;
    }
    assert(es.take(i as int) =~= es);
    out
}

/// Whether a `/dev` entry is a hidraw node (its name starts with `hidraw`).
pub open spec fn hidraw_name(name: Seq<char>) -> bool {
    name.len() >= 6 && name.take(6) == "hidraw"@
}

/// See [`hidraw_name`].
pub fn is_hidraw_name(name: &str) -> (r: bool)
    ensures
        r == hidraw_name(name@),
{
    proof {
        reveal_strlit("hidraw");
    }
    let n = chars_of(name);
    let want = chars_of("hidraw");
    if n.len() < 6 {
        return false;
    }
    let head = slice_chars(n.as_slice(), 0, 6);
    assert(head@ =~= name@.take(6));
    seq_eq(head.as_slice(), want.as_slice())
}

} // verus!
