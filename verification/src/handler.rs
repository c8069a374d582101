//! Game handlers: what the launcher knows about a game and where it lives.

use vstd::prelude::*;

use crate::paths::{home_dir, join_path, path_join};
use crate::text::{
    chars_of, lemma_text_le_total, lemma_text_le_transitive, replace, replace_all, seq_eq,
    string_of, strip_prefix, strip_prefix_spec, text_le, text_lt,
};

verus! {

/// Patch an INI-style file inside the player's isolated config dir.
#[derive(Debug, Clone)]
pub struct ConfigPatch {
    /// Path relative to the isolated config dir. A single `*` path component
    /// matches any directory (e.g. `DoNotStarveTogether/*/client.ini`).
    pub file: String,
    pub section: String,
    /// Keys and values to set, in the order they are applied.
    pub set: Vec<(String, String)>,
}

#[derive(Debug, Clone)]
pub struct GameHandler {
    pub name: String,
    pub short: String,
    pub steam_appid: u32,
    /// Executable path relative to the game dir.
    pub exe: String,
    /// Working directory relative to the game dir (defaults to the game dir).
    pub workdir: Option<String>,
    /// Candidate install locations; the first that exists wins.
    pub game_dirs: Vec<String>,
    /// The game window's class (for diagnostics; matching is pid-based).
    pub window_class: Option<String>,
    /// Config dir under $HOME isolated per player (e.g. `~/.klei`).
    pub config_dir: Option<String>,
    /// Steam API lib relative to the game dir, swapped for Goldberg.
    pub steam_api_lib: Option<String>,
    /// Whether instances need the Goldberg Steam emu.
    pub goldberg: bool,
    /// Extra env vars. `{game_dir}` and `{home}` are expanded.
    pub env: Vec<(String, String)>,
    pub args: Vec<String>,
    pub max_players: u8,
    pub config_patch: Vec<ConfigPatch>,
    /// Executables (relative to the game dir) copied into a Goldberg shadow
    /// rather than linked, so that their `$ORIGIN`-relative library path
    /// finds the shadow's Goldberg library.
    pub copy_instead: Vec<String>,
    /// In-game instructions shown to players during the session.
    pub notes: Option<String>,
}

/// How many players a handler allows when it does not say.
pub fn default_max_players() -> (n: u8)
    ensures
        n == 4,
{
    4
}

/// A handler whose game install has been looked for on disk.
#[derive(Debug, Clone)]
pub struct LoadedHandler {
    pub handler: GameHandler,
    /// Resolved absolute game dir, or None if not installed.
    pub game_dir: Option<String>,
}

impl LoadedHandler {
    pub fn installed(&self) -> (r: bool)
        ensures
            r == self.game_dir is Some,
    {
        self.game_dir.is_some()
    }
}

} // verus!

verus! {

/// Where a path leads once a leading `~/` is read against `home`: the home
/// directory joined with the rest, or the path itself when it has no such
/// prefix or there is no home directory.
pub open spec fn tilde_expansion(path: Seq<char>, home: Option<Seq<char>>) -> Seq<char> {
    match strip_prefix_spec(path, seq!['~', '/']) {
        Some(rest) => match home {
            Some(h) => path_join(h, rest),
            None => path,
        },
        None => path,
    }
}

/// Expands a leading `~/` against the given home directory (see
/// [`tilde_expansion`]).
pub fn expand_tilde_with(path: &str, home: &Option<String>) -> (r: String)
    ensures
        r@ == tilde_expansion(
            path@,
            match home {
                Some(h) => Some(h@),
                None => None,
            },
        ),
{
    let p = chars_of(path);
    let prefix: Vec<char> = vec!['~', '/'];
    assert(prefix@ =~= seq!['~', '/']);
    match strip_prefix(p.as_slice(), prefix.as_slice()) {
        Some(rest) => match home {
            Some(h) => {
                let rest_text = string_of(rest.as_slice());
                join_path(h.as_str(), rest_text.as_str())
            },
            None => string_of(p.as_slice()),
        },
        None => string_of(p.as_slice()),
    }
}

/// Expands a leading `~/` against the user's home directory. The home
/// directory comes from the environment, so the result is the expansion for
/// some home directory, or none.
pub fn expand_tilde(path: &str) -> (r: String)
    ensures
        exists|home: Option<Seq<char>>| r@ == tilde_expansion(path@, home),
{
    let home = home_dir();
    let r = expand_tilde_with(path, &home);
    proof {
        let w = match home {
            Some(h) => Some(h@),
            None => None,
        };
        assert(r@ == tilde_expansion(path@, w));
    }
    r
}

/// A handler's environment value with `{game_dir}` and then `{home}`
/// replaced.
pub open spec fn env_expansion(value: Seq<char>, game_dir: Seq<char>, home: Seq<char>) -> Seq<char> {
    replace_all(replace_all(value, "{game_dir}"@, game_dir), "{home}"@, home)
}

/// Expands `{game_dir}` and `{home}` in an environment value (see
/// [`env_expansion`]).
pub fn expand_env_with(value: &str, game_dir: &str, home: &str) -> (r: String)
    ensures
        r@ == env_expansion(value@, game_dir@, home@),
{
    proof {
        reveal_strlit("{game_dir}");
        reveal_strlit("{home}");
    }
    let v = chars_of(value);
    let g = chars_of(game_dir);
    let h = chars_of(home);
    let game_token = chars_of("{game_dir}");
    let home_token = chars_of("{home}");
    let once = replace(v.as_slice(), game_token.as_slice(), g.as_slice());
    let twice = replace(once.as_slice(), home_token.as_slice(), h.as_slice());
    string_of(twice.as_slice())
}

/// Expands `{game_dir}` and `{home}` in an environment value; `{home}` is
/// the user's home directory, or empty when there is none. The home
/// directory comes from the environment, so the result is the expansion for
/// some home text.
pub fn expand_env_value(value: &str, game_dir: &str) -> (r: String)
    ensures
        exists|home: Seq<char>| r@ == env_expansion(value@, game_dir@, home),
{
    let home = match home_dir() {
        Some(h) => h,
        None => String::new(),
    };
    let r = expand_env_with(value, game_dir, home.as_str());
    assert(r@ == env_expansion(value@, game_dir@, home@));
    r
}

} // verus!

verus! {

/// Whether the handler at `i` is the first with its short name.
pub open spec fn first_of_its_short(found: Seq<LoadedHandler>, i: int) -> bool {
    forall|j: int| 0 <= j < i ==> found[j].handler.short@ != found[i].handler.short@
}

/// The handlers that come first with their short name, in the order found:
/// a handler in an earlier search directory shadows a later one.
pub open spec fn first_by_short(found: Seq<LoadedHandler>) -> Seq<LoadedHandler>
    decreases found.len(),
{
    if found.len() == 0 {
        Seq::empty()
    } else {
        let prev = first_by_short(found.drop_last());
        if first_of_its_short(found, found.len() - 1) {
            prev.push(found.last())
        } else {
            prev
        }
    }
}

/// Whether the handlers are in order of their display names.
pub open spec fn sorted_by_name(list: Seq<LoadedHandler>) -> bool {
    forall|i: int, j: int|
        0 <= i < j < list.len() ==> text_le(#[trigger] list[i].handler.name@, #[trigger] list[j].handler.name@)
}

/// Whether the handler at `i` is the first with its short name (see
/// [`first_of_its_short`]).
fn is_first_of_its_short(found: &Vec<LoadedHandler>, i: usize) -> (r: bool)
    requires
        i < found@.len(),
    ensures
        r == first_of_its_short(found@, i as int),
{
    let want = chars_of(found[i].handler.short.as_str());
    let mut j: usize = 0;
    while j < i
        invariant
            i < found@.len(),
            j <= i,
            want@ == found@[i as int].handler.short@,
            forall|k: int| 0 <= k < j ==> found@[k].handler.short@ != found@[i as int].handler.short@,
        decreases i - j,
    {
        let got = chars_of(found[j].handler.short.as_str());
        if seq_eq(got.as_slice(), want.as_slice()) {
            return false;
        }
        j = j + 1;
    }
    true
}

/// Where `h` goes in a list sorted by name: before the first handler whose
/// name comes strictly after its own.
fn insertion_point(list: &Vec<LoadedHandler>, h: &LoadedHandler) -> (p: usize)
    ensures
        p <= list@.len(),
        forall|k: int| 0 <= k < p ==> text_le(#[trigger] list@[k].handler.name@, h.handler.name@),
        p < list@.len() ==> !text_le(list@[p as int].handler.name@, h.handler.name@),
{
    let name = chars_of(h.handler.name.as_str());
    let mut p: usize = 0;
    while p < list.len()
        invariant
            p <= list@.len(),
            name@ == h.handler.name@,
            forall|k: int| 0 <= k < p ==> text_le(#[trigger] list@[k].handler.name@, h.handler.name@),
        decreases list@.len() - p,
    {
        let other = chars_of(list[p].handler.name.as_str());
        if text_lt(name.as_slice(), other.as_slice()) {
            return p;
        }
        p = p + 1;
    }
    p
}

proof fn lemma_insert_multiset(s: Seq<LoadedHandler>, p: int, h: LoadedHandler)
    requires
        0 <= p <= s.len(),
    ensures
        s.insert(p, h).to_multiset() =~= s.to_multiset().insert(h),
{
    let t = s.insert(p, h);
    assert(t.remove(p) =~= s);
    vstd::seq_lib::to_multiset_remove(t, p);
    vstd::seq_lib::to_multiset_contains(t, h);
    assert(t[p] == h);
}

#[verifier::spinoff_prover]
proof fn lemma_insert_sorted(s: Seq<LoadedHandler>, p: int, h: LoadedHandler)
    requires
        0 <= p <= s.len(),
        sorted_by_name(s),
        forall|k: int| 0 <= k < p ==> text_le(#[trigger] s[k].handler.name@, h.handler.name@),
        p < s.len() ==> !text_le(s[p].handler.name@, h.handler.name@),
    ensures
        sorted_by_name(s.insert(p, h)),
{
    let t = s.insert(p, h);
    s.insert_ensures(p, h);
    assert forall|x: int| 0 <= x < t.len() implies #[trigger] t[x] == if x < p {
        s[x]
    } else if x == p {
        h
    } else {
        s[x - 1]
    } by {
        if x > p {
            assert(t[(x - 1) + 1] == s[x - 1]);
        }
    }
    if p < s.len() {
        lemma_text_le_total(s[p].handler.name@, h.handler.name@);
    }
    assert forall|i: int, j: int| 0 <= i < j < t.len() implies text_le(
        #[trigger] t[i].handler.name@,
        #[trigger] t[j].handler.name@,
    ) by {
        if i < p {
            if j < p {
                assert(text_le(s[i].handler.name@, s[j].handler.name@));
            } else if j > p {
                assert(text_le(s[i].handler.name@, s[j - 1].handler.name@));
            }
        } else if i == p {
            if j - 1 > p {
                assert(text_le(s[p].handler.name@, s[j - 1].handler.name@));
                lemma_text_le_transitive(h.handler.name@, s[p].handler.name@, s[j - 1].handler.name@);
            }
        } else {
            assert(text_le(s[i - 1].handler.name@, s[j - 1].handler.name@));
        }
    }
}

proof fn lemma_first_by_short_step(orig: Seq<LoadedHandler>, i: int)
    requires
        0 <= i < orig.len(),
    ensures
        first_by_short(orig.take(i + 1)) == if first_of_its_short(orig, i) {
            first_by_short(orig.take(i)).push(orig[i])
        } else {
            first_by_short(orig.take(i))
        },
{
    let t = orig.take(i + 1);
    assert(t.drop_last() =~= orig.take(i));
    assert(t.last() == orig[i]);
    assert forall|j: int| 0 <= j <= i implies #[trigger] t[j] == orig[j] by {}
    assert(first_of_its_short(t, i) == first_of_its_short(orig, i)) by {
        if first_of_its_short(orig, i) {
            assert forall|j: int| 0 <= j < i implies t[j].handler.short@ != t[i].handler.short@ by {
                assert(t[j] == orig[j]);
            }
        }
        if first_of_its_short(t, i) {
            assert forall|j: int| 0 <= j < i implies orig[j].handler.short@ != orig[i].handler.short@ by {
                assert(t[j] == orig[j]);
            }
        }
    }
}

/// The handlers to offer: for each short name the first handler found with
/// it, ordered by display name; `None` when none was found.
pub fn collect_handlers(found: Vec<LoadedHandler>) -> (r: Option<Vec<LoadedHandler>>)
    ensures
        found@.len() == 0 <==> r is None,
        r matches Some(list) ==> sorted_by_name(list@) && list@.to_multiset() =~= first_by_short(
            found@,
        ).to_multiset(),
{
    if found.len() == 0 {
        return None;
    }
    let ghost orig = found@;
    let n = found.len();
    let mut keep: Vec<bool> = Vec::new();
    let mut i: usize = 0;
    while i < n
        invariant
            n == found@.len(),
            found@ == orig,
            i <= n,
            keep@.len() == i,
            forall|k: int| 0 <= k < i ==> keep@[k] == first_of_its_short(orig, k),
        decreases n - i,
    {
        let first = is_first_of_its_short(&found, i);
        keep.push(first);
        i = i + 1;
    }
    let mut rest = found;
    let mut list: Vec<LoadedHandler> = Vec::new();
    let mut i: usize = 0;
    assert(orig.take(0) =~= Seq::<LoadedHandler>::empty());
    assert(list@.to_multiset() =~= first_by_short(orig.take(0)).to_multiset());
    while i < n
        invariant
            n == orig.len(),
            i <= n,
            keep@.len() == n,
            forall|k: int| 0 <= k < n ==> keep@[k] == first_of_its_short(orig, k),
            rest@ == orig.skip(i as int),
            sorted_by_name(list@),
            list@.to_multiset() == first_by_short(orig.take(i as int)).to_multiset(),
        decreases n - i,
    {
        let h = rest.remove(0);
        assert(h == orig[i as int]);
        assert(rest@ =~= orig.skip(i + 1));
        proof {
            lemma_first_by_short_step(orig, i as int);
        }
        if keep[i] {
            let p = insertion_point(&list, &h);
            let ghost before = list@;
            proof {
                lemma_insert_multiset(before, p as int, h);
                lemma_insert_sorted(before, p as int, h);
                vstd::seq_lib::to_multiset_build(first_by_short(orig.take(i as int)), h);
            }
            list.insert(p, h);
        }
        i = i + 1;
    }
    assert(orig.take(n as int) =~= orig);
    Some(list)
}

} // verus!

verus! {

/// The game's directory: the first candidate install location that exists
/// (`present[i]` tells whether `candidates[i]` does).
pub fn first_installed(candidates: &Vec<String>, present: &Vec<bool>) -> (r: Option<String>)
    requires
        candidates@.len() == present@.len(),
    ensures
        match r {
            Some(dir) => exists|i: int|
                0 <= i < candidates@.len() && present@[i] && dir == candidates@[i] && forall|j: int|
                    0 <= j < i ==> !present@[j],
            None => forall|j: int| 0 <= j < present@.len() ==> !present@[j],
        },
{
    let mut i: usize = 0;
    while i < candidates.len()
        invariant
            candidates@.len() == present@.len(),
            i <= candidates@.len(),
            forall|j: int| 0 <= j < i ==> !present@[j],
        decreases candidates@.len() - i,
    {
        if present[i] {
            return Some(candidates[i].clone());
        }
        i = i + 1;
    }
    None
}

} // verus!
