//! The Goldberg Steam emulator: where its library lives, the shadow copy of
//! a game install that each instance runs from, and the emulator's settings
//! files.

use vstd::prelude::*;

use crate::paths::{
    components_of, file_name, file_name_of, join_path, parent_of, path_components, path_join,
    path_parent,
};
use crate::profiles::hyprcoop_dir_spec;
use crate::text::{
    chars_of, contains, contains_seq, decimal, decimal_string, lemma_decimal_injective,
    lemma_decimal_len, lowercase, push_decimal, push_str,
    str_eq, string_of, string_push, texts, to_lowercase,
};

verus! {

/// gbe_fork's LAN discovery port window: instances bind sequential ports
/// from `DEFAULT_PORT` and announce across
/// `[DEFAULT_PORT, DEFAULT_PORT + NUM_QUERY_PORTS)`.
pub const DEFAULT_PORT: u16 = 47584;

/// The width of gbe_fork's discovery port window.
pub const NUM_QUERY_PORTS: u16 = 10;

/// Where the managed Goldberg library lives under the launcher's data
/// directory.
pub open spec fn goldberg_so_spec(dir: Seq<char>) -> Seq<char> {
    path_join(dir, "goldberg/libsteam_api.so"@)
}

/// The managed Goldberg 64-bit `libsteam_api.so` under the launcher's data
/// directory `dir`.
pub fn goldberg_so_under(dir: &str) -> (r: String)
    ensures
        r@ == goldberg_so_spec(dir@),
{
    join_path(dir, "goldberg/libsteam_api.so")
}

/// Location of the managed Goldberg library, or `None` when the user has no
/// data directory.
pub fn goldberg_so_path() -> (r: Option<String>)
    ensures
        r matches Some(p) ==> exists|base: Seq<char>| p@ == goldberg_so_spec(hyprcoop_dir_spec(base)),
{
    match crate::profiles::data_dir() {
        Some(dir) => {
            let p = goldberg_so_under(dir.as_str());
            Some(p)
        },
        None => None,
    }
}

/// Characters that cannot stand in a shadow directory's name become `_`.
pub open spec fn sanitize_char(c: char) -> char {
    if c == '/' || c == ' ' || c == '\'' {
        '_'
    } else {
        c
    }
}

/// A game directory's last component with `/`, space and `'` replaced by
/// `_`, or `game` when it has none.
pub open spec fn sanitize_spec(path: Seq<char>) -> Seq<char> {
    match file_name_of(path) {
        Some(n) => n.map_values(|c: char| sanitize_char(c)),
        None => "game"@,
    }
}

/// See [`sanitize_spec`].
pub fn sanitize(path: &str) -> (r: String)
    ensures
        r@ == sanitize_spec(path@),
{
    match file_name(path) {
        Some(n) => {
            let cs = chars_of(n.as_str());
            let mut out: Vec<char> = Vec::new();
            let mut i: usize = 0;
            while i < cs.len()
                invariant
                    i <= cs@.len(),
                    cs@ == n@,
                    out@ == cs@.take(i as int).map_values(|c: char| sanitize_char(c)),
                decreases cs@.len() - i,
            {
                let c = cs[i];
                let d = if c == '/' || c == ' ' || c == '\'' {
                    '_'
                } else {
                    c
                };
                out.push(d);
                assert(out@ =~= cs@.take(i + 1).map_values(|c: char| sanitize_char(c)));
                i = i + 1;
            }
            assert(cs@.take(i as int) =~= cs@);
            string_of(out.as_slice())
        },
        None => "game".to_string(),
    }
}

/// `<dir>/shadow/<sanitized game dir>-<instance>`.
pub open spec fn shadow_dir_spec(dir: Seq<char>, game_dir: Seq<char>, instance: nat) -> Seq<char> {
    path_join(path_join(dir, "shadow"@), sanitize_spec(game_dir) + "-"@ + decimal(instance))
}

/// The shadow copy of `game_dir` for one instance, under the launcher's
/// data directory `dir`.
pub fn shadow_dir(dir: &str, game_dir: &str, instance: usize) -> (r: String)
    ensures
        r@ == shadow_dir_spec(dir@, game_dir@, instance as nat),
{
    let mut name = sanitize(game_dir);
    push_str(&mut name, "-");
    push_decimal(&mut name, instance as u128);
    let base = join_path(dir, "shadow");
    join_path(base.as_str(), name.as_str())
}

/// The components of the directory that holds `rel` (none when it has no
/// parent).
pub open spec fn dir_components(rel: Seq<char>) -> Seq<Seq<char>> {
    match parent_of(rel) {
        Some(p) => components_of(p),
        None => components_of(Seq::empty()),
    }
}

/// Each non-empty leading run of components: the directories on the way
/// down to the last one.
pub open spec fn leading_dirs(comps: Seq<Seq<char>>) -> Seq<Seq<Seq<char>>> {
    Seq::new(comps.len(), |k: int| comps.take(k + 1))
}

/// `s` with each element kept only at its first occurrence.
pub open spec fn first_occurrences<A>(s: Seq<A>) -> Seq<A>
    decreases s.len(),
{
    if s.len() == 0 {
        Seq::empty()
    } else {
        let prev = first_occurrences(s.drop_last());
        if prev.contains(s.last()) {
            prev
        } else {
            prev.push(s.last())
        }
    }
}

/// The directories of a shadow tree that must be real directories rather
/// than links: those on the way to the executable and to the Steam API
/// library, each once, in the order met.
pub open spec fn real_dirs_spec(exe_rel: Seq<char>, api_rel: Seq<char>) -> Seq<Seq<Seq<char>>> {
    first_occurrences(leading_dirs(dir_components(exe_rel)) + leading_dirs(dir_components(api_rel)))
}

/// The component texts of a list of directories.
pub open spec fn dirs_view(dirs: Seq<Vec<String>>) -> Seq<Seq<Seq<char>>> {
    dirs.map_values(|d: Vec<String>| texts(d@))
}

/// Whether two component lists are equal.
pub fn same_components(a: &Vec<String>, b: &Vec<String>) -> (r: bool)
    ensures
        r == (texts(a@) == texts(b@)),
{
    if a.len() != b.len() {
        return false;
    }
    let mut i: usize = 0;
    while i < a.len()
        invariant
            a@.len() == b@.len(),
            i <= a@.len(),
            forall|k: int| 0 <= k < i ==> a@[k]@ == b@[k]@,
        decreases a@.len() - i,
    {
        if !str_eq(a[i].as_str(), b[i].as_str()) {
            assert(texts(a@)[i as int] != texts(b@)[i as int]);
            return false;
        }
        i = i + 1;
    }
    assert(texts(a@) =~= texts(b@));
    true
}

/// Whether `d` is one of `dirs` (compared component by component, as
/// `Path` equality does).
pub fn contains_dir(dirs: &Vec<Vec<String>>, d: &Vec<String>) -> (r: bool)
    ensures
        r == dirs_view(dirs@).contains(texts(d@)),
{
    let mut i: usize = 0;
    while i < dirs.len()
        invariant
            i <= dirs@.len(),
            forall|k: int| 0 <= k < i ==> dirs_view(dirs@)[k] != texts(d@),
        decreases dirs@.len() - i,
    {
        if same_components(&dirs[i], d) {
            assert(dirs_view(dirs@)[i as int] == texts(d@));
            return true;
        }
        i = i + 1;
    }
    false
}

fn copy_texts(v: &Vec<String>) -> (r: Vec<String>)
    ensures
        texts(r@) == texts(v@),
{
    let mut r: Vec<String> = Vec::new();
    let mut i: usize = 0;
    while i < v.len()
        invariant
            i <= v@.len(),
            texts(r@) == texts(v@).take(i as int),
        decreases v@.len() - i,
    {
        let ghost prev = texts(r@);
        r.push(v[i].clone());
        assert(texts(r@) =~= prev.push(v@[i as int]@));
        assert(texts(v@).take(i + 1) =~= texts(v@).take(i as int).push(v@[i as int]@));
        i = i + 1;
    }
    assert(texts(v@).take(i as int) =~= texts(v@));
    r
}

/// Adds the directories on the way down to `rel`'s directory that are not
/// there yet.
fn add_leading_dirs(out: &mut Vec<Vec<String>>, rel: &str)
    ensures
        first_occurrences(dirs_view(old(out)@) + leading_dirs(dir_components(rel@)))
            == first_occurrences(dirs_view(final(out)@)),
        first_occurrences(dirs_view(old(out)@)) == dirs_view(old(out)@) ==> first_occurrences(
            dirs_view(final(out)@),
        ) == dirs_view(final(out)@),
{
    let parent = match path_parent(rel) {
        Some(p) => p,
        None => String::new(),
    };
    let comps = path_components(parent.as_str());
    let ghost cs = texts(comps@);
    assert(cs == dir_components(rel@));
    let ghost orig = dirs_view(out@);
    let mut cur: Vec<String> = Vec::new();
    let mut i: usize = 0;
    assert(leading_dirs(cs).take(0) =~= Seq::<Seq<Seq<char>>>::empty());
    assert(orig + leading_dirs(cs).take(0) =~= orig);
    while i < comps.len()
        invariant
            i <= comps@.len(),
            cs == texts(comps@),
            texts(cur@) == cs.take(i as int),
            first_occurrences(orig + leading_dirs(cs).take(i as int)) == first_occurrences(
                dirs_view(out@),
            ),
            first_occurrences(orig) == orig ==> first_occurrences(dirs_view(out@)) == dirs_view(
                out@,
            ),
        decreases comps@.len() - i,
    {
        let ghost prev_cur = texts(cur@);
        cur.push(comps[i].clone());
        assert(texts(cur@) =~= prev_cur.push(comps@[i as int]@));
        assert(cs.take(i + 1) =~= cs.take(i as int).push(cs[i as int]));
        let ghost before = dirs_view(out@);
        let ghost s = orig + leading_dirs(cs).take(i + 1);
        assert(s.drop_last() =~= orig + leading_dirs(cs).take(i as int));
        assert(s.last() == texts(cur@));
        if !contains_dir(out, &cur) {
            let copy = copy_texts(&cur);
            out.push(copy);
            assert(dirs_view(out@) =~= before.push(texts(cur@)));
            proof {
                lemma_first_occurrences_push(before, texts(cur@));
                assert(dirs_view(out@).drop_last() =~= before);
                lemma_first_occurrences_step(s, dirs_view(out@));
            }
        } else {
            proof {
                lemma_first_occurrences_same_elements(before);
                assert(first_occurrences(s) == first_occurrences(s.drop_last()));
            }
        }
        i = i + 1;
    }
    assert(leading_dirs(cs).take(i as int) =~= leading_dirs(cs));
}

/// Appending an element keeps the first occurrences of what came before.
proof fn lemma_first_occurrences_push<A>(s: Seq<A>, x: A)
    ensures
        first_occurrences(s.push(x)) == if first_occurrences(s).contains(x) {
            first_occurrences(s)
        } else {
            first_occurrences(s).push(x)
        },
        !s.contains(x) && first_occurrences(s) == s ==> first_occurrences(s.push(x)) == s.push(x),
{
    assert(s.push(x).drop_last() =~= s);
    lemma_first_occurrences_same_elements(s);
}

/// The first occurrences hold exactly the elements of the sequence.
proof fn lemma_first_occurrences_same_elements<A>(s: Seq<A>)
    ensures
        forall|x: A| first_occurrences(s).contains(x) <==> s.contains(x),
    decreases s.len(),
{
    if s.len() > 0 {
        let p = s.drop_last();
        let l = s.last();
        lemma_first_occurrences_same_elements(p);
        assert(s =~= p.push(l));
        lemma_push_contains(p, l);
        let q = first_occurrences(p);
        lemma_push_contains(q, l);
        assert forall|x: A| first_occurrences(s).contains(x) <==> s.contains(x) by {
            assert(s.contains(x) <==> (p.contains(x) || x == l));
            assert(q.contains(x) <==> p.contains(x));
            assert(q.contains(l) <==> p.contains(l));
            if q.contains(l) {
                assert(first_occurrences(s) == q);
            } else {
                assert(first_occurrences(s) == q.push(l));
                assert(q.push(l).contains(x) <==> (q.contains(x) || x == l));
            }
        }
    } else {
        assert forall|x: A| first_occurrences(s).contains(x) <==> s.contains(x) by {
            assert(first_occurrences(s) =~= Seq::<A>::empty());
            if s.contains(x) {
                let k = choose|k: int| 0 <= k < s.len() && s[k] == x;
            }
        }
    }
}

proof fn lemma_push_contains<A>(p: Seq<A>, l: A)
    ensures
        forall|x: A| p.push(l).contains(x) <==> (p.contains(x) || x == l),
{
    let s = p.push(l);
    assert forall|x: A| s.contains(x) <==> (p.contains(x) || x == l) by {
        if s.contains(x) {
            let k = choose|k: int| 0 <= k < s.len() && s[k] == x;
            if k < p.len() {
                assert(p[k] == x);
            }
        }
        if p.contains(x) {
            let k = choose|k: int| 0 <= k < p.len() && p[k] == x;
            assert(s[k] == x);
        }
        if x == l {
            assert(s[p.len() as int] == x);
        }
    }
}

/// The first occurrences of a non-empty sequence depend only on those of
/// its front and on its last element.
proof fn lemma_first_occurrences_step<A>(s: Seq<A>, t: Seq<A>)
    requires
        s.len() > 0,
        t.len() > 0,
        first_occurrences(s.drop_last()) == first_occurrences(t.drop_last()),
        s.last() == t.last(),
    ensures
        first_occurrences(s) == first_occurrences(t),
{
}

/// The directories of an instance's shadow tree that are created as real
/// directories (see [`real_dirs_spec`]), each as its list of components.
pub fn real_dirs(exe_rel: &str, api_rel: &str) -> (r: Vec<Vec<String>>)
    ensures
        dirs_view(r@) == real_dirs_spec(exe_rel@, api_rel@),
{
    let mut out: Vec<Vec<String>> = Vec::new();
    assert(dirs_view(out@) =~= Seq::<Seq<Seq<char>>>::empty());
    assert(first_occurrences(dirs_view(out@)) =~= dirs_view(out@));
    let ghost d0 = dirs_view(out@);
    add_leading_dirs(&mut out, exe_rel);
    let ghost a = leading_dirs(dir_components(exe_rel@));
    assert(d0 + a =~= a);
    let ghost d1 = dirs_view(out@);
    add_leading_dirs(&mut out, api_rel);
    let ghost b = leading_dirs(dir_components(api_rel@));
    proof {
        lemma_first_occurrences_append(a, b, d1);
    }
    out
}

/// Taking first occurrences of a prefix first changes nothing.
proof fn lemma_first_occurrences_append<A>(a: Seq<A>, b: Seq<A>, d: Seq<A>)
    requires
        first_occurrences(a) == d,
    ensures
        first_occurrences(d + b) == first_occurrences(a + b),
    decreases b.len(),
{
    if b.len() == 0 {
        assert(d + b =~= d);
        assert(a + b =~= a);
        lemma_first_occurrences_idempotent(a);
    } else {
        lemma_first_occurrences_append(a, b.drop_last(), d);
        assert((d + b).drop_last() =~= d + b.drop_last());
        assert((a + b).drop_last() =~= a + b.drop_last());
        assert((d + b).last() == b.last());
        assert((a + b).last() == b.last());
    }
}

proof fn lemma_first_occurrences_idempotent<A>(s: Seq<A>)
    ensures
        first_occurrences(first_occurrences(s)) == first_occurrences(s),
    decreases s.len(),
{
    if s.len() > 0 {
        let p = s.drop_last();
        lemma_first_occurrences_idempotent(p);
        let q = first_occurrences(p);
        if !q.contains(s.last()) {
            assert(q.push(s.last()).drop_last() =~= q);
        }
    }
}

/// The emulator's per-instance save directory inside a player's profile.
pub fn gse_saves_dir(save_dir: &str) -> (r: String)
    ensures
        r@ == path_join(save_dir@, "gse-saves"@),
{
    join_path(save_dir, "gse-saves")
}

/// `s` padded on the left with zeros to `width` characters (`{:0width}`).
pub open spec fn zero_pad(s: Seq<char>, width: nat) -> Seq<char> {
    if s.len() >= width {
        s
    } else {
        Seq::new((width - s.len()) as nat, |_i: int| '0') + s
    }
}

/// The emulator's player name for an instance: `Player1`, `Player2`, ...
pub open spec fn account_name(instance: nat) -> Seq<char> {
    "Player"@ + decimal(instance + 1)
}

/// The emulator's Steam id for an instance: `7656119` followed by
/// `8000000000 + instance`, at least ten digits.
pub open spec fn steam_id(instance: nat) -> Seq<char> {
    "7656119"@ + zero_pad(decimal(8000000000 + instance), 10)
}

/// The emulator's `configs.user.ini` for an instance: a distinct player name
/// and Steam id, and the instance's own save location.
pub open spec fn configs_user_ini_spec(instance: nat, save_path: Seq<char>) -> Seq<char> {
    "[user::general]\naccount_name="@ + account_name(instance) + "\naccount_steamid="@ + steam_id(
        instance,
    ) + "\n[user::saves]\nlocal_save_path="@ + save_path + "\n"@
}

/// See [`configs_user_ini_spec`].
pub fn configs_user_ini(instance: usize, save_path: &str) -> (r: String)
    requires
        instance < usize::MAX,
        instance + 8000000000 <= u64::MAX,
    ensures
        r@ == configs_user_ini_spec(instance as nat, save_path@),
{
    proof {
        reveal_strlit("[user::general]\naccount_name=Player");
        reveal_strlit("[user::general]\naccount_name=");
        reveal_strlit("Player");
        reveal_strlit("\naccount_steamid=7656119");
        reveal_strlit("\naccount_steamid=");
        reveal_strlit("7656119");
    }
    let mut r = "[user::general]\naccount_name=Player".to_string();
    push_decimal(&mut r, (instance + 1) as u128);
    push_str(&mut r, "\naccount_steamid=7656119");
    let id = decimal_string((8000000000u64 + instance as u64) as u128);
    let digits = chars_of(id.as_str());
    let mut pad: usize = 0;
    let ghost before = r@;
    if digits.len() < 10 {
        let missing = 10 - digits.len();
        while pad < missing
            invariant
                pad <= missing,
                r@ == before + Seq::new(pad as nat, |_i: int| '0'),
            decreases missing - pad,
        {
            string_push(&mut r, '0');
            assert(r@ =~= before + Seq::new((pad + 1) as nat, |_i: int| '0'));
            pad = pad + 1;
        }
    }
    assert(r@ + id@ =~= before + zero_pad(id@, 10));
    push_str(&mut r, id.as_str());
    push_str(&mut r, "\n[user::saves]\nlocal_save_path=");
    push_str(&mut r, save_path);
    push_str(&mut r, "\n");
    assert(r@ =~= configs_user_ini_spec(instance as nat, save_path@));
    r
}

/// One loopback line per port of the discovery window, from `first` on.
pub open spec fn broadcast_lines(first: nat, count: nat) -> Seq<char>
    decreases count,
{
    if count == 0 {
        Seq::empty()
    } else {
        broadcast_lines(first, (count - 1) as nat) + "127.0.0.1:"@ + decimal((first + count - 1) as nat)
            + "\n"@
    }
}

/// The emulator's `custom_broadcasts.txt`: loopback once for every port of
/// the discovery window, so that each instance's announce reaches every
/// other instance's listening port over `lo`.
pub fn custom_broadcasts() -> (r: String)
    ensures
        r@ == broadcast_lines(DEFAULT_PORT as nat, NUM_QUERY_PORTS as nat),
{
    let mut r = String::new();
    let mut k: u16 = 0;
    assert(r@ =~= broadcast_lines(DEFAULT_PORT as nat, 0));
    while k < NUM_QUERY_PORTS
        invariant
            k <= NUM_QUERY_PORTS,
            r@ == broadcast_lines(DEFAULT_PORT as nat, k as nat),
        decreases NUM_QUERY_PORTS - k,
    {
        push_str(&mut r, "127.0.0.1:");
        push_decimal(&mut r, (DEFAULT_PORT + k) as u128);
        push_str(&mut r, "\n");
        k = k + 1;
    }
    r
}

/// Whether a path names the Steam API library by its file name.
pub open spec fn is_steam_api_lib(path: Seq<char>) -> bool {
    file_name_of(path) == Some("libsteam_api.so"@)
}

/// The kind of a file of a gbe_fork release: `None` when it is not a 64-bit
/// `libsteam_api.so` (judged by `64` in its lower-cased path), otherwise
/// whether it is the experimental build.
pub open spec fn release_lib_kind(path: Seq<char>) -> Option<bool> {
    let lower = lowercase(path);
    if is_steam_api_lib(path) && (contains_seq(lower, "64"@) || contains_seq(lower, "x64"@)) {
        Some(contains_seq(lower, "experimental"@))
    } else {
        None
    }
}

/// The last of `paths` of the given kind (see [`release_lib_kind`]).
pub open spec fn last_of_kind(paths: Seq<Seq<char>>, experimental: bool) -> Option<Seq<char>>
    decreases paths.len(),
{
    if paths.len() == 0 {
        None
    } else if release_lib_kind(paths.last()) == Some(experimental) {
        Some(paths.last())
    } else {
        last_of_kind(paths.drop_last(), experimental)
    }
}

/// The kind of one file of a release (see [`release_lib_kind`]).
fn lib_kind(path: &str) -> (r: Option<bool>)
    ensures
        r == release_lib_kind(path@),
{
    proof {
        reveal_strlit("libsteam_api.so");
        reveal_strlit("64");
        reveal_strlit("x64");
        reveal_strlit("experimental");
    }
    let named = match file_name(path) {
        Some(n) => str_eq(n.as_str(), "libsteam_api.so"),
        None => false,
    };
    if !named {
        return None;
    }
    let lower = to_lowercase(path);
    let l = chars_of(lower.as_str());
    let p64 = chars_of("64");
    let px64 = chars_of("x64");
    if !(contains(l.as_slice(), p64.as_slice()) || contains(l.as_slice(), px64.as_slice())) {
        return None;
    }
    let pexp = chars_of("experimental");
    Some(contains(l.as_slice(), pexp.as_slice()))
}

/// Picks the regular and the experimental 64-bit `libsteam_api.so` among
/// the files of an unpacked gbe_fork release, in the order they were
/// found; a later file of a kind replaces an earlier one.
pub fn pick_release_libs(files: &Vec<String>) -> (r: (Option<String>, Option<String>))
    ensures
        match r.0 {
            Some(p) => last_of_kind(texts(files@), false) == Some(p@),
            None => last_of_kind(texts(files@), false) is None,
        },
        match r.1 {
            Some(p) => last_of_kind(texts(files@), true) == Some(p@),
            None => last_of_kind(texts(files@), true) is None,
        },
{
    let mut regular: Option<String> = None;
    let mut experimental: Option<String> = None;
    let mut i: usize = 0;
    let ghost fs = texts(files@);
    assert(fs.take(0) =~= Seq::<Seq<char>>::empty());
    while i < files.len()
        invariant
            i <= files@.len(),
            fs == texts(files@),
            match regular {
                Some(p) => last_of_kind(fs.take(i as int), false) == Some(p@),
                None => last_of_kind(fs.take(i as int), false) is None,
            },
            match experimental {
                Some(p) => last_of_kind(fs.take(i as int), true) == Some(p@),
                None => last_of_kind(fs.take(i as int), true) is None,
            },
        decreases files@.len() - i,
    {
        let ghost t = fs.take(i + 1);
        assert(t.drop_last() =~= fs.take(i as int));
        assert(t.last() == files@[i as int]@);
        match lib_kind(files[i].as_str()) {
            Some(true) => {
                experimental = Some(files[i].clone());
            },
            Some(false) => {
                regular = Some(files[i].clone());
            },
            None => {},
        }
        i = i + 1;
    }
    assert(fs.take(i as int) =~= fs);
    (regular, experimental)
}

} // verus!

verus! {

/// What the launcher says when the Goldberg library is missing at `path`.
pub open spec fn goldberg_missing_message(path: Seq<char>) -> Seq<char> {
    "Goldberg Steam Emu not found at "@ + path
        + ".\nRun `hyprcoop fetch-goldberg` to download it (gbe_fork release), or place\na 64-bit Goldberg libsteam_api.so there yourself."@
}

/// The managed Goldberg library at `path`, given whether a file is there:
/// the path when it is, else the message that says how to get it.
pub fn ensure_goldberg(path: String, is_file: bool) -> (r: Result<String, String>)
    ensures
        is_file ==> r == Ok::<String, String>(path),
        !is_file ==> (r matches Err(m) && m@ == goldberg_missing_message(path@)),
{
    if is_file {
        return Ok(path);
    }
    let mut m = "Goldberg Steam Emu not found at ".to_string();
    push_str(&mut m, path.as_str());
    push_str(
        &mut m,
        ".\nRun `hyprcoop fetch-goldberg` to download it (gbe_fork release), or place\na 64-bit Goldberg libsteam_api.so there yourself.",
    );
    Err(m)
}

} // verus!

verus! {

/// Every instance gets its own identity: two instances never share a player
/// name or a Steam id.
pub proof fn law_identities_differ(i: nat, j: nat)
    requires
        i != j,
    ensures
        account_name(i) != account_name(j),
        steam_id(i) != steam_id(j),
{
    reveal_strlit("Player");
    reveal_strlit("7656119");
    if account_name(i) == account_name(j) {
        assert(account_name(i).skip(6) =~= decimal(i + 1));
        assert(account_name(j).skip(6) =~= decimal(j + 1));
        lemma_decimal_injective(i + 1, j + 1);
    }
    lemma_decimal_len(8000000000 + i);
    lemma_decimal_len(8000000000 + j);
    assert(ten_pow(9) == 1000000000) by {
        reveal_with_fuel(ten_pow, 10);
    }
    lemma_decimal_at_least(8000000000 + i, 9);
    lemma_decimal_at_least(8000000000 + j, 9);
    if steam_id(i) == steam_id(j) {
        assert(steam_id(i).skip(7) =~= decimal(8000000000 + i));
        assert(steam_id(j).skip(7) =~= decimal(8000000000 + j));
        lemma_decimal_injective(8000000000 + i, 8000000000 + j);
    }
}

/// Ten to the power `d`.
spec fn ten_pow(d: nat) -> nat
    decreases d,
{
    if d == 0 {
        1
    } else {
        10 * ten_pow((d - 1) as nat)
    }
}

/// A number at least `10^d` has more than `d` digits.
proof fn lemma_decimal_at_least(n: nat, d: nat)
    requires
        n >= ten_pow(d),
    ensures
        decimal(n).len() > d,
    decreases d,
{
    lemma_decimal_len(n);
    if d > 0 {
        let low = ten_pow((d - 1) as nat);
        assert(n / 10 >= low) by (nonlinear_arith)
            requires
                n >= 10 * low,
        ;
        lemma_decimal_at_least(n / 10, (d - 1) as nat);
    }
}

} // verus!
