//! Per-player config isolation: rewriting INI files inside a player's
//! isolated config dir.

use vstd::prelude::*;

use crate::paths::{file_name, file_name_of, join_path, path_join};
use crate::text::{
    texts,
    lemma_find_char, push_decimal, decimal, seq_eq, slice_chars,
    append_chars, chars_of, copy_chars, eq_ignore_ascii_case, eq_ignore_case, find, find_char,
    join_lines_nl, join_with_newlines, lines_of, split_lines, string_of, trim, trim_chars,
    is_ws, lemma_find_char_at, lemma_trim_end_keeps, lemma_trim_first, lemma_trim_idempotent,
    lemma_trim_space_after, lemma_trim_space_before, lemma_trim_start_concat, lemma_trim_within,
    trim_start, lemma_eq_ignore_case_symmetric, lemma_eq_ignore_case_transitive, no_newline,
    strip_cr, lemma_trim_strip_cr, lemma_lines_of_terminated, lemma_lines_of_no_newline,
};

verus! {

/// A key/value setting, as text.
pub type Setting = (Seq<char>, Seq<char>);

/// `[section]`.
pub open spec fn header_of(section: Seq<char>) -> Seq<char> {
    seq!['['] + section + seq![']']
}

/// Whether a line is the header of the section (compared trimmed and ASCII
/// case-insensitively).
pub open spec fn is_header_line(l: Seq<char>, header: Seq<char>) -> bool {
    eq_ignore_ascii_case(trim(l), header)
}

/// The index of the first header line, if any.
pub open spec fn first_header(lines: Seq<Seq<char>>, header: Seq<char>) -> Option<int>
    decreases lines.len(),
{
    if lines.len() == 0 {
        None
    } else if is_header_line(lines[0], header) {
        Some(0)
    } else {
        match first_header(lines.drop_first(), header) {
            Some(i) => Some(i + 1),
            None => None,
        }
    }
}

/// Whether a line starts a section (its trimmed text begins with `[`).
pub open spec fn opens_section(l: Seq<char>) -> bool {
    trim(l).len() > 0 && trim(l)[0] == '['
}

/// The index of the first line opening a section, or the number of lines.
pub open spec fn first_opening(lines: Seq<Seq<char>>) -> int
    decreases lines.len(),
{
    if lines.len() == 0 {
        0
    } else if opens_section(lines[0]) {
        0
    } else {
        1 + first_opening(lines.drop_first())
    }
}

/// `key = value`.
pub open spec fn setting_line(key: Seq<char>, value: Seq<char>) -> Seq<char> {
    key + " = "@ + value
}

/// The settings whose key does not match `key`, in order.
pub open spec fn unmatched(rem: Seq<Setting>, key: Seq<char>) -> Seq<Setting>
    decreases rem.len(),
{
    if rem.len() == 0 {
        seq![]
    } else {
        let sub = unmatched(rem.drop_last(), key);
        if eq_ignore_ascii_case(key, rem.last().0) {
            sub
        } else {
            sub.push(rem.last())
        }
    }
}

/// The value of the last setting whose key matches `key`, if any.
pub open spec fn last_match(rem: Seq<Setting>, key: Seq<char>) -> Option<Seq<char>>
    decreases rem.len(),
{
    if rem.len() == 0 {
        None
    } else if eq_ignore_ascii_case(key, rem.last().0) {
        Some(rem.last().1)
    } else {
        last_match(rem.drop_last(), key)
    }
}

/// One line of the section against the settings still to write: a
/// `key = ...` line whose key matches settings takes the last matching value
/// (as `key = value`) and those settings are done; other lines stay.
pub open spec fn update_line(line: Seq<char>, rem: Seq<Setting>) -> (Seq<char>, Seq<Setting>) {
    match find_char(line, '=') {
        None => (line, rem),
        Some(i) => {
            let key = trim(line.take(i));
            (
                match last_match(rem, key) {
                    Some(v) => setting_line(key, v),
                    None => line,
                },
                unmatched(rem, key),
            )
        },
    }
}

/// The section's lines updated in order, with the settings left over.
pub open spec fn update_lines(lines: Seq<Seq<char>>, rem: Seq<Setting>) -> (Seq<Seq<char>>, Seq<Setting>)
    decreases lines.len(),
{
    if lines.len() == 0 {
        (seq![], rem)
    } else {
        let (pre, r1) = update_lines(lines.drop_last(), rem);
        let (l, r2) = update_line(lines.last(), r1);
        (pre.push(l), r2)
    }
}

/// The lines with the section present: the original lines when a header
/// line exists (and its index), else the lines with a blank separator line
/// (unless empty) and the header appended.
pub open spec fn with_section(lines: Seq<Seq<char>>, header: Seq<char>) -> (Seq<Seq<char>>, int) {
    match first_header(lines, header) {
        Some(i) => (lines, i),
        None => {
            let padded = if lines.len() > 0 {
                lines.push(seq![])
            } else {
                lines
            };
            (padded.push(header), padded.len() as int)
        },
    }
}

/// The patched lines: settings already in the section are rewritten in
/// place, the others are inserted right after the section header in the
/// order given; everything else is preserved.
pub open spec fn patched_lines(text: Seq<char>, section: Seq<char>, values: Seq<Setting>) -> Seq<
    Seq<char>,
> {
    let (lines, start) = with_section(lines_of(text), header_of(section));
    let end = start + 1 + first_opening(lines.skip(start + 1));
    let (body, rest) = update_lines(lines.subrange(start + 1, end), values);
    lines.take(start + 1) + rest.map_values(|kv: Setting| setting_line(kv.0, kv.1)) + body
        + lines.skip(end)
}

/// The text of the patched INI file: the patched lines, each ended by a
/// newline.
pub open spec fn patch_ini_spec(text: Seq<char>, section: Seq<char>, values: Seq<Setting>) -> Seq<
    char,
> {
    join_lines_nl(patched_lines(text, section, values))
}

} // verus!

verus! {

/// The text of each line.
pub open spec fn lines_view(v: Seq<Vec<char>>) -> Seq<Seq<char>> {
    v.map_values(|l: Vec<char>| l@)
}

/// The text of each setting.
pub open spec fn settings_view(v: Seq<(Vec<char>, Vec<char>)>) -> Seq<Setting> {
    v.map_values(|kv: (Vec<char>, Vec<char>)| (kv.0@, kv.1@))
}

proof fn lemma_first_header(lines: Seq<Seq<char>>, header: Seq<char>, k: int)
    requires
        0 <= k <= lines.len(),
        forall|j: int| 0 <= j < k ==> !is_header_line(#[trigger] lines[j], header),
    ensures
        k < lines.len() && is_header_line(lines[k], header) ==> first_header(lines, header) == Some(k),
        k == lines.len() ==> first_header(lines, header) is None,
    decreases k,
{
    if k > 0 {
        lemma_first_header(lines.drop_first(), header, k - 1);
    }
}

proof fn lemma_first_opening(lines: Seq<Seq<char>>, k: int)
    requires
        0 <= k <= lines.len(),
        forall|j: int| 0 <= j < k ==> !opens_section(#[trigger] lines[j]),
    ensures
        k < lines.len() && opens_section(lines[k]) ==> first_opening(lines) == k,
        k == lines.len() ==> first_opening(lines) == k,
    decreases k,
{
    if k > 0 {
        lemma_first_opening(lines.drop_first(), k - 1);
    }
}

/// Splits the settings into those whose key does not match `key` and the
/// value of the last one that does.
fn scan_settings(rem: &Vec<(Vec<char>, Vec<char>)>, key: &[char]) -> (r: (
    Vec<(Vec<char>, Vec<char>)>,
    Option<Vec<char>>,
))
    ensures
        settings_view(r.0@) == unmatched(settings_view(rem@), key@),
        r.1 matches Some(v) ==> last_match(settings_view(rem@), key@) == Some(v@),
        r.1 is None ==> last_match(settings_view(rem@), key@) is None,
{
    let ghost all = settings_view(rem@);
    let mut kept: Vec<(Vec<char>, Vec<char>)> = Vec::new();
    let mut found: Option<Vec<char>> = None;
    let mut i: usize = 0;
    while i < rem.len()
        invariant
            i <= rem@.len(),
            all == settings_view(rem@),
            settings_view(kept@) == unmatched(all.take(i as int), key@),
            found matches Some(v) ==> last_match(all.take(i as int), key@) == Some(v@),
            found is None ==> last_match(all.take(i as int), key@) is None,
        decreases rem@.len() - i,
    {
        let entry = &rem[i];
        assert(all.take(i + 1).drop_last() =~= all.take(i as int));
        assert(all.take(i + 1).last() == (entry.0@, entry.1@));
        if eq_ignore_case(key, entry.0.as_slice()) {
            found = Some(copy_chars(entry.1.as_slice()));
        } else {
            let ghost before = settings_view(kept@);
            kept.push((copy_chars(entry.0.as_slice()), copy_chars(entry.1.as_slice())));
            assert(settings_view(kept@) =~= before.push((entry.0@, entry.1@)));
        }
        i = i + 1;
    }
    assert(all.take(rem@.len() as int) =~= all);
    (kept, found)
}

/// `key = value`, as characters.
fn make_setting_line(key: &[char], value: &[char]) -> (r: Vec<char>)
    ensures
        r@ == setting_line(key@, value@),
{
    let mut r = copy_chars(key);
    r.push(' ');
    r.push('=');
    r.push(' ');
    append_chars(&mut r, value);
    proof {
        reveal_strlit(" = ");
    }
    assert(r@ =~= setting_line(key@, value@));
    r
}

/// One section line against the settings still to write (see
/// [`update_line`]).
fn patch_line(line: &Vec<char>, rem: &mut Vec<(Vec<char>, Vec<char>)>) -> (r: Vec<char>)
    ensures
        (r@, settings_view(final(rem)@)) == update_line(line@, settings_view(old(rem)@)),
{
    match find(line.as_slice(), '=') {
        None => copy_chars(line.as_slice()),
        Some(i) => {
            proof {
                lemma_find_char(line@, '=');
            }
            let key = trim_chars(&line.as_slice()[0..i]);
            assert(line@.subrange(0, i as int) =~= line@.take(i as int));
            let (kept, found) = scan_settings(rem, key.as_slice());
            *rem = kept;
            match found {
                Some(v) => make_setting_line(key.as_slice(), v.as_slice()),
                None => copy_chars(line.as_slice()),
            }
        },
    }
}

/// Whether a line opens a section.
fn line_opens_section(line: &Vec<char>) -> (r: bool)
    ensures
        r == opens_section(line@),
{
    let t = trim_chars(line.as_slice());
    t.len() > 0 && t[0] == '['
}

/// Minimal INI patcher: sets keys in a section, preserving everything else,
/// and creates the section if missing (see [`patch_ini_spec`]).
pub fn patch_ini_text(text: &str, section: &str, values: &[(String, String)]) -> (r: String)
    ensures
        r@ == patch_ini_spec(
            text@,
            section@,
            values@.map_values(|kv: (String, String)| (kv.0@, kv.1@)),
        ),
{
    let t = chars_of(text);
    let mut lines = split_lines(t.as_slice());
    let ghost lines0 = lines_view(lines@);
    let mut header: Vec<char> = Vec::new();
    header.push('[');
    let sec = chars_of(section);
    append_chars(&mut header, sec.as_slice());
    header.push(']');
    assert(header@ =~= header_of(section@));

    // Locate the section header.
    let mut i: usize = 0;
    let mut found: Option<usize> = None;
    while found.is_none() && i < lines.len()
        invariant
            i <= lines@.len(),
            lines0 == lines_view(lines@),
            header@ == header_of(section@),
            forall|j: int| 0 <= j < i ==> !is_header_line(#[trigger] lines0[j], header@),
            found matches Some(s) ==> s == i && i < lines@.len() && is_header_line(lines0[i as int], header@),
        decreases lines@.len() - i + (if found is None { 1int } else { 0int }),
    {
        let trimmed = trim_chars(lines[i].as_slice());
        assert(lines0[i as int] == lines@[i as int]@);
        if eq_ignore_case(trimmed.as_slice(), header.as_slice()) {
            found = Some(i);
        } else {
            i = i + 1;
        }
    }
    proof {
        lemma_first_header(lines0, header@, i as int);
    }
    let start = match found {
        Some(s) => s,
        None => {
            if lines.len() > 0 {
                lines.push(Vec::new());
            }
            lines.push(copy_chars(header.as_slice()));
            lines.len() - 1
        },
    };
    let ghost ls = lines_view(lines@);
    assert(with_section(lines0, header@) == (ls, start as int)) by {
        if found is None {
            if lines0.len() > 0 {
                assert(ls =~= lines0.push(seq![]).push(header@));
            } else {
                assert(ls =~= lines0.push(header@));
            }
        } else {
            assert(ls =~= lines0);
        }
    }

    // The section ends at the next line opening a section.
    let nlines = lines.len();
    assert(start < nlines);
    let mut end: usize = start + 1;
    let mut closed = false;
    while !closed && end < lines.len()
        invariant
            start < end <= lines@.len(),
            ls == lines_view(lines@),
            forall|j: int| start < j < end ==> !opens_section(#[trigger] ls[j]),
            closed ==> end < lines@.len() && opens_section(ls[end as int]),
        decreases lines@.len() - end + (if closed { 0int } else { 1int }),
    {
        assert(ls[end as int] == lines@[end as int]@);
        if line_opens_section(&lines[end]) {
            closed = true;
        } else {
            end = end + 1;
        }
    }
    proof {
        let tail = ls.skip(start + 1);
        assert forall|j: int| 0 <= j < end - start - 1 implies !opens_section(#[trigger] tail[j]) by {
            assert(tail[j] == ls[start + 1 + j]);
        }
        lemma_first_opening(tail, end - start - 1);
        if end < lines@.len() {
            assert(tail[end - start - 1] == ls[end as int]);
        }
    }
    assert(end as int == start + 1 + first_opening(ls.skip(start + 1)));

    // Rewrite the section's settings.
    let mut rem: Vec<(Vec<char>, Vec<char>)> = Vec::new();
    let mut v: usize = 0;
    let ghost vals = values@.map_values(|kv: (String, String)| (kv.0@, kv.1@));
    while v < values.len()
        invariant
            v <= values@.len(),
            vals == values@.map_values(|kv: (String, String)| (kv.0@, kv.1@)),
            settings_view(rem@) == vals.take(v as int),
        decreases values@.len() - v,
    {
        let k = chars_of(values[v].0.as_str());
        let val = chars_of(values[v].1.as_str());
        let ghost before = settings_view(rem@);
        assert(vals[v as int] == (k@, val@));
        rem.push((k, val));
        assert(settings_view(rem@) =~= before.push((k@, val@)));
        v = v + 1;
        assert(settings_view(rem@) =~= vals.take(v as int));
    }
    assert(vals.take(values@.len() as int) =~= vals);

    let mut body: Vec<Vec<char>> = Vec::new();
    let mut j: usize = start + 1;
    assert(ls.subrange(start + 1, start + 1) =~= Seq::<Seq<char>>::empty());
    while j < end
        invariant
            start < j <= end <= lines@.len(),
            ls == lines_view(lines@),
            (lines_view(body@), settings_view(rem@)) == update_lines(ls.subrange(start + 1, j as int), vals),
        decreases end - j,
    {
        let ghost before = lines_view(body@);
        let l = patch_line(&lines[j], &mut rem);
        body.push(l);
        assert(ls.subrange(start + 1, j + 1).drop_last() =~= ls.subrange(start + 1, j as int));
        assert(lines_view(body@) =~= before.push(l@));
        j = j + 1;
    }

    // Assemble: header and earlier lines, new settings, section body, rest.
    let mut out: Vec<Vec<char>> = Vec::new();
    let mut k: usize = 0;
    let head_end = start + 1;
    while k < head_end
        invariant
            k <= head_end,
            head_end == start + 1,
            head_end <= lines@.len(),
            ls == lines_view(lines@),
            lines_view(out@) == ls.take(k as int),
        decreases head_end - k,
    {
        assert(ls[k as int] == lines@[k as int]@);
        let ghost before = lines_view(out@);
        let c = copy_chars(lines[k].as_slice());
        out.push(c);
        assert(lines_view(out@) =~= before.push(c@));
        k = k + 1;
        assert(lines_view(out@) =~= ls.take(k as int));
    }
    let ghost part1 = lines_view(out@);
    let ghost restv = settings_view(rem@);
    let mut k: usize = 0;
    while k < rem.len()
        invariant
            k <= rem@.len(),
            restv == settings_view(rem@),
            lines_view(out@) == part1 + restv.take(k as int).map_values(|kv: Setting| setting_line(kv.0, kv.1)),
        decreases rem@.len() - k,
    {
        assert(restv[k as int] == (rem@[k as int].0@, rem@[k as int].1@));
        let ghost before = lines_view(out@);
        let c = make_setting_line(rem[k].0.as_slice(), rem[k].1.as_slice());
        out.push(c);
        assert(lines_view(out@) =~= before.push(c@));
        assert(restv.take(k + 1) =~= restv.take(k as int).push(restv[k as int]));
        k = k + 1;
        assert(lines_view(out@) =~= part1 + restv.take(k as int).map_values(|kv: Setting| setting_line(kv.0, kv.1)));
    }
    assert(restv.take(rem@.len() as int) =~= restv);
    let ghost part2 = lines_view(out@);
    let ghost bodyv = lines_view(body@);
    let mut k: usize = 0;
    while k < body.len()
        invariant
            k <= body@.len(),
            bodyv == lines_view(body@),
            lines_view(out@) == part2 + bodyv.take(k as int),
        decreases body@.len() - k,
    {
        assert(bodyv[k as int] == body@[k as int]@);
        let ghost before = lines_view(out@);
        let c = copy_chars(body[k].as_slice());
        out.push(c);
        assert(lines_view(out@) =~= before.push(c@));
        k = k + 1;
        assert(lines_view(out@) =~= part2 + bodyv.take(k as int));
    }
    assert(bodyv.take(body@.len() as int) =~= bodyv);
    let ghost part3 = lines_view(out@);
    let mut k: usize = end;
    while k < lines.len()
        invariant
            end <= k <= lines@.len(),
            ls == lines_view(lines@),
            lines_view(out@) == part3 + ls.subrange(end as int, k as int),
        decreases lines@.len() - k,
    {
        assert(ls[k as int] == lines@[k as int]@);
        let ghost before = lines_view(out@);
        let c = copy_chars(lines[k].as_slice());
        out.push(c);
        assert(lines_view(out@) =~= before.push(c@));
        k = k + 1;
        assert(lines_view(out@) =~= part3 + ls.subrange(end as int, k as int));
    }
    assert(ls.subrange(end as int, lines@.len() as int) =~= ls.skip(end as int));
    assert(lines_view(out@) == patched_lines(text@, section@, vals));
    let joined = join_with_newlines(&out);
    string_of(joined.as_slice())
}

} // verus!

verus! {

/// The launcher's own directory under a data directory.
pub open spec fn hyprcoop_dir_spec(data: Seq<char>) -> Seq<char> {
    path_join(data, "hyprcoop"@)
}

/// The launcher's own directory under the given data directory.
pub fn hyprcoop_dir(data: &str) -> (r: String)
    ensures
        r@ == hyprcoop_dir_spec(data@),
{
    join_path(data, "hyprcoop")
}

/// The launcher's data directory (`hyprcoop` under the user's data
/// directory), or `None` when the user has no data directory. The user's
/// data directory comes from the environment.
pub fn data_dir() -> (r: Option<String>)
    ensures
        r matches Some(d) ==> exists|base: Seq<char>| d@ == hyprcoop_dir_spec(base),
{
    match crate::paths::data_dir() {
        Some(base) => {
            let d = hyprcoop_dir(base.as_str());
            assert(d@ == hyprcoop_dir_spec(base@));
            Some(d)
        },
        None => None,
    }
}

/// A player's profile directory name: `player1`, `player2`, ...
pub open spec fn profile_name_spec(index: nat) -> Seq<char> {
    "player"@ + decimal(index + 1)
}

/// The profile directory name of the player at `index` (counting from 0).
pub fn profile_name(index: usize) -> (r: String)
    requires
        index < usize::MAX,
    ensures
        r@ == profile_name_spec(index as nat),
{
    let mut r = "player".to_string();
    push_decimal(&mut r, (index + 1) as u128);
    r
}

/// `<data>/profiles/<name>`.
pub open spec fn profile_path_spec(data: Seq<char>, name: Seq<char>) -> Seq<char> {
    path_join(path_join(data, "profiles"@), name)
}

/// A player's persistent profile directory under the launcher's data
/// directory.
pub fn profile_path(data: &str, name: &str) -> (r: String)
    ensures
        r@ == profile_path_spec(data@, name@),
{
    let profiles = join_path(data, "profiles");
    join_path(profiles.as_str(), name)
}

/// The directory inside a profile that stands in for a game's config
/// directory: named after the config directory's last component, or
/// `config` when it has none.
pub open spec fn config_bind_spec(profile: Seq<char>, config_dir: Seq<char>) -> Seq<char> {
    match file_name_of(config_dir) {
        Some(base) => path_join(profile, base),
        None => path_join(profile, "config"@),
    }
}

/// See [`config_bind_spec`].
pub fn config_bind_path(profile: &str, config_dir: &str) -> (r: String)
    ensures
        r@ == config_bind_spec(profile@, config_dir@),
{
    match file_name(config_dir) {
        Some(base) => join_path(profile, base.as_str()),
        None => join_path(profile, "config"),
    }
}

/// `str::split` on one character: the pieces between separators, empty ones
/// included.
pub open spec fn split_on(s: Seq<char>, sep: char) -> Seq<Seq<char>>
    decreases s.len(),
{
    match find_char(s, sep) {
        None => seq![s],
        Some(i) => {
            proof {
                lemma_find_char(s, sep);
            }
            seq![s.take(i)] + split_on(s.skip(i + 1), sep)
        },
    }
}

/// The components of a config-patch pattern, split on `/`.
pub fn pattern_components(pattern: &str) -> (r: Vec<String>)
    ensures
        r@.map_values(|c: String| c@) == split_on(pattern@, '/'),
{
    let p = chars_of(pattern);
    let n = p.len();
    let mut out: Vec<String> = Vec::new();
    let mut pos: usize = 0;
    assert(p@.skip(0) =~= p@);
    loop
        invariant
            pos <= n,
            n == p@.len(),
            p@ == pattern@,
            split_on(pattern@, '/') == out@.map_values(|c: String| c@) + split_on(p@.skip(pos as int), '/'),
        decreases n - pos,
    {
        let rest = slice_chars(p.as_slice(), pos, n);
        assert(rest@ =~= p@.skip(pos as int));
        proof {
            lemma_find_char(rest@, '/');
        }
        match find(rest.as_slice(), '/') {
            None => {
                let ghost before = out@.map_values(|c: String| c@);
                out.push(string_of(rest.as_slice()));
                assert(out@.map_values(|c: String| c@) =~= before.push(rest@));
                assert(split_on(rest@, '/') =~= seq![rest@]);
                return out;
            },
            Some(i) => {
                let ghost before = out@.map_values(|c: String| c@);
                let piece = slice_chars(rest.as_slice(), 0, i);
                assert(piece@ =~= rest@.take(i as int));
                out.push(string_of(piece.as_slice()));
                assert(out@.map_values(|c: String| c@) =~= before.push(piece@));
                assert(rest@.skip(i + 1) =~= p@.skip(pos + i + 1));
                assert(before + split_on(rest@, '/') =~= out@.map_values(|c: String| c@) + split_on(
                    rest@.skip(i + 1),
                    '/',
                ));
                pos = pos + i + 1;
            },
        }
    }
}

/// One step of expanding a config-patch pattern: each candidate is followed
/// by the component or, for a `*` component, replaced by the entries listed
/// for it (`listings` holds the entries of each candidate directory in turn).
pub open spec fn expand_step_spec(
    candidates: Seq<Seq<char>>,
    comp: Seq<char>,
    listings: Seq<Seq<Seq<char>>>,
) -> Seq<Seq<char>> {
    if comp == "*"@ {
        listings.flatten()
    } else {
        candidates.map_values(|c: Seq<char>| path_join(c, comp))
    }
}


/// See [`expand_step_spec`].
pub fn expand_step(candidates: &Vec<String>, comp: &str, listings: &Vec<Vec<String>>) -> (r: Vec<String>)
    requires
        comp@ == "*"@ ==> listings@.len() == candidates@.len(),
    ensures
        texts(r@) == expand_step_spec(
            texts(candidates@),
            comp@,
            listings@.map_values(|l: Vec<String>| texts(l@)),
        ),
{
    proof {
        reveal_strlit("*");
    }
    let c = chars_of(comp);
    let star: Vec<char> = vec!['*'];
    assert(star@ =~= "*"@);
    let wild = seq_eq(c.as_slice(), star.as_slice());
    let ghost ls = listings@.map_values(|l: Vec<String>| texts(l@));
    let ghost cs = texts(candidates@);
    let mut out: Vec<String> = Vec::new();
    if wild {
        let mut i: usize = 0;
        assert(ls.take(0) =~= Seq::<Seq<Seq<char>>>::empty());
        while i < listings.len()
            invariant
                i <= listings@.len(),
                ls == listings@.map_values(|l: Vec<String>| texts(l@)),
                texts(out@) == ls.take(i as int).flatten(),
            decreases listings@.len() - i,
        {
            let ghost before = texts(out@);
            let entries = &listings[i];
            let mut k: usize = 0;
            assert(texts(entries@).take(0) =~= Seq::<Seq<char>>::empty());
            while k < entries.len()
                invariant
                    k <= entries@.len(),
                    texts(out@) == before + texts(entries@).take(k as int),
                decreases entries@.len() - k,
            {
                let e = entries[k].clone();
                assert(texts(entries@)[k as int] == e@);
                let ghost prev = texts(out@);
                out.push(e);
                assert(texts(out@) =~= prev.push(e@));
                assert(texts(entries@).take(k + 1) =~= texts(entries@).take(k as int).push(e@));
                assert(texts(out@) =~= before + texts(entries@).take(k + 1));
                k = k + 1;
            }
            proof {
                assert(texts(entries@).take(k as int) =~= texts(entries@));
                let t = ls.take(i + 1);
                assert(t.drop_last() =~= ls.take(i as int));
                assert(t.last() == texts(entries@));
                t.lemma_flatten_and_flatten_alt_are_equivalent();
                ls.take(i as int).lemma_flatten_and_flatten_alt_are_equivalent();
            }
            i = i + 1;
        }
        assert(ls.take(i as int) =~= ls);
    } else {
        let mut i: usize = 0;
        while i < candidates.len()
            invariant
                i <= candidates@.len(),
                cs == texts(candidates@),
                texts(out@) == cs.take(i as int).map_values(|c: Seq<char>| path_join(c, comp@)),
            decreases candidates@.len() - i,
        {
            let joined = join_path(candidates[i].as_str(), comp);
            assert(cs[i as int] == candidates@[i as int]@);
            let ghost before = texts(out@);
            out.push(joined);
            assert(texts(out@) =~= before.push(joined@));
            assert(texts(out@) =~= cs.take(i + 1).map_values(|c: Seq<char>| path_join(c, comp@)));
            i = i + 1;
        }
        assert(cs.take(i as int) =~= cs);
    }
    out
}

} // verus!

verus! {

/// The key of a `key = value` line: the text before its first `=`,
/// trimmed; none without `=`.
pub open spec fn line_key(l: Seq<char>) -> Option<Seq<char>> {
    match find_char(l, '=') {
        Some(i) => Some(trim(l.take(i))),
        None => None,
    }
}

/// The value of a `key = value` line: the text after its first `=`,
/// trimmed.
pub open spec fn line_value(l: Seq<char>) -> Seq<char> {
    match find_char(l, '=') {
        Some(i) => trim(l.skip(i + 1)),
        None => Seq::empty(),
    }
}

/// A key that reads back as written: no `=` in it, no whitespace around
/// it, and it does not start with `[`.
pub open spec fn plain_key(k: Seq<char>) -> bool {
    &&& forall|j: int| 0 <= j < k.len() ==> k[j] != '='
    &&& trim(k) == k
    &&& k.len() > 0 ==> k[0] != '['
}

/// A setting that reads back as written: a plain key and a value without
/// whitespace around it.
pub open spec fn plain_setting(kv: Setting) -> bool {
    plain_key(kv.0) && trim(kv.1) == kv.1
}

/// A `key = value` line written for a plain key has that key and does not
/// open a section.
proof fn lemma_setting_line_key(k: Seq<char>, v: Seq<char>)
    requires
        plain_key(k),
    ensures
        line_key(setting_line(k, v)) == Some(k),
        find_char(setting_line(k, v), '=') == Some(k.len() + 1int),
        !opens_section(setting_line(k, v)),
{
    reveal_strlit(" = ");
    let rest = seq![' ', '=', ' '] + v;
    let l = setting_line(k, v);
    let n = k.len() as int;
    assert(l =~= k + rest);
    assert(l[n] == ' ');
    assert(l[n + 1] == '=');
    assert forall|j: int| 0 <= j < n + 1 implies l[j] != '=' by {
        if j < n {
            assert(l[j] == k[j]);
        }
    }
    lemma_find_char_at(l, '=', n + 1);
    assert(l.take(n + 1) =~= k + seq![' ']);
    lemma_trim_space_after(k);
    // The trimmed line starts with the key, or with `=` for an empty key.
    lemma_trim_start_concat(k, rest);
    assert(!is_ws('='));
    if k.len() > 0 {
        lemma_trim_first(k);
        assert(trim_start(k).len() > 0);
        assert(trim_start(k)[0] == k[0]) by {
            crate::text::lemma_trim_start_suffix(k);
            crate::text::lemma_trim_end_prefix(trim_start(k));
        }
        let ts = trim_start(l);
        assert(ts == trim_start(k) + rest);
        assert(ts[0] == trim_start(k)[0]);
        lemma_trim_end_keeps(ts, 0);
        lemma_trim_first(l);
    } else {
        assert(k + rest =~= rest);
        assert(rest.drop_first()[0] == '=');
        assert(is_ws(rest[0]));
        assert(trim_start(rest.drop_first()) == rest.drop_first());
        assert(trim_start(rest) == rest.drop_first());
        let ts = trim_start(l);
        assert(ts[0] == '=');
        lemma_trim_end_keeps(ts, 0);
        lemma_trim_first(l);
    }
}

/// A `key = value` line written for a plain setting gives back the value.
proof fn lemma_setting_line_value(k: Seq<char>, v: Seq<char>)
    requires
        plain_key(k),
        trim(v) == v,
    ensures
        line_value(setting_line(k, v)) == v,
{
    reveal_strlit(" = ");
    lemma_setting_line_key(k, v);
    let l = setting_line(k, v);
    assert(l.skip(k.len() as int + 2) =~= seq![' '] + v);
    lemma_trim_space_before(v);
}

/// The key of a line inside a section is plain: it has no `=` (it ends at
/// the first one), no surrounding whitespace, and cannot start with `[`
/// since the line does not open a section.
proof fn lemma_line_key_plain(l: Seq<char>)
    requires
        line_key(l) is Some,
        !opens_section(l),
    ensures
        plain_key(line_key(l)->Some_0),
{
    let i = find_char(l, '=')->Some_0;
    lemma_find_char(l, '=');
    let a = l.take(i);
    let key = trim(a);
    assert forall|j: int| 0 <= j < a.len() implies a[j] != '=' by {}
    lemma_trim_within(a, '=');
    lemma_trim_idempotent(a);
    if key.len() > 0 {
        lemma_trim_first(a);
        assert(l =~= a + l.skip(i));
        lemma_trim_start_concat(a, l.skip(i));
        crate::text::lemma_trim_end_prefix(trim_start(a));
        assert(trim_start(a).len() > 0);
        let ts = trim_start(l);
        assert(ts[0] == trim_start(a)[0]);
        assert(!is_ws(ts[0]));
        lemma_trim_end_keeps(ts, 0);
        lemma_trim_first(l);
        assert(trim(l)[0] == key[0]);
    }
}

/// Updating a line keeps its key, and keeps it from opening a section.
proof fn lemma_update_line_key(l: Seq<char>, rem: Seq<Setting>)
    requires
        !opens_section(l),
    ensures
        line_key(update_line(l, rem).0) == line_key(l),
        !opens_section(update_line(l, rem).0),
{
    match find_char(l, '=') {
        None => {},
        Some(i) => {
            let key = trim(l.take(i));
            match last_match(rem, key) {
                Some(v) => {
                    lemma_line_key_plain(l);
                    lemma_setting_line_key(key, v);
                },
                None => {},
            }
        },
    }
}

} // verus!

verus! {

/// Whether a line is a `key = value` line for `key` (compared ASCII
/// case-insensitively, as the patcher compares keys).
pub open spec fn keyed(l: Seq<char>, key: Seq<char>) -> bool {
    line_key(l) matches Some(k) && eq_ignore_ascii_case(k, key)
}

/// The first of `lines` keyed by `key`.
pub open spec fn first_keyed(lines: Seq<Seq<char>>, key: Seq<char>) -> Option<int>
    decreases lines.len(),
{
    if lines.len() == 0 {
        None
    } else {
        match first_keyed(lines.drop_last(), key) {
            Some(j) => Some(j),
            None => if keyed(lines.last(), key) {
                Some(lines.len() - 1)
            } else {
                None
            },
        }
    }
}

proof fn lemma_first_keyed(lines: Seq<Seq<char>>, key: Seq<char>)
    ensures
        first_keyed(lines, key) matches Some(p) ==> 0 <= p < lines.len() && keyed(lines[p], key)
            && forall|j: int| 0 <= j < p ==> !keyed(#[trigger] lines[j], key),
        first_keyed(lines, key) is None ==> forall|j: int|
            0 <= j < lines.len() ==> !keyed(#[trigger] lines[j], key),
    decreases lines.len(),
{
    if lines.len() > 0 {
        let p = lines.drop_last();
        lemma_first_keyed(p, key);
        assert forall|j: int| 0 <= j < p.len() implies #[trigger] lines[j] == p[j] by {}
    }
}

/// The first keyed line of a concatenation.
proof fn lemma_first_keyed_concat(a: Seq<Seq<char>>, b: Seq<Seq<char>>, key: Seq<char>)
    ensures
        first_keyed(a + b, key) == match first_keyed(a, key) {
            Some(j) => Some(j),
            None => match first_keyed(b, key) {
                Some(j) => Some(a.len() + j),
                None => None,
            },
        },
    decreases b.len(),
{
    if b.len() == 0 {
        assert(a + b =~= a);
    } else {
        lemma_first_keyed_concat(a, b.drop_last(), key);
        assert((a + b).drop_last() =~= a + b.drop_last());
        assert((a + b).last() == b.last());
    }
}

/// Lines keyed alike have their first keyed line at the same place.
proof fn lemma_first_keyed_same(a: Seq<Seq<char>>, b: Seq<Seq<char>>, key: Seq<char>)
    requires
        a.len() == b.len(),
        forall|j: int| 0 <= j < a.len() ==> keyed(#[trigger] a[j], key) == keyed(b[j], key),
    ensures
        first_keyed(a, key) == first_keyed(b, key),
    decreases a.len(),
{
    if a.len() > 0 {
        assert forall|j: int| 0 <= j < a.len() - 1 implies keyed(#[trigger] a.drop_last()[j], key)
            == keyed(b.drop_last()[j], key) by {
            assert(a.drop_last()[j] == a[j]);
            assert(b.drop_last()[j] == b[j]);
        }
        lemma_first_keyed_same(a.drop_last(), b.drop_last(), key);
    }
}

/// What [`unmatched`] keeps: exactly the settings whose key does not match.
proof fn lemma_unmatched(rem: Seq<Setting>, key: Seq<char>)
    ensures
        forall|s: Setting| #[trigger]
            unmatched(rem, key).contains(s) <==> (rem.contains(s) && !eq_ignore_ascii_case(key, s.0)),
    decreases rem.len(),
{
    if rem.len() > 0 {
        let p = rem.drop_last();
        lemma_unmatched(p, key);
        assert(rem =~= p.push(rem.last()));
        lemma_contains_push(p, rem.last());
        lemma_contains_push(unmatched(p, key), rem.last());
    }
}

proof fn lemma_contains_push(p: Seq<Setting>, x: Setting)
    ensures
        forall|s: Setting| #[trigger] p.push(x).contains(s) <==> (p.contains(s) || s == x),
{
    let q = p.push(x);
    assert forall|s: Setting| #[trigger] q.contains(s) <==> (p.contains(s) || s == x) by {
        if q.contains(s) {
            let k = choose|k: int| 0 <= k < q.len() && q[k] == s;
            if k < p.len() {
                assert(p[k] == s);
            }
        }
        if p.contains(s) {
            let k = choose|k: int| 0 <= k < p.len() && p[k] == s;
            assert(q[k] == s);
        }
        if s == x {
            assert(q[p.len() as int] == s);
        }
    }
}

/// When every setting matching `key` has the value `v`, and one does,
/// [`last_match`] finds `v`.
proof fn lemma_last_match(rem: Seq<Setting>, key: Seq<char>, v: Seq<char>)
    requires
        forall|s: Setting| rem.contains(s) && eq_ignore_ascii_case(key, s.0) ==> s.1 == v,
        exists|s: Setting| rem.contains(s) && eq_ignore_ascii_case(key, s.0),
    ensures
        last_match(rem, key) == Some(v),
    decreases rem.len(),
{
    let p = rem.drop_last();
    assert(rem =~= p.push(rem.last()));
    lemma_contains_push(p, rem.last());
    if !eq_ignore_ascii_case(key, rem.last().0) {
        let s = choose|s: Setting| rem.contains(s) && eq_ignore_ascii_case(key, s.0);
        assert(p.contains(s));
        assert forall|t: Setting| p.contains(t) && eq_ignore_ascii_case(key, t.0) implies t.1 == v by {
            assert(p.push(rem.last()).contains(t));
        }
        lemma_last_match(p, key, v);
    } else {
        assert(rem.contains(rem.last()));
    }
}

} // verus!

verus! {

/// What updating the lines of a section does for one setting `(k, v)`,
/// the only one whose key matches `k`: every line keeps its key and stays
/// inside the section; the settings left over are among those given; and
/// the first line keyed by `k` now holds `v` and the setting is used up,
/// or, with no such line, the setting is left over.
#[verifier::spinoff_prover]
proof fn lemma_update_lines(lines: Seq<Seq<char>>, rem: Seq<Setting>, k: Seq<char>, v: Seq<char>)
    requires
        forall|j: int| 0 <= j < lines.len() ==> !opens_section(#[trigger] lines[j]),
        forall|s: Setting| rem.contains(s) && eq_ignore_ascii_case(s.0, k) ==> s == (k, v),
    ensures
        update_lines(lines, rem).0.len() == lines.len(),
        forall|j: int|
            0 <= j < lines.len() ==> line_key(#[trigger] update_lines(lines, rem).0[j]) == line_key(
                lines[j],
            ) && !opens_section(update_lines(lines, rem).0[j]),
        forall|s: Setting| #[trigger] update_lines(lines, rem).1.contains(s) ==> rem.contains(s),
        rem.contains((k, v)) ==> match first_keyed(lines, k) {
            Some(j0) => (trim(v) == v ==> line_value(update_lines(lines, rem).0[j0]) == v) && update_lines(lines, rem).0[j0]
                == setting_line(line_key(lines[j0])->Some_0, v) && !update_lines(
                lines,
                rem,
            ).1.contains((k, v)),
            None => update_lines(lines, rem).1.contains((k, v)),
        },
    decreases lines.len(),
{
    if lines.len() > 0 {
        let front = lines.drop_last();
        assert forall|j: int| 0 <= j < front.len() implies !opens_section(#[trigger] front[j]) by {
            assert(front[j] == lines[j]);
        }
        lemma_update_lines(front, rem, k, v);
        let (pre, r1) = update_lines(front, rem);
        let l = lines.last();
        let (l2, r2) = update_line(l, r1);
        assert(update_lines(lines, rem) == (pre.push(l2), r2));
        assert(!opens_section(l));
        lemma_update_line_key(l, r1);
        // What is left over only shrinks.
        match find_char(l, '=') {
            None => {
                assert(r2 == r1);
            },
            Some(i) => {
                lemma_unmatched(r1, trim(l.take(i)));
            },
        }
        assert forall|j: int| 0 <= j < lines.len() implies line_key(
            #[trigger] pre.push(l2)[j],
        ) == line_key(lines[j]) && !opens_section(pre.push(l2)[j]) by {
            if j < front.len() {
                assert(pre.push(l2)[j] == pre[j]);
                assert(front[j] == lines[j]);
            }
        }
        lemma_first_keyed(front, k);
        if rem.contains((k, v)) {
            match first_keyed(front, k) {
                Some(j0) => {
                    assert(first_keyed(lines, k) == Some(j0));
                    assert(pre.push(l2)[j0] == pre[j0]);
                    lemma_first_keyed(lines, k);
                    assert(front[j0] == lines[j0]);
                },
                None => {
                    assert(r1.contains((k, v)));
                    if keyed(l, k) {
                        assert(first_keyed(lines, k) == Some(lines.len() - 1));
                        let i = find_char(l, '=')->Some_0;
                        let key = trim(l.take(i));
                        assert(eq_ignore_ascii_case(key, k));
                        assert forall|s: Setting| r1.contains(s) && eq_ignore_ascii_case(key, s.0) implies s.1
                            == v by {
                            lemma_eq_ignore_case_symmetric(key, s.0);
                            lemma_eq_ignore_case_transitive(s.0, key, k);
                            assert(rem.contains(s));
                        }
                        lemma_eq_ignore_case_symmetric(key, k);
                        lemma_last_match(r1, key, v);
                        lemma_line_key_plain(l);
                        if trim(v) == v {
                            lemma_setting_line_value(key, v);
                        }
                        assert(l2 == setting_line(key, v));
                        assert(pre.push(l2)[lines.len() - 1] == l2);
                    } else {
                        assert(first_keyed(lines, k) is None);
                        match find_char(l, '=') {
                            None => {},
                            Some(i) => {
                                let key = trim(l.take(i));
                                assert(!eq_ignore_ascii_case(key, k));
                                lemma_eq_ignore_case_symmetric(key, k);
                            },
                        }
                    }
                },
            }
        }
    }
}

} // verus!

verus! {

/// The value a file's lines give `key` in `section`, as a reader of the
/// file finds it: within the section (from its first header line to the
/// next line that opens a section), the first line keyed by `key`, and its
/// text after `=`, trimmed.
pub open spec fn ini_value(lines: Seq<Seq<char>>, section: Seq<char>, key: Seq<char>) -> Option<
    Seq<char>,
> {
    match first_header(lines, header_of(section)) {
        None => None,
        Some(s) => {
            let e = s + 1 + first_opening(lines.skip(s + 1));
            match first_keyed(lines.subrange(s + 1, e), key) {
                Some(j) => Some(line_value(lines[s + 1 + j])),
                None => None,
            }
        },
    }
}

/// No two settings have keys that match each other.
pub open spec fn distinct_keys(values: Seq<Setting>) -> bool {
    forall|a: int, b: int|
        0 <= a < b < values.len() ==> !eq_ignore_ascii_case(values[a].0, values[b].0)
}

proof fn lemma_first_header_props(lines: Seq<Seq<char>>, header: Seq<char>)
    ensures
        first_header(lines, header) matches Some(s) ==> 0 <= s < lines.len() && is_header_line(
            lines[s],
            header,
        ) && forall|j: int| 0 <= j < s ==> !is_header_line(#[trigger] lines[j], header),
        first_header(lines, header) is None ==> forall|j: int|
            0 <= j < lines.len() ==> !is_header_line(#[trigger] lines[j], header),
    decreases lines.len(),
{
    if lines.len() > 0 {
        let t = lines.drop_first();
        lemma_first_header_props(t, header);
        assert forall|j: int| 1 <= j < lines.len() implies #[trigger] lines[j] == t[j - 1] by {}
    }
}

proof fn lemma_first_opening_props(lines: Seq<Seq<char>>)
    ensures
        0 <= first_opening(lines) <= lines.len(),
        forall|j: int| 0 <= j < first_opening(lines) ==> !opens_section(#[trigger] lines[j]),
        first_opening(lines) < lines.len() ==> opens_section(lines[first_opening(lines)]),
    decreases lines.len(),
{
    if lines.len() > 0 && !opens_section(lines[0]) {
        let t = lines.drop_first();
        lemma_first_opening_props(t);
        assert forall|j: int| 1 <= j < lines.len() implies #[trigger] lines[j] == t[j - 1] by {}
    }
}

proof fn lemma_first_opening_concat(a: Seq<Seq<char>>, b: Seq<Seq<char>>)
    requires
        forall|j: int| 0 <= j < a.len() ==> !opens_section(#[trigger] a[j]),
    ensures
        first_opening(a + b) == a.len() + first_opening(b),
    decreases a.len(),
{
    if a.len() == 0 {
        assert(a + b =~= b);
    } else {
        assert((a + b)[0] == a[0]);
        assert((a + b).drop_first() =~= a.drop_first() + b);
        assert forall|j: int| 0 <= j < a.len() - 1 implies !opens_section(#[trigger] a.drop_first()[j]) by {
            assert(a.drop_first()[j] == a[j + 1]);
        }
        lemma_first_opening_concat(a.drop_first(), b);
    }
}

/// The lines written for the settings left over.
pub open spec fn setting_lines(rest: Seq<Setting>) -> Seq<Seq<char>> {
    rest.map_values(|kv: Setting| setting_line(kv.0, kv.1))
}

/// In the patched lines, every setting given reads back, in its section,
/// with the value given.
#[verifier::spinoff_prover]
proof fn lemma_patched_lines_read_back(text: Seq<char>, section: Seq<char>, values: Seq<Setting>, m: int)
    requires
        0 <= m < values.len(),
        forall|i: int| 0 <= i < values.len() ==> plain_setting(#[trigger] values[i]),
        distinct_keys(values),
    ensures
        ini_value(patched_lines(text, section, values), section, values[m].0) == Some(values[m].1),
{
    let k = values[m].0;
    let v = values[m].1;
    let h = header_of(section);
    let lines0 = lines_of(text);
    let (lines, s) = with_section(lines0, h);
    assert(plain_setting(values[m]));

    // The section header is found at `s`.
    lemma_first_header_props(lines0, h);
    assert(!is_ws('[') && !is_ws(']'));
    crate::text::lemma_trim_plain(h);
    assert(is_header_line(h, h));
    if first_header(lines0, h) is None {
        let padded = if lines0.len() > 0 {
            lines0.push(seq![])
        } else {
            lines0
        };
        assert(lines == padded.push(h));
        assert forall|j: int| 0 <= j < s implies !is_header_line(#[trigger] lines[j], h) by {
            if j < lines0.len() {
                assert(lines[j] == lines0[j]);
            } else {
                assert(lines[j] == Seq::<char>::empty());
                assert(trim(Seq::<char>::empty()) =~= Seq::<char>::empty());
            }
        }
        assert(lines[s] == h);
        lemma_first_header(lines, h, s);
    }
    lemma_first_header_props(lines, h);
    assert(first_header(lines, h) == Some(s));

    // The body of the section and what updating it does.
    let tail = lines.skip(s + 1);
    let fo = first_opening(tail);
    let e = s + 1 + fo;
    lemma_first_opening_props(tail);
    let body0 = lines.subrange(s + 1, e);
    assert forall|j: int| 0 <= j < body0.len() implies !opens_section(#[trigger] body0[j]) by {
        assert(body0[j] == tail[j]);
    }
    assert forall|t: Setting| values.contains(t) && eq_ignore_ascii_case(t.0, k) implies t == (k, v) by {
        let b = choose|b: int| 0 <= b < values.len() && values[b] == t;
        if b < m {
        } else if b > m {
            lemma_eq_ignore_case_symmetric(values[m].0, values[b].0);
        }
    }
    lemma_update_lines(body0, values, k, v);
    let (body, rest) = update_lines(body0, values);
    let r = setting_lines(rest);
    assert forall|i: int| 0 <= i < r.len() implies line_key(#[trigger] r[i]) == Some(rest[i].0)
        && !opens_section(r[i]) && values.contains(rest[i]) by {
        assert(rest.contains(rest[i]));
        let b = choose|b: int| 0 <= b < values.len() && values[b] == rest[i];
        assert(plain_setting(values[b]));
        lemma_setting_line_key(rest[i].0, rest[i].1);
    }

    // The patched lines and their section.
    let p = patched_lines(text, section, values);
    assert(p == lines.take(s + 1) + r + body + lines.skip(e));
    assert forall|j: int| 0 <= j <= s implies #[trigger] p[j] == lines[j] by {}
    lemma_first_header(p, h, s);
    let after = lines.skip(e);
    assert(after =~= tail.skip(fo));
    assert(first_opening(after) == 0) by {
        if fo < tail.len() {
            assert(after[0] == tail[fo]);
        }
    }
    let rb = r + body;
    assert forall|j: int| 0 <= j < rb.len() implies !opens_section(#[trigger] rb[j]) by {
        if j < r.len() {
            assert(rb[j] == r[j]);
        } else {
            assert(rb[j] == body[j - r.len()]);
        }
    }
    assert(p.skip(s + 1) =~= rb + after);
    lemma_first_opening_concat(rb, after);
    let e2 = s + 1 + first_opening(p.skip(s + 1));
    assert(e2 == s + 1 + rb.len());
    assert(p.subrange(s + 1, e2) =~= rb);

    // The first line keyed by `k` holds `v`.
    lemma_first_keyed_concat(r, body, k);
    lemma_first_keyed(r, k);
    lemma_first_keyed(body0, k);
    lemma_first_keyed(body, k);
    assert(values.contains(values[m]));
    assert forall|j: int| 0 <= j < body.len() implies keyed(#[trigger] body[j], k) == keyed(body0[j], k) by {}
    lemma_first_keyed_same(body, body0, k);
    match first_keyed(body0, k) {
        Some(j0) => {
            assert(!rest.contains((k, v)));
            match first_keyed(r, k) {
                Some(q) => {
                    assert(keyed(r[q], k));
                    assert(eq_ignore_ascii_case(rest[q].0, k));
                    assert(rest[q] == (k, v));
                    assert(rest.contains(rest[q]));
                },
                None => {},
            }
            assert(first_keyed(rb, k) == Some(r.len() + j0));
            assert(p[s + 1 + r.len() + j0] == body[j0]);
        },
        None => {
            assert(rest.contains((k, v)));
            let ix = choose|ix: int| 0 <= ix < rest.len() && rest[ix] == (k, v);
            assert(keyed(r[ix], k));
            match first_keyed(r, k) {
                Some(q) => {
                    assert(keyed(r[q], k));
                    assert(eq_ignore_ascii_case(rest[q].0, k));
                    assert(rest[q] == (k, v));
                    lemma_setting_line_value(k, v);
                    assert(p[s + 1 + q] == r[q]);
                },
                None => {
                    assert(!keyed(r[ix], k));
                },
            }
        },
    }
}

} // verus!

verus! {

/// A final carriage return changes none of what a reader looks at in a
/// line: its trimmed text, its key and its value.
proof fn lemma_strip_cr_line(l: Seq<char>)
    ensures
        trim(strip_cr(l)) == trim(l),
        line_key(strip_cr(l)) == line_key(l),
        line_value(strip_cr(l)) == line_value(l),
{
    lemma_trim_strip_cr(l);
    if l.len() > 0 && l.last() == '\r' {
        let s = l.drop_last();
        lemma_find_char(l, '=');
        lemma_find_char(s, '=');
        match find_char(l, '=') {
            Some(i) => {
                assert(i < s.len());
                assert forall|j: int| 0 <= j < i implies s[j] != '=' by {
                    assert(s[j] == l[j]);
                }
                lemma_find_char_at(s, '=', i);
                assert(s.take(i) =~= l.take(i));
                let after = l.skip(i + 1);
                assert(after.len() > 0 && after.last() == '\r');
                assert(s.skip(i + 1) =~= after.drop_last());
                lemma_trim_strip_cr(after);
            },
            None => {
                if find_char(s, '=') is Some {
                    let i = find_char(s, '=')->Some_0;
                    assert(l[i] == s[i]);
                }
            },
        }
    }
}

proof fn lemma_first_header_same(a: Seq<Seq<char>>, b: Seq<Seq<char>>, h: Seq<char>)
    requires
        a.len() == b.len(),
        forall|j: int| 0 <= j < a.len() ==> trim(#[trigger] a[j]) == trim(b[j]),
    ensures
        first_header(a, h) == first_header(b, h),
    decreases a.len(),
{
    if a.len() > 0 {
        assert(trim(a[0]) == trim(b[0]));
        assert forall|j: int| 0 <= j < a.len() - 1 implies trim(#[trigger] a.drop_first()[j])
            == trim(b.drop_first()[j]) by {
            assert(a.drop_first()[j] == a[j + 1]);
            assert(b.drop_first()[j] == b[j + 1]);
        }
        lemma_first_header_same(a.drop_first(), b.drop_first(), h);
    }
}

proof fn lemma_first_opening_same(a: Seq<Seq<char>>, b: Seq<Seq<char>>)
    requires
        a.len() == b.len(),
        forall|j: int| 0 <= j < a.len() ==> trim(#[trigger] a[j]) == trim(b[j]),
    ensures
        first_opening(a) == first_opening(b),
    decreases a.len(),
{
    if a.len() > 0 {
        assert(trim(a[0]) == trim(b[0]));
        assert forall|j: int| 0 <= j < a.len() - 1 implies trim(#[trigger] a.drop_first()[j])
            == trim(b.drop_first()[j]) by {
            assert(a.drop_first()[j] == a[j + 1]);
            assert(b.drop_first()[j] == b[j + 1]);
        }
        lemma_first_opening_same(a.drop_first(), b.drop_first());
    }
}

/// A reader finds the same values whether or not lines end in a carriage
/// return.
proof fn lemma_ini_value_strip_cr(lines: Seq<Seq<char>>, section: Seq<char>, key: Seq<char>)
    ensures
        ini_value(lines.map_values(|l: Seq<char>| strip_cr(l)), section, key) == ini_value(
            lines,
            section,
            key,
        ),
{
    let q = lines.map_values(|l: Seq<char>| strip_cr(l));
    assert forall|j: int| 0 <= j < lines.len() implies trim(#[trigger] q[j]) == trim(lines[j])
        && line_key(q[j]) == line_key(lines[j]) && line_value(q[j]) == line_value(lines[j]) by {
        lemma_strip_cr_line(lines[j]);
    }
    lemma_first_header_same(q, lines, header_of(section));
    match first_header(lines, header_of(section)) {
        None => {},
        Some(s) => {
            lemma_first_header_props(lines, header_of(section));
            let qt = q.skip(s + 1);
            let lt = lines.skip(s + 1);
            assert forall|j: int| 0 <= j < qt.len() implies trim(#[trigger] qt[j]) == trim(lt[j]) by {
                assert(qt[j] == q[s + 1 + j]);
                assert(lt[j] == lines[s + 1 + j]);
            }
            lemma_first_opening_same(qt, lt);
            let e = s + 1 + first_opening(lt);
            lemma_first_opening_props(lt);
            let qs = q.subrange(s + 1, e);
            let ls = lines.subrange(s + 1, e);
            assert forall|j: int| 0 <= j < qs.len() implies keyed(#[trigger] qs[j], key) == keyed(
                ls[j],
                key,
            ) by {
                assert(qs[j] == q[s + 1 + j]);
                assert(ls[j] == lines[s + 1 + j]);
            }
            lemma_first_keyed_same(qs, ls, key);
            lemma_first_keyed(ls, key);
        },
    }
}

/// Updating the lines of a section adds no line break when neither the
/// lines nor the settings hold one.
proof fn lemma_update_lines_no_newline(lines: Seq<Seq<char>>, rem: Seq<Setting>)
    requires
        forall|j: int| 0 <= j < lines.len() ==> no_newline(#[trigger] lines[j]),
        forall|s: Setting| rem.contains(s) ==> no_newline(s.1),
    ensures
        forall|j: int|
            0 <= j < update_lines(lines, rem).0.len() ==> no_newline(
                #[trigger] update_lines(lines, rem).0[j],
            ),
        forall|s: Setting| #[trigger] update_lines(lines, rem).1.contains(s) ==> rem.contains(s),
    decreases lines.len(),
{
    reveal_strlit(" = ");
    if lines.len() > 0 {
        let front = lines.drop_last();
        assert forall|j: int| 0 <= j < front.len() implies no_newline(#[trigger] front[j]) by {
            assert(front[j] == lines[j]);
        }
        lemma_update_lines_no_newline(front, rem);
        let (pre, r1) = update_lines(front, rem);
        let l = lines.last();
        assert(no_newline(l));
        let (l2, r2) = update_line(l, r1);
        match find_char(l, '=') {
            None => {},
            Some(i) => {
                lemma_find_char(l, '=');
                let key = trim(l.take(i));
                lemma_unmatched(r1, key);
                match last_match(r1, key) {
                    Some(v) => {
                        lemma_last_match_from(r1, key);
                        assert(no_newline(v));
                        let a = l.take(i);
                        assert forall|j: int| 0 <= j < a.len() implies a[j] != '\n' by {
                            assert(a[j] == l[j]);
                        }
                        lemma_trim_within(a, '\n');
                        let n = setting_line(key, v);
                        assert forall|j: int| 0 <= j < n.len() implies n[j] != '\n' by {
                            if j < key.len() {
                                assert(n[j] == key[j]);
                            } else if j >= key.len() + 3 {
                                assert(n[j] == v[j - key.len() - 3]);
                            }
                        }
                    },
                    None => {},
                }
            },
        }
        assert forall|j: int| 0 <= j < pre.push(l2).len() implies no_newline(#[trigger] pre.push(l2)[j]) by {
            if j < pre.len() {
                assert(pre.push(l2)[j] == pre[j]);
            }
        }
    }
}

/// A value found by [`last_match`] belongs to one of the settings.
proof fn lemma_last_match_from(rem: Seq<Setting>, key: Seq<char>)
    ensures
        last_match(rem, key) matches Some(v) ==> exists|s: Setting| rem.contains(s) && s.1 == v,
    decreases rem.len(),
{
    if rem.len() > 0 {
        let p = rem.drop_last();
        lemma_last_match_from(p, key);
        assert(rem =~= p.push(rem.last()));
        lemma_contains_push(p, rem.last());
        if eq_ignore_ascii_case(key, rem.last().0) {
            assert(rem.contains(rem.last()));
        } else if last_match(p, key) is Some {
            let v = last_match(p, key)->Some_0;
            let w = choose|w: Setting| p.contains(w) && w.1 == v;
            assert(rem.contains(w));
        }
    }
}

} // verus!

verus! {

/// Reading a patched file back: every setting given to the patcher reads
/// back from the text written, in the section it was written to, with the
/// value it was given — whether its key was already there (in any letter
/// case) or not, and whether the section existed or not. This holds for
/// settings that read back as written (see [`plain_setting`]), on one line
/// each, with distinct keys, in a section whose name is on one line.
#[verifier::spinoff_prover]
pub proof fn law_patch_reads_back(text: Seq<char>, section: Seq<char>, values: Seq<Setting>, m: int)
    requires
        0 <= m < values.len(),
        forall|i: int|
            0 <= i < values.len() ==> plain_setting(#[trigger] values[i]) && no_newline(values[i].0)
                && no_newline(values[i].1),
        distinct_keys(values),
        no_newline(section),
    ensures
        ini_value(lines_of(patch_ini_spec(text, section, values)), section, values[m].0) == Some(
            values[m].1,
        ),
{
    assert forall|i: int| 0 <= i < values.len() implies plain_setting(#[trigger] values[i]) by {}
    lemma_patched_lines_read_back(text, section, values, m);
    let h = header_of(section);
    let lines0 = lines_of(text);
    let (lines, s) = with_section(lines0, h);
    let p = patched_lines(text, section, values);

    // No line of the patched text holds a line break.
    lemma_lines_of_no_newline(text);
    assert(no_newline(h)) by {
        assert forall|j: int| 0 <= j < h.len() implies h[j] != '\n' by {
            if 0 < j < h.len() - 1 {
                assert(h[j] == section[j - 1]);
            }
        }
    }
    assert forall|j: int| 0 <= j < lines.len() implies no_newline(#[trigger] lines[j]) by {
        if j < lines0.len() {
            assert(lines[j] == lines0[j]);
        } else if first_header(lines0, h) is None {
            if j == lines.len() - 1 {
                assert(lines[j] == h);
            } else {
                assert(lines[j] == Seq::<char>::empty());
            }
        }
    }
    let e = s + 1 + first_opening(lines.skip(s + 1));
    lemma_first_opening_props(lines.skip(s + 1));
    lemma_first_header_props(lines0, h);
    assert(0 <= s < lines.len());
    let body0 = lines.subrange(s + 1, e);
    assert forall|j: int| 0 <= j < body0.len() implies no_newline(#[trigger] body0[j]) by {
        assert(body0[j] == lines[s + 1 + j]);
    }
    assert forall|t: Setting| values.contains(t) implies no_newline(t.1) by {
        let b = choose|b: int| 0 <= b < values.len() && values[b] == t;
        assert(no_newline(values[b].1));
    }
    lemma_update_lines_no_newline(body0, values);
    let (body, rest) = update_lines(body0, values);
    let r = setting_lines(rest);
    reveal_strlit(" = ");
    assert forall|i: int| 0 <= i < r.len() implies no_newline(#[trigger] r[i]) by {
        assert(rest.contains(rest[i]));
        let b = choose|b: int| 0 <= b < values.len() && values[b] == rest[i];
        assert(no_newline(values[b].0) && no_newline(values[b].1));
        let k = rest[i].0;
        let v = rest[i].1;
        assert forall|j: int| 0 <= j < r[i].len() implies r[i][j] != '\n' by {
            if j < k.len() {
                assert(r[i][j] == k[j]);
            } else if j >= k.len() + 3 {
                assert(r[i][j] == v[j - k.len() - 3]);
            }
        }
    }
    assert(p == lines.take(s + 1) + r + body + lines.skip(e));
    assert forall|j: int| 0 <= j < p.len() implies no_newline(#[trigger] p[j]) by {
        let a = lines.take(s + 1).len() as int;
        if j < a {
            assert(p[j] == lines[j]);
        } else if j < a + r.len() {
            assert(p[j] == r[j - a]);
        } else if j < a + r.len() + body.len() {
            assert(p[j] == body[j - a - r.len()]);
        } else {
            assert(p[j] == lines[e + (j - a - r.len() - body.len())]);
        }
    }

    // Writing and reading back the lines gives them again, up to final
    // carriage returns, which a reader does not see.
    assert(p.len() > 0);
    assert(patch_ini_spec(text, section, values) == crate::text::terminated(p));
    lemma_lines_of_terminated(p);
    lemma_ini_value_strip_cr(p, section, values[m].0);
}

} // verus!

verus! {

/// Whether no given setting touches a line: it has no key, or no setting's
/// key matches it.
pub open spec fn untouched_line(l: Seq<char>, values: Seq<Setting>) -> bool {
    match line_key(l) {
        None => true,
        Some(k) => forall|i: int| 0 <= i < values.len() ==> !eq_ignore_ascii_case(k, #[trigger] values[i].0),
    }
}

proof fn lemma_last_match_none(rem: Seq<Setting>, key: Seq<char>)
    requires
        forall|s: Setting| rem.contains(s) ==> !eq_ignore_ascii_case(key, s.0),
    ensures
        last_match(rem, key) is None,
    decreases rem.len(),
{
    if rem.len() > 0 {
        let p = rem.drop_last();
        assert(rem =~= p.push(rem.last()));
        lemma_contains_push(p, rem.last());
        assert(rem.contains(rem.last()));
        assert forall|s: Setting| p.contains(s) implies !eq_ignore_ascii_case(key, s.0) by {
            assert(rem.contains(s));
        }
        lemma_last_match_none(p, key);
    }
}

/// Lines whose key matches none of the settings are left as they are.
proof fn lemma_update_lines_untouched(lines: Seq<Seq<char>>, rem: Seq<Setting>)
    ensures
        update_lines(lines, rem).0.len() == lines.len(),
        forall|j: int|
            0 <= j < lines.len() && (line_key(lines[j]) matches Some(k) ==> forall|s: Setting|
                rem.contains(s) ==> !eq_ignore_ascii_case(k, s.0)) ==> #[trigger] update_lines(
                lines,
                rem,
            ).0[j] == lines[j],
    decreases lines.len(),
{
    if lines.len() > 0 {
        let front = lines.drop_last();
        lemma_update_lines_untouched(front, rem);
        lemma_update_lines_rest(front, rem);
        let (pre, r1) = update_lines(front, rem);
        let l = lines.last();
        let (l2, r2) = update_line(l, r1);
        assert forall|j: int|
            0 <= j < lines.len() && (line_key(lines[j]) matches Some(k) ==> forall|s: Setting|
                rem.contains(s) ==> !eq_ignore_ascii_case(k, s.0)) implies #[trigger] pre.push(l2)[j]
            == lines[j] by {
            if j < front.len() {
                assert(pre.push(l2)[j] == pre[j]);
                assert(front[j] == lines[j]);
            } else {
                match find_char(l, '=') {
                    None => {},
                    Some(i) => {
                        let key = trim(l.take(i));
                        assert forall|s: Setting| r1.contains(s) implies !eq_ignore_ascii_case(key, s.0) by {
                            assert(rem.contains(s));
                        }
                        lemma_last_match_none(r1, key);
                    },
                }
            }
        }
    }
}

/// What is left over after updating lines is among the settings given.
proof fn lemma_update_lines_rest(lines: Seq<Seq<char>>, rem: Seq<Setting>)
    ensures
        forall|s: Setting| #[trigger] update_lines(lines, rem).1.contains(s) ==> rem.contains(s),
    decreases lines.len(),
{
    if lines.len() > 0 {
        let front = lines.drop_last();
        lemma_update_lines_rest(front, rem);
        let (pre, r1) = update_lines(front, rem);
        let l = lines.last();
        match find_char(l, '=') {
            None => {},
            Some(i) => {
                lemma_unmatched(r1, trim(l.take(i)));
            },
        }
    }
}

/// The patcher preserves everything else: the lines up to the section's
/// header and every line after the section are kept; after the header come
/// the settings that were not there yet, then the section's own lines in
/// order, each unchanged unless a setting's key matches its key. When the
/// section is missing, the file's lines are kept and the section follows.
#[verifier::spinoff_prover]
pub proof fn law_patch_keeps_the_rest(text: Seq<char>, section: Seq<char>, values: Seq<Setting>)
    ensures
        ({
            let lines = lines_of(text);
            let p = patched_lines(text, section, values);
            match first_header(lines, header_of(section)) {
                Some(s) => {
                    let e = s + 1 + first_opening(lines.skip(s + 1));
                    let after = p.skip(p.len() - (lines.len() - (s + 1)));
                    &&& p.len() >= lines.len()
                    &&& p.take(s + 1) == lines.take(s + 1)
                    &&& after.len() == lines.len() - (s + 1)
                    &&& forall|j: int|
                        0 <= j < after.len() && (s + 1 + j >= e || untouched_line(
                            lines[s + 1 + j],
                            values,
                        )) ==> #[trigger] after[j] == lines[s + 1 + j]
                },
                None => p.len() > lines.len() && p.take(lines.len() as int) == lines,
            }
        }),
{
    let lines0 = lines_of(text);
    let h = header_of(section);
    let (lines, s) = with_section(lines0, h);
    let e = s + 1 + first_opening(lines.skip(s + 1));
    lemma_first_opening_props(lines.skip(s + 1));
    lemma_first_header_props(lines0, h);
    assert(0 <= s < lines.len());
    let body0 = lines.subrange(s + 1, e);
    lemma_update_lines_untouched(body0, values);
    let (body, rest) = update_lines(body0, values);
    let r = setting_lines(rest);
    let p = patched_lines(text, section, values);
    assert(p == lines.take(s + 1) + r + body + lines.skip(e));
    match first_header(lines0, h) {
        Some(s0) => {
            assert(lines == lines0 && s == s0);
            let after = p.skip(p.len() - (lines.len() - (s + 1)));
            assert(after =~= body + lines.skip(e));
            assert forall|j: int|
                0 <= j < after.len() && (s + 1 + j >= e || untouched_line(lines[s + 1 + j], values))
                    implies #[trigger] after[j] == lines[s + 1 + j] by {
                if s + 1 + j < e {
                    assert(after[j] == body[j]);
                    assert(body0[j] == lines[s + 1 + j]);
                    if line_key(body0[j]) is Some {
                        let k = line_key(body0[j])->Some_0;
                        assert forall|t: Setting| values.contains(t) implies !eq_ignore_ascii_case(k, t.0) by {
                            let b = choose|b: int| 0 <= b < values.len() && values[b] == t;
                            assert(!eq_ignore_ascii_case(k, values[b].0));
                        }
                    }
                } else {
                    assert(after[j] == lines.skip(e)[s + 1 + j - e]);
                }
            }
        },
        None => {
            assert forall|j: int| 0 <= j < lines0.len() implies #[trigger] p[j] == lines0[j] by {
                assert(p[j] == lines[j]);
            }
            assert(p.take(lines0.len() as int) =~= lines0);
        },
    }
}

} // verus!

verus! {

/// Whether some line before `n` is keyed by `k`.
pub open spec fn keyed_before(q: Seq<Seq<char>>, n: int, k: Seq<char>) -> bool {
    exists|j: int| 0 <= j < n && keyed(#[trigger] q[j], k)
}

/// Whether each line that is the first keyed by a setting's key already
/// holds that setting (as `key = value`, with the line's own key).
pub open spec fn settled(q: Seq<Seq<char>>, values: Seq<Setting>) -> bool {
    forall|n: int, s: Setting|
        0 <= n < q.len() && values.contains(s) && #[trigger] keyed(q[n], s.0) && !keyed_before(q, n, s.0)
            ==> q[n] == setting_line(line_key(q[n])->Some_0, s.1)
}

/// Whether line `n` is the first line keyed by one of the settings.
spec fn holds_a_setting(q: Seq<Seq<char>>, values: Seq<Setting>, n: int) -> bool {
    exists|s: Setting| values.contains(s) && #[trigger] keyed(q[n], s.0) && !keyed_before(q, n, s.0)
}

/// Updating lines `q0` that are keyed as the settled lines `q` and differ
/// from them only where a setting is written gives `q`, and leaves over
/// exactly the settings that no line is keyed by.
#[verifier::spinoff_prover]
#[verifier::rlimit(30)]
proof fn lemma_update_settled(q0: Seq<Seq<char>>, q: Seq<Seq<char>>, values: Seq<Setting>)
    requires
        distinct_keys(values),
        settled(q, values),
        q0.len() == q.len(),
        forall|n: int| 0 <= n < q.len() ==> line_key(#[trigger] q0[n]) == line_key(q[n]),
        forall|n: int| 0 <= n < q.len() ==> #[trigger] q0[n] == q[n] || holds_a_setting(q, values, n),
    ensures
        update_lines(q0, values).0 == q,
        forall|s: Setting| #[trigger]
            update_lines(q0, values).1.contains(s) <==> (values.contains(s) && !keyed_before(
                q,
                q.len() as int,
                s.0,
            )),
    decreases q.len(),
{
    if q.len() > 0 {
        let front0 = q0.drop_last();
        let front = q.drop_last();
        let n = q.len() - 1;
        assert forall|m: int, s: Setting|
            0 <= m < front.len() && values.contains(s) && #[trigger] keyed(front[m], s.0)
                && !keyed_before(front, m, s.0) implies front[m] == setting_line(
            line_key(front[m])->Some_0,
            s.1,
        ) by {
            assert(front[m] == q[m]);
            if keyed_before(q, m, s.0) {
                let j = choose|j: int| 0 <= j < m && keyed(#[trigger] q[j], s.0);
                assert(front[j] == q[j]);
            }
        }
        assert forall|m: int| 0 <= m < front.len() implies line_key(#[trigger] front0[m]) == line_key(
            front[m],
        ) by {
            assert(front0[m] == q0[m] && front[m] == q[m]);
        }
        assert forall|m: int| 0 <= m < front.len() implies #[trigger] front0[m] == front[m]
            || holds_a_setting(front, values, m) by {
            assert(front0[m] == q0[m] && front[m] == q[m]);
            if q0[m] != q[m] {
                let s = choose|s: Setting|
                    values.contains(s) && #[trigger] keyed(q[m], s.0) && !keyed_before(q, m, s.0);
                assert(keyed(front[m], s.0));
                if keyed_before(front, m, s.0) {
                    let j = choose|j: int| 0 <= j < m && keyed(#[trigger] front[j], s.0);
                    assert(front[j] == q[j]);
                }
            }
        }
        lemma_update_settled(front0, front, values);
        let (pre, r1) = update_lines(front0, values);
        let l = q0.last();
        let (l2, r2) = update_line(l, r1);
        assert(update_lines(q0, values) == (pre.push(l2), r2));
        assert(q0[n] == l);
        assert(line_key(l) == line_key(q[n]));
        assert forall|s: Setting| keyed_before(q, n, s.0) == keyed_before(front, n, s.0) by {
            if keyed_before(q, n, s.0) {
                let j = choose|j: int| 0 <= j < n && keyed(#[trigger] q[j], s.0);
                assert(front[j] == q[j]);
            }
            if keyed_before(front, n, s.0) {
                let j = choose|j: int| 0 <= j < n && keyed(#[trigger] front[j], s.0);
                assert(front[j] == q[j]);
            }
        }
        match find_char(l, '=') {
            None => {
                assert(l2 == l && r2 == r1);
                assert(line_key(q[n]) is None);
                if l != q[n] {
                    let s = choose|s: Setting|
                        values.contains(s) && #[trigger] keyed(q[n], s.0) && !keyed_before(q, n, s.0);
                    assert(keyed(q[n], s.0));
                }
                assert forall|s: Setting| keyed_before(q, q.len() as int, s.0) == keyed_before(
                    q,
                    n,
                    s.0,
                ) by {
                    if keyed_before(q, q.len() as int, s.0) {
                        let j = choose|j: int| 0 <= j < q.len() && keyed(#[trigger] q[j], s.0);
                        assert(j != n);
                    }
                }
            },
            Some(i) => {
                let key = trim(l.take(i));
                assert(line_key(l) == Some(key));
                assert(line_key(q[n]) == Some(key));
                lemma_unmatched(r1, key);
                if exists|s: Setting| r1.contains(s) && eq_ignore_ascii_case(key, s.0) {
                    let s = choose|s: Setting| r1.contains(s) && eq_ignore_ascii_case(key, s.0);
                    assert(values.contains(s) && !keyed_before(front, n, s.0));
                    assert(keyed(q[n], s.0));
                    assert(q[n] == setting_line(key, s.1));
                    assert forall|t: Setting| r1.contains(t) && eq_ignore_ascii_case(key, t.0) implies t.1
                        == s.1 by {
                        lemma_eq_ignore_case_symmetric(key, s.0);
                        lemma_eq_ignore_case_transitive(s.0, key, t.0);
                        lemma_distinct_same(values, s, t);
                    }
                    lemma_last_match(r1, key, s.1);
                    assert(l2 == q[n]);
                } else {
                    assert forall|t: Setting| r1.contains(t) implies !eq_ignore_ascii_case(key, t.0) by {}
                    lemma_last_match_none(r1, key);
                    assert(l2 == l);
                    if l != q[n] {
                        let s = choose|s: Setting|
                            values.contains(s) && #[trigger] keyed(q[n], s.0) && !keyed_before(q, n, s.0);
                        assert(r1.contains(s));
                        assert(eq_ignore_ascii_case(key, s.0));
                    }
                }
                assert(l2 == q[n]);
                assert forall|s: Setting| r2.contains(s) <==> (values.contains(s) && !keyed_before(
                    q,
                    q.len() as int,
                    s.0,
                )) by {
                    if keyed_before(q, q.len() as int, s.0) && !keyed_before(q, n, s.0) {
                        let j = choose|j: int| 0 <= j < q.len() && keyed(#[trigger] q[j], s.0);
                        assert(j == n);
                    }
                    if keyed(q[n], s.0) {
                        assert(keyed_before(q, q.len() as int, s.0));
                    }
                }
            },
        }
        assert(pre.push(l2) =~= q);
    } else {
        assert forall|s: Setting| #[trigger]
            update_lines(q0, values).1.contains(s) <==> (values.contains(s) && !keyed_before(
                q,
                q.len() as int,
                s.0,
            )) by {}
    }
}

/// Two settings whose keys match are the same setting.
proof fn lemma_distinct_same(values: Seq<Setting>, s: Setting, t: Setting)
    requires
        distinct_keys(values),
        values.contains(s),
        values.contains(t),
        eq_ignore_ascii_case(s.0, t.0),
    ensures
        s == t,
{
    let a = choose|a: int| 0 <= a < values.len() && values[a] == s;
    let b = choose|b: int| 0 <= b < values.len() && values[b] == t;
    if a < b {
    } else if b < a {
        lemma_eq_ignore_case_symmetric(s.0, t.0);
    }
}

} // verus!

verus! {

/// Updating lines keeps their number, their keys, and keeps lines inside
/// a section from opening one.
proof fn lemma_update_lines_keys(lines: Seq<Seq<char>>, rem: Seq<Setting>)
    requires
        forall|j: int| 0 <= j < lines.len() ==> !opens_section(#[trigger] lines[j]),
    ensures
        update_lines(lines, rem).0.len() == lines.len(),
        forall|j: int|
            0 <= j < lines.len() ==> line_key(#[trigger] update_lines(lines, rem).0[j]) == line_key(
                lines[j],
            ) && !opens_section(update_lines(lines, rem).0[j]),
    decreases lines.len(),
{
    if lines.len() > 0 {
        let front = lines.drop_last();
        assert forall|j: int| 0 <= j < front.len() implies !opens_section(#[trigger] front[j]) by {
            assert(front[j] == lines[j]);
        }
        lemma_update_lines_keys(front, rem);
        let (pre, r1) = update_lines(front, rem);
        let l = lines.last();
        let (l2, r2) = update_line(l, r1);
        lemma_update_line_key(l, r1);
        assert forall|j: int| 0 <= j < lines.len() implies line_key(#[trigger] pre.push(l2)[j])
            == line_key(lines[j]) && !opens_section(pre.push(l2)[j]) by {
            if j < front.len() {
                assert(pre.push(l2)[j] == pre[j]);
                assert(front[j] == lines[j]);
            }
        }
    }
}

/// Whether a line ends in a carriage return.
pub open spec fn ends_with_cr(l: Seq<char>) -> bool {
    l.len() > 0 && l.last() == '\r'
}

/// The pieces of one patching run: the lines with the section present,
/// the header's index, the end of the section, its lines before and after
/// updating, and the settings left over.
pub open spec fn run_parts(text: Seq<char>, section: Seq<char>, values: Seq<Setting>) -> (
    Seq<Seq<char>>,
    int,
    int,
    Seq<Seq<char>>,
    Seq<Seq<char>>,
    Seq<Setting>,
) {
    let (lines, s) = with_section(lines_of(text), header_of(section));
    let e = s + 1 + first_opening(lines.skip(s + 1));
    let body0 = lines.subrange(s + 1, e);
    let (body, rest) = update_lines(body0, values);
    (lines, s, e, body0, body, rest)
}

/// The preconditions of the idempotence law.
pub open spec fn twice_ok(text: Seq<char>, section: Seq<char>, values: Seq<Setting>) -> bool {
    &&& forall|i: int|
        0 <= i < values.len() ==> plain_key(#[trigger] values[i].0) && no_newline(values[i].0)
            && no_newline(values[i].1)
    &&& distinct_keys(values)
    &&& no_newline(section)
    &&& forall|j: int| 0 <= j < lines_of(text).len() ==> !ends_with_cr(#[trigger] lines_of(text)[j])
}

/// Leaving settings out keeps their keys distinct.
proof fn lemma_unmatched_distinct(rem: Seq<Setting>, key: Seq<char>)
    requires
        distinct_keys(rem),
    ensures
        distinct_keys(unmatched(rem, key)),
    decreases rem.len(),
{
    if rem.len() > 0 {
        let p = rem.drop_last();
        assert forall|a: int, b: int| 0 <= a < b < p.len() implies !eq_ignore_ascii_case(
            p[a].0,
            p[b].0,
        ) by {
            assert(p[a] == rem[a] && p[b] == rem[b]);
        }
        lemma_unmatched_distinct(p, key);
        lemma_unmatched(p, key);
        let sub = unmatched(p, key);
        if !eq_ignore_ascii_case(key, rem.last().0) {
            let w = sub.push(rem.last());
            assert forall|a: int, b: int| 0 <= a < b < w.len() implies !eq_ignore_ascii_case(
                w[a].0,
                w[b].0,
            ) by {
                assert(w[a] == sub[a]);
                if b < sub.len() {
                    assert(w[b] == sub[b]);
                } else {
                    assert(sub.contains(sub[a]));
                    let c = choose|c: int| 0 <= c < p.len() && p[c] == sub[a];
                    assert(rem[c] == sub[a]);
                    assert(w[b] == rem[rem.len() - 1]);
                }
            }
        }
    }
}

/// Updating lines leaves over settings with distinct keys.
proof fn lemma_update_lines_distinct(lines: Seq<Seq<char>>, rem: Seq<Setting>)
    requires
        distinct_keys(rem),
    ensures
        distinct_keys(update_lines(lines, rem).1),
    decreases lines.len(),
{
    if lines.len() > 0 {
        lemma_update_lines_distinct(lines.drop_last(), rem);
        let r1 = update_lines(lines.drop_last(), rem).1;
        match find_char(lines.last(), '=') {
            None => {},
            Some(i) => {
                lemma_unmatched_distinct(r1, trim(lines.last().take(i)));
            },
        }
    }
}

/// A setting left over by updating lines keys none of them, and a line
/// that updating changed is the first keyed by one of the settings.
#[verifier::spinoff_prover]
proof fn lemma_update_lines_changed(lines: Seq<Seq<char>>, rem: Seq<Setting>)
    ensures
        forall|s: Setting| #[trigger]
            update_lines(lines, rem).1.contains(s) ==> first_keyed(lines, s.0) is None,
        forall|j: int|
            0 <= j < lines.len() && #[trigger] update_lines(lines, rem).0[j] != lines[j] ==> exists|
                s: Setting,
            | rem.contains(s) && first_keyed(lines, s.0) == Some(j),
    decreases lines.len(),
{
    if lines.len() > 0 {
        let front = lines.drop_last();
        lemma_update_lines_changed(front, rem);
        lemma_update_lines_rest(front, rem);
        lemma_update_lines_keys_len(front, rem);
        let (pre, r1) = update_lines(front, rem);
        let l = lines.last();
        let (l2, r2) = update_line(l, r1);
        assert(update_lines(lines, rem) == (pre.push(l2), r2));
        assert(lines.drop_last() == front);
        match find_char(l, '=') {
            None => {
                assert(l2 == l && r2 == r1);
                assert forall|s: Setting| r2.contains(s) implies first_keyed(lines, s.0) is None by {
                    assert(!keyed(l, s.0));
                }
            },
            Some(i) => {
                let key = trim(l.take(i));
                assert(line_key(l) == Some(key));
                lemma_unmatched(r1, key);
                assert forall|s: Setting| r2.contains(s) implies first_keyed(lines, s.0) is None by {
                    assert(r1.contains(s));
                    assert(!keyed(l, s.0));
                }
                if l2 != l {
                    if forall|s: Setting| r1.contains(s) ==> !eq_ignore_ascii_case(key, s.0) {
                        lemma_last_match_none(r1, key);
                    }
                    let w = choose|w: Setting| r1.contains(w) && eq_ignore_ascii_case(key, w.0);
                    assert(rem.contains(w));
                    assert(keyed(l, w.0));
                    assert(first_keyed(lines, w.0) == Some(lines.len() - 1));
                }
            },
        }
        assert forall|j: int| 0 <= j < lines.len() && #[trigger] pre.push(l2)[j] != lines[j] implies exists|
            s: Setting,
        | rem.contains(s) && first_keyed(lines, s.0) == Some(j) by {
            if j < front.len() {
                assert(pre.push(l2)[j] == pre[j]);
                assert(front[j] == lines[j]);
                let s = choose|s: Setting| rem.contains(s) && first_keyed(front, s.0) == Some(j);
                assert(first_keyed(lines, s.0) == Some(j));
            } else {
                assert(pre.push(l2)[j] == l2);
                let i = find_char(l, '=')->Some_0;
                let key = trim(l.take(i));
                let w = choose|w: Setting| r1.contains(w) && eq_ignore_ascii_case(key, w.0);
                assert(first_keyed(lines, w.0) == Some(j));
            }
        }
    }
}

/// The shape of the first run's lines: the header stays where it was, the
/// section now ends after the written settings and the updated lines, and
/// no line holds a line break; only written lines can end in a carriage
/// return.
#[verifier::spinoff_prover]
#[verifier::rlimit(60)]
proof fn lemma_first_run(text: Seq<char>, section: Seq<char>, values: Seq<Setting>)
    requires
        twice_ok(text, section, values),
    ensures
        ({
            let (lines, s, e, body0, body, rest) = run_parts(text, section, values);
            let p = patched_lines(text, section, values);
            let q = setting_lines(rest) + body;
            &&& 0 <= s < lines.len()
            &&& p == lines.take(s + 1) + q + lines.skip(e)
            &&& first_header(p, header_of(section)) == Some(s)
            &&& first_opening(p.skip(s + 1)) == q.len()
            &&& p.subrange(s + 1, s + 1 + q.len()) == q
            &&& forall|j: int| 0 <= j < p.len() ==> no_newline(#[trigger] p[j])
            &&& forall|j: int|
                0 <= j < p.len() && !(s + 1 <= j < s + 1 + q.len()) ==> !ends_with_cr(#[trigger] p[j])
            &&& forall|j: int|
                0 <= j < body0.len() ==> !opens_section(#[trigger] body0[j]) && !ends_with_cr(body0[j])
            &&& body.len() == body0.len()
            &&& forall|j: int| 0 <= j < body.len() ==> line_key(#[trigger] body[j]) == line_key(body0[j])
            &&& forall|i: int|
                0 <= i < rest.len() ==> values.contains(#[trigger] rest[i]) && line_key(
                    setting_lines(rest)[i],
                ) == Some(rest[i].0)
        }),
{
    reveal_strlit(" = ");
    let h = header_of(section);
    let lines0 = lines_of(text);
    let (lines, s, e, body0, body, rest) = run_parts(text, section, values);
    assert((lines, s) == with_section(lines0, h));

    lemma_first_header_props(lines0, h);
    assert(!is_ws('[') && !is_ws(']'));
    crate::text::lemma_trim_plain(h);
    assert(is_header_line(h, h));
    if first_header(lines0, h) is None {
        assert forall|j: int| 0 <= j < s implies !is_header_line(#[trigger] lines[j], h) by {
            if j < lines0.len() {
                assert(lines[j] == lines0[j]);
            } else {
                assert(lines[j] == Seq::<char>::empty());
                assert(trim(Seq::<char>::empty()) =~= Seq::<char>::empty());
            }
        }
        assert(lines[s] == h);
        lemma_first_header(lines, h, s);
    }
    lemma_first_header_props(lines, h);

    lemma_lines_of_no_newline(text);
    assert(no_newline(h)) by {
        assert forall|j: int| 0 <= j < h.len() implies h[j] != '\n' by {
            if 0 < j < h.len() - 1 {
                assert(h[j] == section[j - 1]);
            }
        }
    }
    assert forall|j: int| 0 <= j < lines.len() implies no_newline(#[trigger] lines[j]) && !ends_with_cr(
        lines[j],
    ) by {
        if j < lines0.len() {
            assert(lines[j] == lines0[j]);
        } else if first_header(lines0, h) is None {
            if j == lines.len() - 1 {
                assert(lines[j] == h);
            } else {
                assert(lines[j] == Seq::<char>::empty());
            }
        }
    }

    let tail = lines.skip(s + 1);
    let fo = first_opening(tail);
    lemma_first_opening_props(tail);
    assert forall|j: int| 0 <= j < body0.len() implies !opens_section(#[trigger] body0[j]) && no_newline(
        body0[j],
    ) && !ends_with_cr(body0[j]) by {
        assert(body0[j] == tail[j]);
        assert(body0[j] == lines[s + 1 + j]);
    }
    assert forall|t: Setting| values.contains(t) implies plain_key(t.0) && no_newline(t.0) && no_newline(
        t.1,
    ) by {
        let b = choose|b: int| 0 <= b < values.len() && values[b] == t;
        assert(plain_key(values[b].0));
    }
    lemma_update_lines_keys(body0, values);
    lemma_update_lines_no_newline(body0, values);
    let r = setting_lines(rest);
    assert forall|i: int| 0 <= i < r.len() implies line_key(#[trigger] r[i]) == Some(rest[i].0)
        && !opens_section(r[i]) && values.contains(rest[i]) && no_newline(r[i]) by {
        assert(rest.contains(rest[i]));
        let t = rest[i];
        assert(plain_key(t.0) && no_newline(t.0) && no_newline(t.1));
        lemma_setting_line_key(t.0, t.1);
        assert forall|j: int| 0 <= j < r[i].len() implies r[i][j] != '\n' by {
            if j < t.0.len() {
                assert(r[i][j] == t.0[j]);
            } else if j >= t.0.len() + 3 {
                assert(r[i][j] == t.1[j - t.0.len() - 3]);
            }
        }
    }

    let p = patched_lines(text, section, values);
    let q = r + body;
    assert(p == lines.take(s + 1) + q + lines.skip(e));
    assert forall|j: int| 0 <= j < p.len() implies no_newline(#[trigger] p[j]) && (!(s + 1 <= j < s + 1
        + q.len()) ==> !ends_with_cr(p[j])) by {
        let a = (s + 1) as int;
        if j < a {
            assert(p[j] == lines[j]);
        } else if j < a + r.len() {
            assert(p[j] == r[j - a]);
        } else if j < a + q.len() {
            assert(p[j] == body[j - a - r.len()]);
        } else {
            assert(p[j] == lines[e + (j - a - q.len())]);
        }
    }
    assert forall|j: int| 0 <= j <= s implies #[trigger] p[j] == lines[j] by {}
    lemma_first_header(p, h, s);
    let after = lines.skip(e);
    assert(after =~= tail.skip(fo));
    assert(first_opening(after) == 0) by {
        if fo < tail.len() {
            assert(after[0] == tail[fo]);
        }
    }
    assert forall|j: int| 0 <= j < q.len() implies !opens_section(#[trigger] q[j]) by {
        if j < r.len() {
            assert(q[j] == r[j]);
        } else {
            assert(q[j] == body[j - r.len()]);
        }
    }
    assert(p.skip(s + 1) =~= q + after);
    lemma_first_opening_concat(q, after);
    assert(p.subrange(s + 1, s + 1 + q.len()) =~= q);
}

/// After the first run, the section's lines are settled, every setting has
/// a line keyed by it, and a line that ends in a carriage return holds a
/// setting.
#[verifier::spinoff_prover]
#[verifier::rlimit(60)]
proof fn lemma_first_run_settled(text: Seq<char>, section: Seq<char>, values: Seq<Setting>)
    requires
        twice_ok(text, section, values),
    ensures
        ({
            let (lines, s, e, body0, body, rest) = run_parts(text, section, values);
            let q = setting_lines(rest) + body;
            &&& settled(q, values)
            &&& forall|t: Setting| values.contains(t) ==> keyed_before(q, q.len() as int, t.0)
            &&& forall|n: int|
                0 <= n < q.len() ==> !ends_with_cr(#[trigger] q[n]) || holds_a_setting(q, values, n)
        }),
{
    lemma_first_run(text, section, values);
    let (lines, s, e, body0, body, rest) = run_parts(text, section, values);
    let r = setting_lines(rest);
    let q = r + body;
    assert forall|n: int, t: Setting|
        0 <= n < q.len() && values.contains(t) && #[trigger] keyed(q[n], t.0) && !keyed_before(q, n, t.0)
            implies q[n] == setting_line(line_key(q[n])->Some_0, t.1) by {
        if n < r.len() {
            assert(q[n] == r[n]);
            assert(values.contains(rest[n]));
            lemma_distinct_same(values, rest[n], t);
        } else {
            let j = n - r.len();
            assert(q[n] == body[j]);
            assert(keyed(body0[j], t.0));
            assert forall|j2: int| 0 <= j2 < j implies !keyed(#[trigger] body0[j2], t.0) by {
                assert(q[r.len() + j2] == body[j2]);
                if keyed(body0[j2], t.0) {
                    assert(keyed(q[r.len() + j2], t.0));
                }
            }
            lemma_first_keyed(body0, t.0);
            assert(first_keyed(body0, t.0) == Some(j));
            assert forall|u: Setting| values.contains(u) && eq_ignore_ascii_case(u.0, t.0) implies u == (
            t.0,
            t.1,
            ) by {
                lemma_distinct_same(values, u, t);
            }
            lemma_update_lines(body0, values, t.0, t.1);
        }
    }
    assert forall|t: Setting| values.contains(t) implies keyed_before(q, q.len() as int, t.0) by {
        assert forall|u: Setting| values.contains(u) && eq_ignore_ascii_case(u.0, t.0) implies u == (
        t.0,
        t.1,
        ) by {
            lemma_distinct_same(values, u, t);
        }
        lemma_update_lines(body0, values, t.0, t.1);
        lemma_first_keyed(body0, t.0);
        match first_keyed(body0, t.0) {
            Some(j0) => {
                assert(q[r.len() + j0] == body[j0]);
                assert(keyed(q[r.len() + j0], t.0));
            },
            None => {
                let ix = choose|ix: int| 0 <= ix < rest.len() && rest[ix] == t;
                assert(q[ix] == r[ix]);
                assert(keyed(q[ix], t.0));
            },
        }
    }
    lemma_update_lines_changed(body0, values);
    lemma_update_lines_distinct(body0, values);
    assert forall|n: int| 0 <= n < q.len() implies !ends_with_cr(#[trigger] q[n]) || holds_a_setting(
        q,
        values,
        n,
    ) by {
        if n < r.len() {
            let t = rest[n];
            assert(q[n] == r[n]);
            assert(keyed(q[n], t.0));
            assert forall|j: int| 0 <= j < n implies !keyed(#[trigger] q[j], t.0) by {
                assert(q[j] == r[j]);
                assert(!eq_ignore_ascii_case(rest[j].0, rest[n].0));
            }
            assert(values.contains(t));
        } else {
            let j = n - r.len();
            assert(q[n] == body[j]);
            if body[j] != body0[j] {
                let t = choose|t: Setting| values.contains(t) && first_keyed(body0, t.0) == Some(j);
                lemma_first_keyed(body0, t.0);
                assert(keyed(q[n], t.0));
                assert forall|m: int| 0 <= m < n implies !keyed(#[trigger] q[m], t.0) by {
                    if m < r.len() {
                        assert(q[m] == r[m]);
                        if keyed(r[m], t.0) {
                            lemma_distinct_same(values, rest[m], t);
                            assert(rest.contains(rest[m]));
                        }
                    } else {
                        assert(q[m] == body[m - r.len()]);
                    }
                }
            }
        }
    }
}

/// Patching twice is patching once: a second run with the same settings
/// writes back exactly the text the first run wrote. This holds for keys
/// that read back as written (see [`plain_key`]), keys and values on one
/// line each, keys that are distinct, a section whose name is on one line,
/// and a file none of whose lines ends in a carriage return of its own (a
/// `\r\n` ending is fine).
#[verifier::spinoff_prover]
#[verifier::rlimit(60)]
pub proof fn law_patch_twice_is_once(text: Seq<char>, section: Seq<char>, values: Seq<Setting>)
    requires
        forall|i: int|
            0 <= i < values.len() ==> plain_key(#[trigger] values[i].0) && no_newline(values[i].0)
                && no_newline(values[i].1),
        distinct_keys(values),
        no_newline(section),
        forall|j: int| 0 <= j < lines_of(text).len() ==> !ends_with_cr(#[trigger] lines_of(text)[j]),
    ensures
        patch_ini_spec(patch_ini_spec(text, section, values), section, values) == patch_ini_spec(
            text,
            section,
            values,
        ),
{
    assert(twice_ok(text, section, values));
    lemma_first_run(text, section, values);
    lemma_first_run_settled(text, section, values);
    let h = header_of(section);
    let (lines, s, e, body0, body, rest) = run_parts(text, section, values);
    let p = patched_lines(text, section, values);
    let q = setting_lines(rest) + body;
    let e2 = s + 1 + q.len();

    // Reading the written text gives its lines back, less the carriage
    // returns that ended written values.
    let t1 = patch_ini_spec(text, section, values);
    let p2 = p.map_values(|l: Seq<char>| strip_cr(l));
    assert(p.len() > 0);
    lemma_lines_of_terminated(p);
    assert(lines_of(t1) == p2);
    assert forall|j: int| 0 <= j < p.len() implies trim(#[trigger] p2[j]) == trim(p[j]) && line_key(p2[j])
        == line_key(p[j]) by {
        lemma_strip_cr_line(p[j]);
    }
    lemma_first_header_same(p2, p, h);
    assert(with_section(p2, h) == (p2, s));
    let k2 = p2.skip(s + 1);
    let k = p.skip(s + 1);
    assert forall|j: int| 0 <= j < k2.len() implies trim(#[trigger] k2[j]) == trim(k[j]) by {
        assert(k2[j] == p2[s + 1 + j]);
        assert(k[j] == p[s + 1 + j]);
    }
    lemma_first_opening_same(k2, k);
    assert(s + 1 + first_opening(p2.skip(s + 1)) == e2);

    // The second run rewrites the written lines as they were, and writes no
    // new one.
    let q2 = p2.subrange(s + 1, e2);
    assert forall|n: int| 0 <= n < q.len() implies line_key(#[trigger] q2[n]) == line_key(q[n]) by {
        assert(q2[n] == p2[s + 1 + n]);
        assert(q[n] == p[s + 1 + n]);
    }
    assert forall|n: int| 0 <= n < q.len() implies #[trigger] q2[n] == q[n] || holds_a_setting(
        q,
        values,
        n,
    ) by {
        assert(q2[n] == p2[s + 1 + n]);
        assert(q[n] == p[s + 1 + n]);
    }
    lemma_update_settled(q2, q, values);
    let (q3, rest2) = update_lines(q2, values);
    if rest2.len() > 0 {
        assert(rest2.contains(rest2[0]));
    }
    assert(rest2 =~= Seq::<Setting>::empty());
    assert(setting_lines(rest2) =~= Seq::<Seq<char>>::empty());
    assert(patched_lines(t1, section, values) =~= p2.take(s + 1) + q + p2.skip(e2));
    assert(p2.take(s + 1) =~= p.take(s + 1));
    assert(p2.skip(e2) =~= p.skip(e2));
    assert(p.take(s + 1) + q + p.skip(e2) =~= p);
}

proof fn lemma_update_lines_keys_len(lines: Seq<Seq<char>>, rem: Seq<Setting>)
    ensures
        update_lines(lines, rem).0.len() == lines.len(),
    decreases lines.len(),
{
    if lines.len() > 0 {
        lemma_update_lines_keys_len(lines.drop_last(), rem);
    }
}

} // verus!
