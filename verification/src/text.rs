//! Character-level helpers shared by the parsers and formatters, and the few
//! std string operations the library relies on.

use vstd::prelude::*;

verus! {

/// `String::push`: appends one character.
#[verifier::external_body]
pub(crate) fn string_push(s: &mut String, c: char)
    ensures
        final(s)@ == old(s)@.push(c),
{
    s.push(c)
}

/// The texts of a list of strings.
pub open spec fn texts(v: Seq<String>) -> Seq<Seq<char>> {
    v.map_values(|s: String| s@)
}

/// `String::pop`: removes and returns the last character, if any.
#[verifier::external_body]
pub(crate) fn string_pop(s: &mut String) -> (r: Option<char>)
    ensures
        old(s)@.len() == 0 ==> r is None && final(s)@ == old(s)@,
        old(s)@.len() > 0 ==> r == Some(old(s)@.last()) && final(s)@ == old(s)@.drop_last(),
{
    s.pop()
}

} // verus!

verus! {

/// The characters of a string slice, in order.
pub fn chars_of(s: &str) -> (r: Vec<char>)
    ensures
        r@ == s@,
{
    let mut r: Vec<char> = Vec::new();
    proof {
        vstd::string::axiom_spec_iter(s);
    }
    for c in it: s.chars()
        invariant
            it.seq() == s@,
            r@ == s@.take(it.index() as int),
    {
        r.push(c);
        assert(r@ =~= s@.take(it.index() + 1));
    }
    assert(r@ =~= s@);
    r
}

/// Collecting characters into a `String`.
#[verifier::external_body]
pub(crate) fn string_of(c: &[char]) -> (r: String)
    ensures
        r@ == c@,
{
    c.iter().collect()
}

/// The Unicode `White_Space` property (what `char::is_whitespace` tests).
pub open spec fn is_ws(c: char) -> bool {
    ||| '\t' <= c && c <= '\r'
    ||| c == ' '
    ||| c == '\u{85}'
    ||| c == '\u{A0}'
    ||| c == '\u{1680}'
    ||| '\u{2000}' <= c && c <= '\u{200A}'
    ||| c == '\u{2028}'
    ||| c == '\u{2029}'
    ||| c == '\u{202F}'
    ||| c == '\u{205F}'
    ||| c == '\u{3000}'
}

/// Whether `c` is whitespace (see [`is_ws`]).
pub fn is_whitespace(c: char) -> (r: bool)
    ensures
        r == is_ws(c),
{
    ('\t' <= c && c <= '\r') || c == ' ' || c == '\u{85}' || c == '\u{A0}' || c == '\u{1680}' || (
    '\u{2000}' <= c && c <= '\u{200A}') || c == '\u{2028}' || c == '\u{2029}' || c == '\u{202F}'
        || c == '\u{205F}' || c == '\u{3000}'
}

/// `s` without its leading whitespace.
pub open spec fn trim_start(s: Seq<char>) -> Seq<char>
    decreases s.len(),
{
    if s.len() > 0 && is_ws(s[0]) {
        trim_start(s.drop_first())
    } else {
        s
    }
}

/// `s` without its trailing whitespace.
pub open spec fn trim_end(s: Seq<char>) -> Seq<char>
    decreases s.len(),
{
    if s.len() > 0 && is_ws(s.last()) {
        trim_end(s.drop_last())
    } else {
        s
    }
}

/// `s` without leading and trailing whitespace (`str::trim`).
pub open spec fn trim(s: Seq<char>) -> Seq<char> {
    trim_end(trim_start(s))
}

/// `s` trimmed (`str::trim`), as a vector.
pub fn trim_chars(s: &[char]) -> (r: Vec<char>)
    ensures
        r@ == trim(s@),
{
    let n = s.len();
    let mut i: usize = 0;
    assert(s@.skip(0) =~= s@);
    while i < n && is_whitespace(s[i])
        invariant
            i <= n,
            n == s@.len(),
            trim_start(s@) == trim_start(s@.skip(i as int)),
        decreases n - i,
    {
        assert(s@.skip(i as int).drop_first() =~= s@.skip(i + 1));
        i = i + 1;
    }
    let ghost a = s@.skip(i as int);
    assert(trim_start(a) == a);
    let mut j: usize = n;
    while j > i && is_whitespace(s[j - 1])
        invariant
            i <= j <= n,
            n == s@.len(),
            a == s@.skip(i as int),
            trim_end(a) == trim_end(s@.subrange(i as int, j as int)),
        decreases j,
    {
        assert(s@.subrange(i as int, j as int).drop_last() =~= s@.subrange(i as int, j - 1));
        j = j - 1;
    }
    assert(trim_end(s@.subrange(i as int, j as int)) == s@.subrange(i as int, j as int));
    let mut r: Vec<char> = Vec::new();
    let mut k = i;
    while k < j
        invariant
            i <= k <= j <= n,
            n == s@.len(),
            r@ == s@.subrange(i as int, k as int),
        decreases j - k,
    {
        r.push(s[k]);
        k = k + 1;
        assert(r@ =~= s@.subrange(i as int, k as int));
    }
    assert(a =~= s@.subrange(i as int, n as int));
    r
}

/// ASCII case-insensitive equality (`str::eq_ignore_ascii_case`).
pub open spec fn eq_ignore_ascii_case(a: Seq<char>, b: Seq<char>) -> bool {
    &&& a.len() == b.len()
    &&& forall|i: int| 0 <= i < a.len() ==> crate::osk::ascii_lower(#[trigger] a[i]) == crate::osk::ascii_lower(b[i])
}

fn lower(c: char) -> (r: char)
    ensures
        r == crate::osk::ascii_lower(c),
{
    if 'A' <= c && c <= 'Z' {
        let r = ((c as u32) + 32) as u8 as char;
        assert(r == (((c as u32) + 32) as char));
        r
    } else {
        c
    }
}

pub fn eq_ignore_case(a: &[char], b: &[char]) -> (r: bool)
    ensures
        r == eq_ignore_ascii_case(a@, b@),
{
    if a.len() != b.len() {
        return false;
    }
    let mut i: usize = 0;
    while i < a.len()
        invariant
            a@.len() == b@.len(),
            i <= a@.len(),
            forall|k: int| 0 <= k < i ==> crate::osk::ascii_lower(#[trigger] a@[k]) == crate::osk::ascii_lower(b@[k]),
        decreases a@.len() - i,
    {
        if lower(a[i]) != lower(b[i]) {
            return false;
        }
        i = i + 1;
    }
    true
}

/// The index of the first `c` in `s`, if any.
pub open spec fn find_char(s: Seq<char>, c: char) -> Option<int>
    decreases s.len(),
{
    if s.len() == 0 {
        None
    } else if s[0] == c {
        Some(0)
    } else {
        match find_char(s.drop_first(), c) {
            Some(i) => Some(i + 1),
            None => None,
        }
    }
}

/// [`find_char`] gives the first position holding `c`, or `None` when there
/// is none.
pub proof fn lemma_find_char(s: Seq<char>, c: char)
    ensures
        find_char(s, c) matches Some(i) ==> 0 <= i < s.len() && s[i] == c && forall|j: int|
            0 <= j < i ==> s[j] != c,
        find_char(s, c) is None ==> forall|j: int| 0 <= j < s.len() ==> s[j] != c,
    decreases s.len(),
{
    if s.len() > 0 && s[0] != c {
        lemma_find_char(s.drop_first(), c);
        assert forall|j: int| 1 <= j < s.len() implies s[j] == s.drop_first()[j - 1] by {}
    }
}

/// The first position of `c` found by scanning: it is where `c` first occurs.
pub proof fn lemma_find_char_at(s: Seq<char>, c: char, k: int)
    requires
        0 <= k < s.len(),
        s[k] == c,
        forall|j: int| 0 <= j < k ==> s[j] != c,
    ensures
        find_char(s, c) == Some(k),
{
    lemma_find_char(s, c);
    if let Some(i) = find_char(s, c) {
        assert(i == k);
    }
}

/// Scans for the first `c`.
pub fn find(s: &[char], c: char) -> (r: Option<usize>)
    ensures
        r matches Some(i) ==> find_char(s@, c) == Some(i as int),
        r is None ==> find_char(s@, c) is None,
{
    let mut i: usize = 0;
    while i < s.len()
        invariant
            i <= s@.len(),
            forall|j: int| 0 <= j < i ==> s@[j] != c,
        decreases s@.len() - i,
    {
        if s[i] == c {
            proof {
                lemma_find_char_at(s@, c, i as int);
            }
            return Some(i);
        }
        i = i + 1;
    }
    proof {
        lemma_find_char(s@, c);
    }
    None
}

/// Each line followed by a newline, concatenated.
pub open spec fn terminated(lines: Seq<Seq<char>>) -> Seq<char>
    decreases lines.len(),
{
    if lines.len() == 0 {
        seq![]
    } else {
        terminated(lines.drop_last()) + lines.last() + seq!['\n']
    }
}

/// `lines.join("\n") + "\n"`: with no lines this is a lone newline.
pub open spec fn join_lines_nl(lines: Seq<Seq<char>>) -> Seq<char> {
    if lines.len() == 0 {
        seq!['\n']
    } else {
        terminated(lines)
    }
}

/// Joins lines with newlines and ends the text with one.
pub fn join_with_newlines(lines: &Vec<Vec<char>>) -> (r: Vec<char>)
    ensures
        r@ == join_lines_nl(lines@.map_values(|l: Vec<char>| l@)),
{
    let ghost ls = lines@.map_values(|l: Vec<char>| l@);
    if lines.len() == 0 {
        let mut r = Vec::new();
        r.push('\n');
        assert(r@ =~= seq!['\n']);
        return r;
    }
    let mut r: Vec<char> = Vec::new();
    let mut i: usize = 0;
    while i < lines.len()
        invariant
            i <= lines@.len(),
            ls == lines@.map_values(|l: Vec<char>| l@),
            r@ == terminated(ls.take(i as int)),
        decreases lines@.len() - i,
    {
        let line = &lines[i];
        let mut k: usize = 0;
        let ghost before = r@;
        while k < line.len()
            invariant
                k <= line@.len(),
                r@ == before + line@.take(k as int),
            decreases line@.len() - k,
        {
            r.push(line[k]);
            k = k + 1;
            assert(r@ =~= before + line@.take(k as int));
        }
        r.push('\n');
        assert(ls.take(i + 1).drop_last() =~= ls.take(i as int));
        assert(line@.take(k as int) =~= line@);
        assert(r@ =~= terminated(ls.take(i + 1)));
        i = i + 1;
    }
    assert(ls.take(lines@.len() as int) =~= ls);
    r
}

} // verus!

verus! {

/// A line without the carriage return of a `\r\n` ending.
pub open spec fn strip_cr(l: Seq<char>) -> Seq<char> {
    if l.len() > 0 && l.last() == '\r' {
        l.drop_last()
    } else {
        l
    }
}

/// The lines of a text (`str::lines`): split at `\n` or `\r\n`, endings
/// dropped; a final line ending adds no empty line.
pub open spec fn lines_of(t: Seq<char>) -> Seq<Seq<char>>
    decreases t.len(),
{
    if t.len() == 0 {
        seq![]
    } else {
        match find_char(t, '\n') {
            Some(i) => {
                proof {
                    lemma_find_char(t, '\n');
                }
                seq![strip_cr(t.take(i))] + lines_of(t.skip(i + 1))
            },
            None => seq![t],
        }
    }
}

/// Splits a text into lines (see [`lines_of`]).
pub fn split_lines(t: &[char]) -> (r: Vec<Vec<char>>)
    ensures
        r@.map_values(|l: Vec<char>| l@) == lines_of(t@),
{
    let n = t.len();
    let mut out: Vec<Vec<char>> = Vec::new();
    let mut cur: Vec<char> = Vec::new();
    let mut pos: usize = 0;
    let mut i: usize = 0;
    assert(t@.skip(0) =~= t@);
    assert(out@.map_values(|l: Vec<char>| l@) + lines_of(t@) =~= lines_of(t@));
    while i < n
        invariant
            n == t@.len(),
            pos <= i <= n,
            cur@ == t@.subrange(pos as int, i as int),
            forall|k: int| pos <= k < i ==> t@[k] != '\n',
            lines_of(t@) == out@.map_values(|l: Vec<char>| l@) + lines_of(t@.skip(pos as int)),
        decreases n - i,
    {
        if t[i] == '\n' {
            let ghost rest = t@.skip(pos as int);
            proof {
                assert forall|j: int| 0 <= j < i - pos implies rest[j] != '\n' by {}
                lemma_find_char_at(rest, '\n', i - pos);
                assert(rest.take(i - pos) =~= cur@);
                assert(rest.skip(i - pos + 1) =~= t@.skip(i + 1));
            }
            let ghost old_out = out@.map_values(|l: Vec<char>| l@);
            let len = cur.len();
            if len > 0 && cur[len - 1] == '\r' {
                cur.pop();
            }
            assert(cur@ == strip_cr(rest.take(i - pos)));
            out.push(cur);
            assert(out@.map_values(|l: Vec<char>| l@) =~= old_out.push(strip_cr(rest.take(i - pos))));
            cur = Vec::new();
            pos = i + 1;
            i = i + 1;
            assert(cur@ =~= t@.subrange(pos as int, i as int));
        } else {
            cur.push(t[i]);
            i = i + 1;
            assert(cur@ =~= t@.subrange(pos as int, i as int));
        }
    }
    let ghost rest = t@.skip(pos as int);
    if pos < n {
        proof {
            assert forall|j: int| 0 <= j < rest.len() implies rest[j] != '\n' by {}
            lemma_find_char(rest, '\n');
            assert(rest =~= cur@);
        }
        let ghost old_out = out@.map_values(|l: Vec<char>| l@);
        out.push(cur);
        assert(out@.map_values(|l: Vec<char>| l@) =~= old_out + lines_of(rest));
    } else {
        assert(rest.len() == 0);
        assert(out@.map_values(|l: Vec<char>| l@) + lines_of(rest) =~= out@.map_values(|l: Vec<char>| l@));
    }
    out
}

} // verus!

verus! {

/// A vector holding the characters of a slice.
pub fn copy_chars(s: &[char]) -> (r: Vec<char>)
    ensures
        r@ == s@,
{
    let mut r: Vec<char> = Vec::new();
    let mut i: usize = 0;
    while i < s.len()
        invariant
            i <= s@.len(),
            r@ == s@.take(i as int),
        decreases s@.len() - i,
    {
        r.push(s[i]);
        i = i + 1;
        assert(r@ =~= s@.take(i as int));
    }
    assert(r@ =~= s@);
    r
}

/// Appends the characters of `s` to `out`.
pub fn append_chars(out: &mut Vec<char>, s: &[char])
    ensures
        final(out)@ == old(out)@ + s@,
{
    let mut i: usize = 0;
    while i < s.len()
        invariant
            i <= s@.len(),
            out@ == old(out)@ + s@.take(i as int),
        decreases s@.len() - i,
    {
        out.push(s[i]);
        i = i + 1;
        assert(out@ =~= old(out)@ + s@.take(i as int));
    }
    assert(s@.take(s@.len() as int) =~= s@);
}

} // verus!

verus! {

/// `String::push_str`: appends a string slice.
#[verifier::external_body]
pub(crate) fn push_str(s: &mut String, t: &str)
    ensures
        final(s)@ == old(s)@ + t@,
{
    s.push_str(t)
}

/// The decimal digit character of `d` (0..=9).
pub open spec fn digit_char(d: nat) -> char {
    (('0' as u32) + d) as char
}

/// The decimal representation of `n`, without leading zeros.
pub open spec fn decimal(n: nat) -> Seq<char>
    decreases n,
{
    if n < 10 {
        seq![digit_char(n)]
    } else {
        decimal(n / 10).push(digit_char(n % 10))
    }
}

fn digit(d: u128) -> (c: char)
    requires
        d < 10,
    ensures
        c == digit_char(d as nat),
{
    let c = ((d as u8) + 48) as char;
    assert(c == digit_char(d as nat));
    c
}

/// Appends the decimal representation of `n`.
pub fn push_decimal(s: &mut String, n: u128)
    ensures
        final(s)@ == old(s)@ + decimal(n as nat),
    decreases n,
{
    if n < 10 {
        crate::text::string_push(s, digit(n));
    } else {
        push_decimal(s, n / 10);
        crate::text::string_push(s, digit(n % 10));
        assert(final(s)@ =~= old(s)@ + decimal(n as nat));
    }
}

/// The decimal representation of `n` as a string.
pub fn decimal_string(n: u128) -> (s: String)
    ensures
        s@ == decimal(n as nat),
{
    let mut s = String::new();
    push_decimal(&mut s, n);
    assert(s@ =~= decimal(n as nat));
    s
}

} // verus!

verus! {

/// `s` with every leading `0x` removed (`trim_start_matches("0x")`).
pub open spec fn strip_hex_prefix(s: Seq<char>) -> Seq<char>
    decreases s.len(),
{
    if s.len() >= 2 && s[0] == '0' && s[1] == 'x' {
        strip_hex_prefix(s.skip(2))
    } else {
        s
    }
}

/// Removes every leading `0x`.
pub fn trim_hex_prefix(s: &[char]) -> (r: Vec<char>)
    ensures
        r@ == strip_hex_prefix(s@),
{
    let mut i: usize = 0;
    assert(s@.skip(0) =~= s@);
    while s.len() - i >= 2 && s[i] == '0' && s[i + 1] == 'x'
        invariant
            i <= s@.len(),
            strip_hex_prefix(s@) == strip_hex_prefix(s@.skip(i as int)),
        decreases s@.len() - i,
    {
        assert(s@.skip(i as int).skip(2) =~= s@.skip(i + 2));
        i = i + 2;
    }
    let mut r: Vec<char> = Vec::new();
    let mut k = i;
    while k < s.len()
        invariant
            i <= k <= s@.len(),
            r@ == s@.subrange(i as int, k as int),
        decreases s@.len() - k,
    {
        r.push(s[k]);
        k = k + 1;
        assert(r@ =~= s@.subrange(i as int, k as int));
    }
    assert(r@ =~= s@.skip(i as int));
    r
}

/// Whether `pat` occurs in `s` at position `i`.
pub open spec fn occurs_at(s: Seq<char>, pat: Seq<char>, i: int) -> bool {
    0 <= i && i + pat.len() <= s.len() && s.subrange(i, i + pat.len()) == pat
}

/// Whether `pat` occurs anywhere in `s` (`str::contains`).
pub open spec fn contains_seq(s: Seq<char>, pat: Seq<char>) -> bool {
    exists|i: int| occurs_at(s, pat, i)
}

/// The first position where `pat` occurs in `s`, if any.
pub open spec fn find_seq(s: Seq<char>, pat: Seq<char>) -> Option<int> {
    if contains_seq(s, pat) {
        Some(choose|i: int| occurs_at(s, pat, i) && forall|j: int| 0 <= j < i ==> !occurs_at(s, pat, j))
    } else {
        None
    }
}

fn matches_at(s: &[char], pat: &[char], i: usize) -> (r: bool)
    requires
        i + pat@.len() <= s@.len(),
    ensures
        r == occurs_at(s@, pat@, i as int),
{
    let n = s.len();
    let mut k: usize = 0;
    while k < pat.len()
        invariant
            k <= pat@.len(),
            n == s@.len(),
            i + pat@.len() <= s@.len(),
            forall|j: int| 0 <= j < k ==> s@[i + j] == pat@[j],
        decreases pat@.len() - k,
    {
        if s[i + k] != pat[k] {
            assert(s@.subrange(i as int, i + pat@.len())[k as int] != pat@[k as int]);
            return false;
        }
        k = k + 1;
    }
    assert(s@.subrange(i as int, i + pat@.len()) =~= pat@);
    true
}

/// The first position of `pat` in `s`.
pub fn find_pattern(s: &[char], pat: &[char]) -> (r: Option<usize>)
    ensures
        r matches Some(i) ==> find_seq(s@, pat@) == Some(i as int) && occurs_at(s@, pat@, i as int)
            && forall|j: int| 0 <= j < i ==> !occurs_at(s@, pat@, j),
        r is None ==> find_seq(s@, pat@) is None,
{
    if pat.len() > s.len() {
        assert(!contains_seq(s@, pat@));
        return None;
    }
    if pat.len() == 0 {
        assert(occurs_at(s@, pat@, 0)) by {
            assert(s@.subrange(0, 0) =~= pat@);
        }
        let ghost w = choose|k: int| occurs_at(s@, pat@, k) && forall|j: int| 0 <= j < k ==> !occurs_at(s@, pat@, j);
        assert(occurs_at(s@, pat@, w) && forall|j: int| 0 <= j < w ==> !occurs_at(s@, pat@, j));
        assert(w == 0);
        return Some(0);
    }
    let n = s.len();
    let last = n - pat.len();
    let mut i: usize = 0;
    while i <= last
        invariant
            n == s@.len(),
            pat@.len() <= s@.len(),
            pat@.len() > 0,
            last == s@.len() - pat@.len(),
            i <= last + 1,
            forall|j: int| 0 <= j < i ==> !occurs_at(s@, pat@, j),
        decreases last + 1 - i,
    {
        if matches_at(s, pat, i) {
            assert(occurs_at(s@, pat@, i as int));
            let ghost w = choose|k: int| occurs_at(s@, pat@, k) && forall|j: int| 0 <= j < k ==> !occurs_at(s@, pat@, j);
            assert(occurs_at(s@, pat@, w) && forall|j: int| 0 <= j < w ==> !occurs_at(s@, pat@, j));
            assert(w == i) by {
                if w < i {
                } else if w > i {
                }
            }
            return Some(i);
        }
        i = i + 1;
    }
    assert(!contains_seq(s@, pat@));
    None
}

/// Whether `pat` occurs in `s`.
pub fn contains(s: &[char], pat: &[char]) -> (r: bool)
    ensures
        r == contains_seq(s@, pat@),
{
    match find_pattern(s, pat) {
        Some(_) => true,
        None => false,
    }
}

/// What `str::to_lowercase` gives for a text (full Unicode lower-casing).
pub uninterp spec fn lowercase(s: Seq<char>) -> Seq<char>;

/// `str::to_lowercase`.
#[verifier::external_body]
pub(crate) fn to_lowercase(s: &str) -> (r: String)
    ensures
        r@ == lowercase(s@),
{
    s.to_lowercase()
}

} // verus!

verus! {

/// Whether `c` is an ASCII digit.
pub open spec fn is_digit(c: char) -> bool {
    '0' <= c && c <= '9'
}

/// The number an all-digit text spells.
pub open spec fn digits_value(d: Seq<char>) -> nat
    decreases d.len(),
{
    if d.len() == 0 {
        0
    } else {
        digits_value(d.drop_last()) * 10 + ((d.last() as u32) - ('0' as u32)) as nat
    }
}

/// The text after an optional leading `+`.
pub open spec fn unsigned_digits(s: Seq<char>) -> Seq<char> {
    if s.len() > 0 && s[0] == '+' {
        s.skip(1)
    } else {
        s
    }
}

/// Whether every character is an ASCII digit.
pub open spec fn all_digits(d: Seq<char>) -> bool {
    forall|i: int| 0 <= i < d.len() ==> is_digit(#[trigger] d[i])
}

/// `str::parse::<u32>`: an optional `+` and at least one ASCII digit, with a
/// value that fits in a `u32`.
pub open spec fn parse_u32_spec(s: Seq<char>) -> Option<u32> {
    let d = unsigned_digits(s);
    if d.len() == 0 || !all_digits(d) {
        None
    } else if digits_value(d) <= u32::MAX {
        Some(digits_value(d) as u32)
    } else {
        None
    }
}

/// A longer all-digit text spells at least as much as its prefix.
pub proof fn lemma_digits_value_grows(d: Seq<char>, i: int)
    requires
        0 <= i <= d.len(),
        forall|k: int| 0 <= k < d.len() ==> is_digit(#[trigger] d[k]),
    ensures
        digits_value(d) >= digits_value(d.take(i)),
    decreases d.len() - i,
{
    if i < d.len() {
        lemma_digits_value_grows(d, i + 1);
        let t = d.take(i + 1);
        assert(t.drop_last() =~= d.take(i));
        assert(digits_value(t) >= digits_value(t.drop_last()));
    } else {
        assert(d.take(i) =~= d);
    }
}

/// Parses a decimal `u32` (see [`parse_u32_spec`]).
pub fn parse_u32(s: &[char]) -> (r: Option<u32>)
    ensures
        r == parse_u32_spec(s@),
{
    let n = s.len();
    let start: usize = if n > 0 && s[0] == '+' {
        1
    } else {
        0
    };
    let ghost d = unsigned_digits(s@);
    assert(d =~= s@.skip(start as int));
    if start == n {
        return None;
    }
    let mut value: u64 = 0;
    let mut i = start;
    while i < n
        invariant
            start <= i <= n,
            n == s@.len(),
            d == s@.skip(start as int),
            d == unsigned_digits(s@),
            d.len() > 0,
            forall|k: int| start <= k < i ==> is_digit(#[trigger] s@[k]),
            value == digits_value(s@.subrange(start as int, i as int)),
            value <= u32::MAX,
        decreases n - i,
    {
        let c = s[i];
        assert(d[i - start] == s@[i as int]);
        if !('0' <= c && c <= '9') {
            assert(!is_digit(d[i - start]));
            assert(exists|k: int| 0 <= k < d.len() && !is_digit(#[trigger] d[k]));
            return None;
        }
        let dv = (c as u32 - '0' as u32) as u64;
        assert(s@.subrange(start as int, i + 1).drop_last() =~= s@.subrange(start as int, i as int));
        value = value * 10 + dv;
        assert(value == digits_value(s@.subrange(start as int, i + 1)));
        if value > u32::MAX as u64 {
            proof {
                let rest = d;
                if forall|k: int| 0 <= k < rest.len() ==> is_digit(#[trigger] rest[k]) {
                    lemma_digits_value_grows(rest, i + 1 - start);
                    assert(rest.take(i + 1 - start) =~= s@.subrange(start as int, i + 1));
                    assert(digits_value(rest) > u32::MAX);
                } else {
                    assert(exists|k: int| 0 <= k < rest.len() && !is_digit(#[trigger] rest[k]));
                }
            }
            return None;
        }
        i = i + 1;
    }
    assert(s@.subrange(start as int, n as int) =~= d);
    Some(value as u32)
}

} // verus!

verus! {

/// Whether two string slices hold the same text.
pub fn str_eq(a: &str, b: &str) -> (r: bool)
    ensures
        r == (a@ == b@),
{
    let x = chars_of(a);
    let y = chars_of(b);
    if x.len() != y.len() {
        return false;
    }
    let mut i: usize = 0;
    while i < x.len()
        invariant
            x@ == a@,
            y@ == b@,
            x@.len() == y@.len(),
            i <= x@.len(),
            forall|k: int| 0 <= k < i ==> x@[k] == y@[k],
        decreases x@.len() - i,
    {
        if x[i] != y[i] {
            assert(x@[i as int] != y@[i as int]);
            return false;
        }
        i = i + 1;
    }
    assert(x@ =~= y@);
    true
}

} // verus!

verus! {

/// `s` with `rep` before each character and at its end: what replacing
/// the empty pattern gives (it matches at every position).
pub open spec fn replace_empty(s: Seq<char>, rep: Seq<char>) -> Seq<char>
    decreases s.len(),
{
    if s.len() == 0 {
        rep
    } else {
        rep + seq![s[0]] + replace_empty(s.drop_first(), rep)
    }
}

/// `s` with every non-overlapping occurrence of `pat`, scanning left to
/// right, replaced by `rep` (`str::replace`); an empty pattern matches at
/// every position.
#[verifier::opaque]
pub open spec fn replace_all(s: Seq<char>, pat: Seq<char>, rep: Seq<char>) -> Seq<char>
    decreases s.len(),
{
    if pat.len() == 0 {
        replace_empty(s, rep)
    } else {
        match find_seq(s, pat) {
            None => s,
            Some(i) => {
                proof {
                    lemma_find_seq(s, pat);
                }
                s.take(i) + rep + replace_all(s.skip(i + pat.len()), pat, rep)
            },
        }
    }
}

/// [`find_seq`] finds an occurrence, the first one.
pub proof fn lemma_find_seq(s: Seq<char>, pat: Seq<char>)
    ensures
        find_seq(s, pat) matches Some(i) ==> occurs_at(s, pat, i) && forall|j: int|
            0 <= j < i ==> !occurs_at(s, pat, j),
{
    if contains_seq(s, pat) {
        let w = choose|i: int| occurs_at(s, pat, i);
        let mut k = w;
        // Take the least occurrence.
        assert(exists|i: int| occurs_at(s, pat, i) && forall|j: int| 0 <= j < i ==> !occurs_at(s, pat, j)) by {
            lemma_least_occurrence(s, pat, w);
        }
    }
}

proof fn lemma_least_occurrence(s: Seq<char>, pat: Seq<char>, w: int)
    requires
        occurs_at(s, pat, w),
    ensures
        exists|i: int| occurs_at(s, pat, i) && forall|j: int| 0 <= j < i ==> !occurs_at(s, pat, j),
    decreases w,
{
    if exists|j: int| 0 <= j < w && occurs_at(s, pat, j) {
        let j = choose|j: int| 0 <= j < w && occurs_at(s, pat, j);
        lemma_least_occurrence(s, pat, j);
    } else {
        assert(occurs_at(s, pat, w) && forall|j: int| 0 <= j < w ==> !occurs_at(s, pat, j));
    }
}

proof fn lemma_replace_step(s: Seq<char>, pat: Seq<char>, rep: Seq<char>)
    requires
        pat.len() > 0,
    ensures
        find_seq(s, pat) matches Some(i) ==> replace_all(s, pat, rep) == s.take(i) + rep + replace_all(
            s.skip(i + pat.len()),
            pat,
            rep,
        ),
        find_seq(s, pat) is None ==> replace_all(s, pat, rep) == s,
{
    reveal(replace_all);
}

/// Replacing the empty pattern.
proof fn lemma_replace_empty(s: Seq<char>, pat: Seq<char>, rep: Seq<char>)
    requires
        pat.len() == 0,
    ensures
        replace_all(s, pat, rep) == replace_empty(s, rep),
{
    reveal(replace_all);
}

/// Puts `rep` before each character of `s` and at its end (see
/// [`replace_empty`]).
fn replace_empty_pattern(s: &[char], rep: &[char]) -> (r: Vec<char>)
    ensures
        r@ == replace_empty(s@, rep@),
{
    let mut out: Vec<char> = Vec::new();
    let mut i: usize = 0;
    assert(s@.skip(0) =~= s@);
    while i < s.len()
        invariant
            i <= s@.len(),
            out@ + replace_empty(s@.skip(i as int), rep@) == replace_empty(s@, rep@),
        decreases s@.len() - i,
    {
        let ghost before = out@;
        append_chars(&mut out, rep);
        out.push(s[i]);
        assert(s@.skip(i as int).drop_first() =~= s@.skip(i + 1));
        assert(s@.skip(i as int)[0] == s@[i as int]);
        assert(out@ + replace_empty(s@.skip(i + 1), rep@) =~= before + replace_empty(
            s@.skip(i as int),
            rep@,
        ));
        i = i + 1;
    }
    assert(s@.skip(i as int) =~= Seq::<char>::empty());
    append_chars(&mut out, rep);
    out
}

/// One step of [`replace`]: copies `rest` up to the first occurrence of
/// `pat`, then `rep`, and gives the length consumed; or copies all of
/// `rest` when there is none.
fn replace_first(out: &mut Vec<char>, rest: &[char], pat: &[char], rep: &[char]) -> (r: Option<usize>)
    requires
        pat@.len() > 0,
    ensures
        r is None ==> final(out)@ == old(out)@ + replace_all(rest@, pat@, rep@),
        r matches Some(k) ==> 0 < k <= rest@.len() && final(out)@ + replace_all(
            rest@.skip(k as int),
            pat@,
            rep@,
        ) == old(out)@ + replace_all(rest@, pat@, rep@),
{
    proof {
        lemma_replace_step(rest@, pat@, rep@);
    }
    match find_pattern(rest, pat) {
        None => {
            append_chars(out, rest);
            None
        },
        Some(i) => {
            assert(occurs_at(rest@, pat@, i as int));
            let rl = rest.len();
            let pl = pat.len();
            assert(i + pl <= rl);
            let k: usize = i + pl;
            let ghost before = out@;
            append_chars(out, &rest[0..i]);
            append_chars(out, rep);
            assert(rest@.subrange(0, i as int) =~= rest@.take(i as int));
            let ghost tail = replace_all(rest@.skip(i + pat@.len()), pat@, rep@);
            assert(out@ + tail =~= before + (rest@.take(i as int) + rep@ + tail));
            Some(k)
        },
    }
}

/// Replaces every occurrence of a pattern (see [`replace_all`]).
pub fn replace(s: &[char], pat: &[char], rep: &[char]) -> (r: Vec<char>)
    ensures
        r@ == replace_all(s@, pat@, rep@),
{
    if pat.len() == 0 {
        proof {
            lemma_replace_empty(s@, pat@, rep@);
        }
        return replace_empty_pattern(s, rep);
    }
    let mut out: Vec<char> = Vec::new();
    let mut pos: usize = 0;
    let n = s.len();
    assert(s@.skip(0) =~= s@);
    loop
        invariant
            pos <= n,
            n == s@.len(),
            pat@.len() > 0,
            replace_all(s@, pat@, rep@) == out@ + replace_all(s@.skip(pos as int), pat@, rep@),
        decreases n - pos,
    {
        let rest = &s[pos..n];
        assert(rest@ =~= s@.skip(pos as int));
        match replace_first(&mut out, rest, pat, rep) {
            None => {
                return out;
            },
            Some(k) => {
                assert(rest@.skip(k as int) =~= s@.skip(pos + k));
                pos = pos + k;
            },
        }
    }
}

} // verus!

verus! {

/// The characters of `s` from `from` to `to`.
pub fn slice_chars(s: &[char], from: usize, to: usize) -> (r: Vec<char>)
    requires
        from <= to <= s@.len(),
    ensures
        r@ == s@.subrange(from as int, to as int),
{
    crate::text::copy_chars(&s[from..to])
}

/// Whether two character slices are equal.
pub fn seq_eq(a: &[char], b: &[char]) -> (r: bool)
    ensures
        r == (a@ == b@),
{
    if a.len() != b.len() {
        return false;
    }
    let mut i: usize = 0;
    while i < a.len()
        invariant
            a@.len() == b@.len(),
            i <= a@.len(),
            forall|k: int| 0 <= k < i ==> a@[k] == b@[k],
        decreases a@.len() - i,
    {
        if a[i] != b[i] {
            return false;
        }
        i = i + 1;
    }
    assert(a@ =~= b@);
    true
}

/// The rest of `l` after `prefix`, if `l` starts with it.
pub open spec fn strip_prefix_spec(l: Seq<char>, prefix: Seq<char>) -> Option<Seq<char>> {
    if l.len() >= prefix.len() && l.take(prefix.len() as int) == prefix {
        Some(l.skip(prefix.len() as int))
    } else {
        None
    }
}

/// Strips `prefix` from the front of `l` (see [`strip_prefix_spec`]).
pub fn strip_prefix(l: &[char], prefix: &[char]) -> (r: Option<Vec<char>>)
    ensures
        match r {
            Some(v) => strip_prefix_spec(l@, prefix@) == Some(v@),
            None => strip_prefix_spec(l@, prefix@) is None,
        },
{
    if l.len() < prefix.len() {
        return None;
    }
    let head = slice_chars(l, 0, prefix.len());
    assert(head@ =~= l@.take(prefix@.len() as int));
    if seq_eq(head.as_slice(), prefix) {
        let rest = slice_chars(l, prefix.len(), l.len());
        assert(rest@ =~= l@.skip(prefix@.len() as int));
        Some(rest)
    } else {
        None
    }
}

} // verus!

verus! {

/// Lexicographic order on texts, character by character (the order of
/// `String`'s `Ord`, since UTF-8 keeps the order of code points).
pub open spec fn text_le(a: Seq<char>, b: Seq<char>) -> bool
    decreases a.len(),
{
    if a.len() == 0 {
        true
    } else if b.len() == 0 {
        false
    } else if a[0] != b[0] {
        a[0] < b[0]
    } else {
        text_le(a.drop_first(), b.drop_first())
    }
}

/// Any two texts are ordered one way or the other.
pub proof fn lemma_text_le_total(a: Seq<char>, b: Seq<char>)
    ensures
        text_le(a, b) || text_le(b, a),
    decreases a.len(),
{
    if a.len() > 0 && b.len() > 0 && a[0] == b[0] {
        lemma_text_le_total(a.drop_first(), b.drop_first());
    }
}

/// The order is transitive.
pub proof fn lemma_text_le_transitive(a: Seq<char>, b: Seq<char>, c: Seq<char>)
    requires
        text_le(a, b),
        text_le(b, c),
    ensures
        text_le(a, c),
    decreases a.len(),
{
    if a.len() > 0 && b.len() > 0 && c.len() > 0 && a[0] == b[0] && b[0] == c[0] {
        lemma_text_le_transitive(a.drop_first(), b.drop_first(), c.drop_first());
    }
}

/// A common prefix does not change the order.
proof fn lemma_text_le_skip(a: Seq<char>, b: Seq<char>, i: int)
    requires
        0 <= i <= a.len(),
        i <= b.len(),
        a.take(i) == b.take(i),
    ensures
        text_le(a, b) == text_le(a.skip(i), b.skip(i)),
    decreases i,
{
    if i > 0 {
        assert(a[0] == a.take(i)[0]);
        assert(b[0] == b.take(i)[0]);
        assert(a.drop_first().take(i - 1) =~= a.take(i).drop_first());
        assert(b.drop_first().take(i - 1) =~= b.take(i).drop_first());
        lemma_text_le_skip(a.drop_first(), b.drop_first(), i - 1);
        assert(a.drop_first().skip(i - 1) =~= a.skip(i));
        assert(b.drop_first().skip(i - 1) =~= b.skip(i));
    } else {
        assert(a.skip(0) =~= a);
        assert(b.skip(0) =~= b);
    }
}

/// Whether `a` comes strictly before `b` (see [`text_le`]).
pub fn text_lt(a: &[char], b: &[char]) -> (r: bool)
    ensures
        r == !text_le(b@, a@),
{
    let mut i: usize = 0;
    while i < a.len() && i < b.len() && a[i] == b[i]
        invariant
            i <= a@.len(),
            i <= b@.len(),
            a@.take(i as int) == b@.take(i as int),
        decreases a@.len() - i,
    {
        assert(a@.take(i + 1) =~= a@.take(i as int).push(a@[i as int]));
        assert(b@.take(i + 1) =~= b@.take(i as int).push(b@[i as int]));
        i = i + 1;
    }
    proof {
        lemma_text_le_skip(b@, a@, i as int);
    }
    if i == b.len() {
        false
    } else if i == a.len() {
        true
    } else {
        a[i] < b[i]
    }
}

} // verus!

verus! {

/// What trimming the front keeps: a suffix, starting at a non-whitespace
/// character unless empty.
pub proof fn lemma_trim_start_suffix(s: Seq<char>)
    ensures
        trim_start(s).len() <= s.len(),
        trim_start(s) == s.skip(s.len() - trim_start(s).len()),
        trim_start(s).len() > 0 ==> !is_ws(trim_start(s)[0]),
    decreases s.len(),
{
    if s.len() > 0 && is_ws(s[0]) {
        lemma_trim_start_suffix(s.drop_first());
        assert(s.drop_first().skip(s.drop_first().len() - trim_start(s).len()) =~= s.skip(
            s.len() - trim_start(s).len(),
        ));
    } else {
        assert(s.skip(0) =~= s);
    }
}

/// What trimming the back keeps: a prefix, ending at a non-whitespace
/// character unless empty.
pub proof fn lemma_trim_end_prefix(s: Seq<char>)
    ensures
        trim_end(s).len() <= s.len(),
        trim_end(s) == s.take(trim_end(s).len() as int),
        trim_end(s).len() > 0 ==> !is_ws(trim_end(s).last()),
    decreases s.len(),
{
    if s.len() > 0 && is_ws(s.last()) {
        lemma_trim_end_prefix(s.drop_last());
        assert(s.drop_last().take(trim_end(s).len() as int) =~= s.take(trim_end(s).len() as int));
    } else {
        assert(s.take(s.len() as int) =~= s);
    }
}

/// Trimming the front of a concatenation.
pub proof fn lemma_trim_start_concat(a: Seq<char>, b: Seq<char>)
    ensures
        trim_start(a + b) == if trim_start(a).len() > 0 {
            trim_start(a) + b
        } else {
            trim_start(b)
        },
    decreases a.len(),
{
    if a.len() == 0 {
        assert(a + b =~= b);
    } else if is_ws(a[0]) {
        assert((a + b).drop_first() =~= a.drop_first() + b);
        lemma_trim_start_concat(a.drop_first(), b);
    } else {
        assert((a + b)[0] == a[0]);
    }
}

/// A text that starts and ends with non-whitespace is its own trim.
pub proof fn lemma_trim_plain(s: Seq<char>)
    requires
        s.len() > 0,
        !is_ws(s[0]),
        !is_ws(s.last()),
    ensures
        trim(s) == s,
{
}

/// The first character of a non-empty trim is the first one that trimming
/// the front leaves.
pub proof fn lemma_trim_first(s: Seq<char>)
    requires
        trim(s).len() > 0,
    ensures
        trim(s)[0] == trim_start(s)[0],
        !is_ws(trim(s)[0]),
        !is_ws(trim(s).last()),
{
    lemma_trim_end_prefix(trim_start(s));
    lemma_trim_start_suffix(s);
}

/// Trimming twice is trimming once.
pub proof fn lemma_trim_idempotent(s: Seq<char>)
    ensures
        trim(trim(s)) == trim(s),
{
    if trim(s).len() > 0 {
        lemma_trim_first(s);
        lemma_trim_plain(trim(s));
    }
}

/// A trimmed text followed by a space trims back to itself.
pub proof fn lemma_trim_space_after(k: Seq<char>)
    requires
        trim(k) == k,
    ensures
        trim(k + seq![' ']) == k,
{
    let t = k + seq![' '];
    if k.len() == 0 {
        assert(t =~= seq![' ']);
        assert(t[0] == ' ');
        assert(is_ws(t[0]));
        assert(t.drop_first() =~= Seq::<char>::empty());
        assert(trim_start(t.drop_first()) =~= Seq::<char>::empty());
        assert(trim_start(t) =~= Seq::<char>::empty());
    } else {
        lemma_trim_first(k);
        assert(trim_start(t) == t);
        assert(t.drop_last() =~= k);
        assert(trim_end(k) == k);
    }
}

/// A space followed by a trimmed text trims back to the text.
pub proof fn lemma_trim_space_before(v: Seq<char>)
    requires
        trim(v) == v,
    ensures
        trim(seq![' '] + v) == v,
{
    let t = seq![' '] + v;
    assert(t.drop_first() =~= v);
    if v.len() > 0 {
        lemma_trim_first(v);
        assert(trim_start(v) == v);
        assert(trim_end(v) == v);
    }
}

} // verus!

verus! {

/// Trimming the back keeps every position up to a non-whitespace one.
pub proof fn lemma_trim_end_keeps(s: Seq<char>, i: int)
    requires
        0 <= i < s.len(),
        !is_ws(s[i]),
    ensures
        trim_end(s).len() > i,
    decreases s.len(),
{
    if is_ws(s.last()) {
        assert(i < s.len() - 1);
        assert(s.drop_last()[i] == s[i]);
        lemma_trim_end_keeps(s.drop_last(), i);
    }
}

/// The characters of a trim are characters of the text.
pub proof fn lemma_trim_within(s: Seq<char>, c: char)
    requires
        forall|j: int| 0 <= j < s.len() ==> s[j] != c,
    ensures
        forall|j: int| 0 <= j < trim(s).len() ==> trim(s)[j] != c,
{
    lemma_trim_start_suffix(s);
    let t = trim_start(s);
    lemma_trim_end_prefix(t);
    assert forall|j: int| 0 <= j < trim(s).len() implies trim(s)[j] != c by {
        assert(trim(s)[j] == t[j]);
        assert(t[j] == s[s.len() - t.len() + j]);
    }
}

} // verus!

verus! {

/// ASCII case-insensitive equality is symmetric.
pub proof fn lemma_eq_ignore_case_symmetric(a: Seq<char>, b: Seq<char>)
    ensures
        eq_ignore_ascii_case(a, b) == eq_ignore_ascii_case(b, a),
{
    if eq_ignore_ascii_case(a, b) {
        assert forall|i: int| 0 <= i < b.len() implies crate::osk::ascii_lower(#[trigger] b[i])
            == crate::osk::ascii_lower(a[i]) by {
            assert(crate::osk::ascii_lower(a[i]) == crate::osk::ascii_lower(b[i]));
        }
    }
    if eq_ignore_ascii_case(b, a) {
        assert forall|i: int| 0 <= i < a.len() implies crate::osk::ascii_lower(#[trigger] a[i])
            == crate::osk::ascii_lower(b[i]) by {
            assert(crate::osk::ascii_lower(b[i]) == crate::osk::ascii_lower(a[i]));
        }
    }
}

/// ASCII case-insensitive equality is transitive.
pub proof fn lemma_eq_ignore_case_transitive(a: Seq<char>, b: Seq<char>, c: Seq<char>)
    requires
        eq_ignore_ascii_case(a, b),
        eq_ignore_ascii_case(b, c),
    ensures
        eq_ignore_ascii_case(a, c),
{
    assert forall|i: int| 0 <= i < a.len() implies crate::osk::ascii_lower(#[trigger] a[i])
        == crate::osk::ascii_lower(c[i]) by {
        assert(crate::osk::ascii_lower(a[i]) == crate::osk::ascii_lower(b[i]));
        assert(crate::osk::ascii_lower(b[i]) == crate::osk::ascii_lower(c[i]));
    }
}

} // verus!

verus! {

/// A decimal representation has at least one digit, and two when the
/// number is ten or more.
pub proof fn lemma_decimal_len(n: nat)
    ensures
        decimal(n).len() >= 1,
        n >= 10 ==> decimal(n).len() >= 2,
    decreases n,
{
    if n >= 10 {
        lemma_decimal_len(n / 10);
    }
}

/// Different numbers have different decimal representations.
pub proof fn lemma_decimal_injective(a: nat, b: nat)
    requires
        decimal(a) == decimal(b),
    ensures
        a == b,
    decreases a,
{
    lemma_decimal_len(a);
    lemma_decimal_len(b);
    if a < 10 && b < 10 {
        assert(decimal(a)[0] == digit_char(a));
        assert(decimal(b)[0] == digit_char(b));
    } else if a >= 10 && b >= 10 {
        let da = decimal(a / 10).push(digit_char(a % 10));
        let db = decimal(b / 10).push(digit_char(b % 10));
        assert(da.last() == db.last());
        assert(da.drop_last() =~= decimal(a / 10));
        assert(db.drop_last() =~= decimal(b / 10));
        lemma_decimal_injective(a / 10, b / 10);
        assert(a % 10 == b % 10);
    }
}

} // verus!

verus! {

/// Whether a text holds no line break.
pub open spec fn no_newline(s: Seq<char>) -> bool {
    forall|j: int| 0 <= j < s.len() ==> s[j] != '\n'
}

/// Reading a line that is followed by a newline.
pub proof fn lemma_lines_of_cons(l: Seq<char>, rest: Seq<char>)
    requires
        no_newline(l),
    ensures
        lines_of(l + seq!['\n'] + rest) == seq![strip_cr(l)] + lines_of(rest),
{
    let t = l + seq!['\n'] + rest;
    assert(t[l.len() as int] == '\n');
    assert forall|j: int| 0 <= j < l.len() implies t[j] != '\n' by {
        assert(t[j] == l[j]);
    }
    lemma_find_char_at(t, '\n', l.len() as int);
    assert(t.take(l.len() as int) =~= l);
    assert(t.skip(l.len() as int + 1) =~= rest);
}

/// The first line of a newline-terminated text comes first.
pub proof fn lemma_terminated_front(lines: Seq<Seq<char>>)
    requires
        lines.len() > 0,
    ensures
        terminated(lines) == lines[0] + seq!['\n'] + terminated(lines.drop_first()),
    decreases lines.len(),
{
    if lines.len() == 1 {
        assert(lines.drop_last() =~= Seq::<Seq<char>>::empty());
        assert(lines.drop_first() =~= Seq::<Seq<char>>::empty());
        assert(terminated(lines.drop_last()) == Seq::<char>::empty());
        assert(lines.last() == lines[0]);
        assert(terminated(lines.drop_first()) == Seq::<char>::empty());
        assert(terminated(lines) =~= lines[0] + seq!['\n']);
        assert(lines[0] + seq!['\n'] + terminated(lines.drop_first()) =~= lines[0] + seq!['\n']);
    } else {
        lemma_terminated_front(lines.drop_last());
        assert(lines.drop_last()[0] == lines[0]);
        assert(lines.drop_last().drop_first() =~= lines.drop_first().drop_last());
        assert(lines.drop_first().last() == lines.last());
        assert(terminated(lines) =~= lines[0] + seq!['\n'] + terminated(lines.drop_first()));
    }
}

/// Reading back a newline-terminated text gives its lines, each without a
/// final carriage return.
pub proof fn lemma_lines_of_terminated(lines: Seq<Seq<char>>)
    requires
        forall|j: int| 0 <= j < lines.len() ==> no_newline(#[trigger] lines[j]),
    ensures
        lines_of(terminated(lines)) == lines.map_values(|l: Seq<char>| strip_cr(l)),
    decreases lines.len(),
{
    if lines.len() == 0 {
        assert(lines.map_values(|l: Seq<char>| strip_cr(l)) =~= Seq::<Seq<char>>::empty());
    } else {
        lemma_terminated_front(lines);
        let t = lines.drop_first();
        assert forall|j: int| 0 <= j < t.len() implies no_newline(#[trigger] t[j]) by {
            assert(t[j] == lines[j + 1]);
        }
        lemma_lines_of_terminated(t);
        assert(no_newline(lines[0]));
        lemma_lines_of_cons(lines[0], terminated(t));
        assert(lines.map_values(|l: Seq<char>| strip_cr(l)) =~= seq![strip_cr(lines[0])]
            + t.map_values(|l: Seq<char>| strip_cr(l)));
    }
}

/// The lines of a text hold no line break.
pub proof fn lemma_lines_of_no_newline(t: Seq<char>)
    ensures
        forall|j: int| 0 <= j < lines_of(t).len() ==> no_newline(#[trigger] lines_of(t)[j]),
    decreases t.len(),
{
    if t.len() > 0 {
        lemma_find_char(t, '\n');
        match find_char(t, '\n') {
            Some(i) => {
                lemma_lines_of_no_newline(t.skip(i + 1));
                let first = strip_cr(t.take(i));
                assert(no_newline(first)) by {
                    assert forall|j: int| 0 <= j < first.len() implies first[j] != '\n' by {
                        assert(first[j] == t[j]);
                    }
                }
                let rest = lines_of(t.skip(i + 1));
                assert forall|j: int| 0 <= j < lines_of(t).len() implies no_newline(
                    #[trigger] lines_of(t)[j],
                ) by {
                    if j > 0 {
                        assert(lines_of(t)[j] == rest[j - 1]);
                    }
                }
            },
            None => {},
        }
    }
}

/// A carriage return at the end of a line is whitespace, so trimming drops
/// it anyway.
pub proof fn lemma_trim_strip_cr(l: Seq<char>)
    ensures
        trim(strip_cr(l)) == trim(l),
{
    if l.len() > 0 && l.last() == '\r' {
        let s = l.drop_last();
        assert(l =~= s + seq!['\r']);
        lemma_trim_start_concat(s, seq!['\r']);
        assert(is_ws('\r'));
        if trim_start(s).len() > 0 {
            let ts = trim_start(s);
            assert((ts + seq!['\r']).drop_last() =~= ts);
        } else {
            let cr = seq!['\r'];
            assert(cr[0] == '\r');
            assert(cr.drop_first() =~= Seq::<char>::empty());
            assert(trim_start(cr.drop_first()) =~= Seq::<char>::empty());
            assert(trim_start(cr) =~= Seq::<char>::empty());
            assert(trim_start(s) =~= Seq::<char>::empty());
        }
    }
}

} // verus!
