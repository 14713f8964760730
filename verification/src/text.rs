//! Shared text-scanning primitives: character predicates, whitespace and
//! substring scanning over `Seq<char>`, and their executable counterparts.
//!
//! Both tag scanners and both content parsers in this crate are specified in
//! terms of these functions.  Positions are character indices into the view of
//! the scanned text.

use vstd::prelude::*;

verus! {

/// The Unicode `White_Space` characters, as `char::is_whitespace` accepts them.
pub open spec fn is_ws_char(c: char) -> bool {
    let u = c as int;
    ||| u == 0x09
    ||| u == 0x0A
    ||| u == 0x0B
    ||| u == 0x0C
    ||| u == 0x0D
    ||| u == 0x20
    ||| u == 0x85
    ||| u == 0xA0
    ||| u == 0x1680
    ||| (0x2000 <= u && u <= 0x200A)
    ||| u == 0x2028
    ||| u == 0x2029
    ||| u == 0x202F
    ||| u == 0x205F
    ||| u == 0x3000
}

/// ASCII letters and digits; tag keywords must not be followed by one.
pub open spec fn is_ascii_alnum(c: char) -> bool {
    let u = c as int;
    ||| (0x30 <= u && u <= 0x39)
    ||| (0x41 <= u && u <= 0x5A)
    ||| (0x61 <= u && u <= 0x7A)
}

/// ASCII-lowercased code point, as `eq_ignore_ascii_case` compares them.
pub open spec fn ascii_lower(u: int) -> int {
    if 0x41 <= u && u <= 0x5A {
        u + 0x20
    } else {
        u
    }
}

/// Character equality up to ASCII case.
pub open spec fn ci_eq(a: char, b: char) -> bool {
    ascii_lower(a as int) == ascii_lower(b as int)
}

/// First position at or after `i` whose character is not whitespace.
pub open spec fn skip_ws(s: Seq<char>, i: int) -> int
    decreases s.len() - i,
{
    if 0 <= i && i < s.len() && is_ws_char(s[i]) {
        skip_ws(s, i + 1)
    } else {
        i
    }
}

/// Like [`skip_ws`], but a newline also stops the scan.
pub open spec fn skip_ws_nn(s: Seq<char>, i: int) -> int
    decreases s.len() - i,
{
    if 0 <= i && i < s.len() && is_ws_char(s[i]) && s[i] != '\n' {
        skip_ws_nn(s, i + 1)
    } else {
        i
    }
}

/// Position after an optional whitespace-control dash at `i`.
pub open spec fn skip_dash_at(s: Seq<char>, i: int) -> int {
    if 0 <= i && i < s.len() && s[i] == '-' {
        i + 1
    } else {
        i
    }
}

/// `t` occurs in `s` starting exactly at position `i`.
pub open spec fn match_at(s: Seq<char>, i: int, t: Seq<char>) -> bool {
    &&& 0 <= i
    &&& i + t.len() <= s.len()
    &&& forall|j: int| 0 <= j < t.len() ==> s[i + j] == t[j]
}

/// `t` occurs at `i` up to ASCII case.
pub open spec fn ci_match_at(s: Seq<char>, i: int, t: Seq<char>) -> bool {
    &&& 0 <= i
    &&& i + t.len() <= s.len()
    &&& forall|j: int| 0 <= j < t.len() ==> ci_eq(s[i + j], t[j])
}

/// The keyword `w` occurs at `i` (ASCII-case-insensitively) and ends on a word
/// boundary: the next character, if any, is not an ASCII letter or digit.
pub open spec fn peek_word(s: Seq<char>, i: int, w: Seq<char>) -> bool {
    &&& i < s.len()
    &&& ci_match_at(s, i, w)
    &&& (i + w.len() == s.len() || !is_ascii_alnum(s[i + w.len()]))
}

/// Position of the first occurrence of `t` at or after `i`, if any.
pub open spec fn find_from(s: Seq<char>, i: int, t: Seq<char>) -> Option<int>
    decreases s.len() - i,
{
    if i >= s.len() {
        None
    } else if match_at(s, i, t) {
        Some(i)
    } else {
        find_from(s, i + 1, t)
    }
}

/// Position of the first occurrence of any needle of `ts` at or after `i`.
pub open spec fn match_any(s: Seq<char>, i: int, ts: Seq<Seq<char>>) -> bool {
    exists|k: int| 0 <= k < ts.len() && match_at(s, i, ts[k])
}

pub open spec fn find_any(s: Seq<char>, i: int, ts: Seq<Seq<char>>) -> Option<int>
    decreases s.len() - i,
{
    if i >= s.len() {
        None
    } else if match_any(s, i, ts) {
        Some(i)
    } else {
        find_any(s, i + 1, ts)
    }
}

/// Number of non-overlapping occurrences of `t` at or after `i`, scanning left
/// to right, as `str::matches` counts them.
pub open spec fn count_occ(s: Seq<char>, i: int, t: Seq<char>) -> int
    decreases s.len() - i,
{
    if t.len() == 0 {
        0
    } else {
        match find_from(s, i, t) {
            None => 0,
            Some(p) => {
                proof {
                    lemma_find_from_bounds(s, i, t);
                }
                1 + count_occ(s, p + t.len(), t)
            },
        }
    }
}

/// First position at or before `i` that has no whitespace directly before it.
pub open spec fn rskip_ws(s: Seq<char>, i: int) -> int
    decreases i,
{
    if 0 < i && i <= s.len() && is_ws_char(s[i - 1]) {
        rskip_ws(s, i - 1)
    } else {
        i
    }
}

/// `s` with leading and trailing whitespace removed, as `str::trim` removes it.
pub open spec fn trim(s: Seq<char>) -> Seq<char> {
    let a = skip_ws(s, 0);
    let b = rskip_ws(s, s.len() as int);
    if a <= b {
        s.subrange(a, b)
    } else {
        Seq::empty()
    }
}

/// The two characters opening a Liquid tag.
pub open spec fn open_marker() -> Seq<char> {
    seq!['{', '%']
}

/// The tag keywords the scanners dispatch on.
pub open spec fn kw_hash() -> Seq<char> {
    seq!['#']
}

pub open spec fn kw_raw() -> Seq<char> {
    seq!['r', 'a', 'w']
}

pub open spec fn kw_comment() -> Seq<char> {
    seq!['c', 'o', 'm', 'm', 'e', 'n', 't']
}

pub open spec fn kw_doc() -> Seq<char> {
    seq!['d', 'o', 'c']
}

pub open spec fn kw_endraw() -> Seq<char> {
    seq!['e', 'n', 'd', 'r', 'a', 'w']
}

pub open spec fn kw_endcomment() -> Seq<char> {
    seq!['e', 'n', 'd', 'c', 'o', 'm', 'm', 'e', 'n', 't']
}

pub open spec fn kw_enddoc() -> Seq<char> {
    seq!['e', 'n', 'd', 'd', 'o', 'c']
}

/// Cursor behaviour of skipping to a tag close `%}`: whitespace and an
/// optional dash are consumed, then `%}` is expected.  The first component is
/// the reported position just after `%}` (`None` when the close is not right
/// there); the second is the cursor position afterwards.
pub open spec fn tag_close(s: Seq<char>, i: int) -> (Option<int>, int) {
    let k = skip_dash_at(s, skip_ws(s, i));
    if k < s.len() && s[k] == '%' {
        if k + 1 < s.len() && s[k + 1] == '}' {
            (Some(k + 2), k + 2)
        } else {
            (None, k + 1)
        }
    } else {
        (None, k)
    }
}

pub proof fn lemma_tag_close_bounds(s: Seq<char>, i: int)
    requires
        0 <= i <= s.len(),
    ensures
        i <= tag_close(s, i).1 <= s.len(),
        tag_close(s, i).0 is Some ==> tag_close(s, i).0->0 == tag_close(s, i).1,
{
    lemma_skip_ws_bounds(s, i);
}

/// Cursor behaviour of scanning for the next `{%` opener whose keyword is
/// `tag`: on success with `return_end`, the scan continues to the tag close;
/// without it, the reported position is the opener's `{` and the cursor rests
/// after the keyword's leading whitespace.
pub open spec fn find_tag(s: Seq<char>, i: int, tag: Seq<char>, return_end: bool) -> (Option<
    int,
>, int)
    decreases s.len() - i,
{
    match find_from(s, i, open_marker()) {
        None => (None, s.len() as int),
        Some(p) => {
            let w = skip_ws(s, skip_dash_at(s, p + 2));
            if peek_word(s, w, tag) {
                if return_end {
                    tag_close(s, w + tag.len())
                } else {
                    (Some(p), w)
                }
            } else {
                proof {
                    lemma_find_tag_step(s, i, p);
                }
                find_tag(s, w, tag, return_end)
            }
        },
    }
}

/// After a `{%` found at `p`, the cursor lands past `p + 1` and inside bounds.
pub proof fn lemma_find_tag_step(s: Seq<char>, i: int, p: int)
    requires
        find_from(s, i, open_marker()) == Some(p),
    ensures
        p + 2 <= skip_ws(s, skip_dash_at(s, p + 2)) <= s.len(),
        i < p + 2,
{
    lemma_find_from_ge(s, i, open_marker(), p);
    lemma_skip_ws_bounds(s, skip_dash_at(s, p + 2));
}

/// A found position is at or after the scan start, within bounds.
pub proof fn lemma_find_from_ge(s: Seq<char>, i: int, t: Seq<char>, p: int)
    requires
        find_from(s, i, t) == Some(p),
    ensures
        i <= p,
        0 <= p,
        p + t.len() <= s.len(),
        match_at(s, p, t),
    decreases s.len() - i,
{
    if i < s.len() && !match_at(s, i, t) {
        lemma_find_from_ge(s, i + 1, t, p);
    }
}

pub proof fn lemma_find_tag_bounds(s: Seq<char>, i: int, tag: Seq<char>, return_end: bool)
    requires
        0 <= i <= s.len(),
    ensures
        i <= find_tag(s, i, tag, return_end).1 <= s.len(),
        find_tag(s, i, tag, return_end).0 is Some ==> i <= find_tag(s, i, tag, return_end).0->0
            <= s.len(),
        find_tag(s, i, tag, return_end).0 is Some && !return_end ==> find_tag(
            s,
            i,
            tag,
            return_end,
        ).0->0 + 2 <= s.len(),
    decreases s.len() - i,
{
    match find_from(s, i, open_marker()) {
        None => {},
        Some(p) => {
            lemma_find_from_ge(s, i, open_marker(), p);
            let w = skip_ws(s, skip_dash_at(s, p + 2));
            lemma_skip_ws_bounds(s, skip_dash_at(s, p + 2));
            if peek_word(s, w, tag) {
                if return_end {
                    lemma_tag_close_bounds(s, w + tag.len() as int);
                }
            } else {
                lemma_find_tag_bounds(s, w, tag, return_end);
            }
        },
    }
}

// ---------------------------------------------------------------------------
// Line and column reckoning
// ---------------------------------------------------------------------------

/// Number of newline characters in `s`.
pub open spec fn count_nl(s: Seq<char>) -> int
    decreases s.len(),
{
    if s.len() == 0 {
        0
    } else {
        count_nl(s.drop_last()) + if s.last() == '\n' {
            1int
        } else {
            0int
        }
    }
}

/// Position just after the last newline strictly before `off` (0 if none).
pub open spec fn line_start_of(s: Seq<char>, off: int) -> int
    decreases off,
{
    if off <= 0 {
        0
    } else if s[off - 1] == '\n' {
        off
    } else {
        line_start_of(s, off - 1)
    }
}

/// Width of `c` in its UTF-8 encoding.
pub open spec fn utf8_len_char(c: char) -> int {
    let u = c as int;
    if u < 0x80 {
        1
    } else if u < 0x800 {
        2
    } else if u < 0x10000 {
        3
    } else {
        4
    }
}

/// Addition clamped to `usize`, as the saturating operations compute it.
pub open spec fn sat_add_usize(a: int, b: int) -> int {
    if a + b > usize::MAX {
        usize::MAX as int
    } else {
        a + b
    }
}

/// Byte length of `s`, accumulated left to right with clamping at each step.
pub open spec fn sat_byte_len(s: Seq<char>) -> int
    decreases s.len(),
{
    if s.len() == 0 {
        0
    } else {
        sat_add_usize(sat_byte_len(s.drop_last()), utf8_len_char(s.last()))
    }
}

/// One-based line number of the offset `off` into `s`.
pub open spec fn line_of(s: Seq<char>, off: int) -> int {
    sat_add_usize(count_nl(s.take(off)), 1)
}

/// One-based byte column of the offset `off` into `s`.
pub open spec fn col_of(s: Seq<char>, off: int) -> int {
    sat_add_usize(sat_byte_len(s.subrange(line_start_of(s, off), off)), 1)
}

pub proof fn lemma_line_start_bounds(s: Seq<char>, off: int)
    requires
        0 <= off,
    ensures
        0 <= line_start_of(s, off) <= off,
    decreases off,
{
    if off > 0 && s[off - 1] != '\n' {
        lemma_line_start_bounds(s, off - 1);
    }
}

// ---------------------------------------------------------------------------
// Line splitting and indentation stripping
// ---------------------------------------------------------------------------

pub open spec fn nl_seq() -> Seq<char> {
    seq!['\n']
}

/// A line with a trailing carriage return removed, as `str::lines` yields it.
pub open spec fn strip_cr(l: Seq<char>) -> Seq<char> {
    if l.len() > 0 && l.last() == '\r' {
        l.drop_last()
    } else {
        l
    }
}

/// The lines of `s`, as `str::lines` yields them.
pub open spec fn split_lines(s: Seq<char>) -> Seq<Seq<char>>
    decreases s.len(),
{
    if s.len() == 0 {
        Seq::empty()
    } else {
        match find_from(s, 0, nl_seq()) {
            None => seq![strip_cr(s)],
            Some(p) => {
                proof {
                    lemma_find_from_bounds(s, 0, nl_seq());
                }
                seq![strip_cr(s.take(p))] + split_lines(s.skip(p + 1))
            },
        }
    }
}

/// `l` with its leading whitespace run removed, at most `cap` characters.
pub open spec fn dedent_line(l: Seq<char>, cap: int) -> Seq<char> {
    let run = skip_ws(l, 0);
    let k = if run <= cap {
        run
    } else {
        cap
    };
    l.skip(k)
}

/// Lines joined with single newlines.
pub open spec fn join_lines(ls: Seq<Seq<char>>) -> Seq<char>
    decreases ls.len(),
{
    if ls.len() == 0 {
        Seq::empty()
    } else if ls.len() == 1 {
        ls[0]
    } else {
        ls[0] + nl_seq() + join_lines(ls.drop_first())
    }
}

/// Each line stripped of its leading whitespace run, at most `cap` characters.
pub open spec fn dedent_all(ls: Seq<Seq<char>>, cap: int) -> Seq<Seq<char>> {
    Seq::new(ls.len(), |k: int| dedent_line(ls[k], cap))
}

/// The text of one `@example` section: when the region starts with
/// whitespace, its trimmed lines are each stripped of up to one less than
/// that leading run's length of indentation; otherwise it is just trimmed.
pub open spec fn example_text(region: Seq<char>) -> Seq<char> {
    let level = skip_ws(region, 0);
    if level > 0 {
        join_lines(dedent_all(split_lines(trim(region)), level - 1))
    } else {
        trim(region)
    }
}

// ---------------------------------------------------------------------------
// Bounds and characterization lemmas
// ---------------------------------------------------------------------------

pub proof fn lemma_skip_ws_bounds(s: Seq<char>, i: int)
    requires
        0 <= i <= s.len(),
    ensures
        i <= skip_ws(s, i) <= s.len(),
        forall|j: int| i <= j < skip_ws(s, i) ==> is_ws_char(s[j]),
        skip_ws(s, i) < s.len() ==> !is_ws_char(s[skip_ws(s, i)]),
    decreases s.len() - i,
{
    if i < s.len() && is_ws_char(s[i]) {
        lemma_skip_ws_bounds(s, i + 1);
    }
}

pub proof fn lemma_skip_ws_nn_bounds(s: Seq<char>, i: int)
    requires
        0 <= i <= s.len(),
    ensures
        i <= skip_ws_nn(s, i) <= s.len(),
        forall|j: int| i <= j < skip_ws_nn(s, i) ==> is_ws_char(s[j]) && s[j] != '\n',
        skip_ws_nn(s, i) < s.len() ==> (!is_ws_char(s[skip_ws_nn(s, i)]) || s[skip_ws_nn(s, i)]
            == '\n'),
    decreases s.len() - i,
{
    if i < s.len() && is_ws_char(s[i]) && s[i] != '\n' {
        lemma_skip_ws_nn_bounds(s, i + 1);
    }
}

pub proof fn lemma_rskip_ws_bounds(s: Seq<char>, i: int)
    requires
        0 <= i <= s.len(),
    ensures
        0 <= rskip_ws(s, i) <= i,
        forall|j: int| rskip_ws(s, i) <= j < i ==> is_ws_char(s[j]),
        rskip_ws(s, i) > 0 ==> !is_ws_char(s[rskip_ws(s, i) - 1]),
    decreases i,
{
    if 0 < i && is_ws_char(s[i - 1]) {
        lemma_rskip_ws_bounds(s, i - 1);
    }
}

pub proof fn lemma_find_from_bounds(s: Seq<char>, i: int, t: Seq<char>)
    requires
        i <= s.len(),
    ensures
        match find_from(s, i, t) {
            Some(p) => i <= p && p + t.len() <= s.len() && match_at(s, p, t) && forall|j: int|
                i <= j < p ==> !match_at(s, j, t),
            None => t.len() >= 1 ==> forall|j: int| i <= j ==> !match_at(s, j, t),
        },
    decreases s.len() - i,
{
    if i >= s.len() {
        if t.len() >= 1 {
            assert forall|j: int| i <= j implies !match_at(s, j, t) by {
                if match_at(s, j, t) {
                    assert(j + t.len() <= s.len());
                }
            }
        }
    } else if match_at(s, i, t) {
    } else {
        lemma_find_from_bounds(s, i + 1, t);
    }
}

pub proof fn lemma_find_any_bounds(s: Seq<char>, i: int, ts: Seq<Seq<char>>)
    requires
        i <= s.len(),
    ensures
        match find_any(s, i, ts) {
            Some(p) => i <= p && p <= s.len() && match_any(s, p, ts) && forall|j: int|
                i <= j < p ==> !match_any(s, j, ts),
            None => (forall|k: int| 0 <= k < ts.len() ==> ts[k].len() >= 1) ==> forall|j: int|
                i <= j ==> !match_any(s, j, ts),
        },
    decreases s.len() - i,
{
    if i >= s.len() {
        if forall|k: int| 0 <= k < ts.len() ==> ts[k].len() >= 1 {
            assert forall|j: int| i <= j implies !match_any(s, j, ts) by {
                if match_any(s, j, ts) {
                    let k = choose|k: int| 0 <= k < ts.len() && match_at(s, j, ts[k]);
                    assert(j + ts[k].len() <= s.len());
                }
            }
        }
    } else if match_any(s, i, ts) {
    } else {
        lemma_find_any_bounds(s, i + 1, ts);
    }
}

/// A scan that starts no later than an occurrence finds one no later than it.
pub proof fn lemma_find_from_finds(s: Seq<char>, i: int, t: Seq<char>, m: int)
    requires
        0 <= i <= m,
        t.len() >= 1,
        match_at(s, m, t),
    ensures
        find_from(s, i, t) is Some,
        i <= find_from(s, i, t)->0 <= m,
    decreases m - i,
{
    assert(m + t.len() <= s.len());
    if i < m && !match_at(s, i, t) {
        lemma_find_from_finds(s, i + 1, t, m);
    }
}

// ---------------------------------------------------------------------------
// Executable counterparts
// ---------------------------------------------------------------------------

/// Decides `char::is_whitespace` by the `White_Space` list itself.
pub fn ws_char(c: char) -> (b: bool)
    ensures
        b == is_ws_char(c),
{
    let u = c as u32;
    u == 0x09 || u == 0x0A || u == 0x0B || u == 0x0C || u == 0x0D || u == 0x20 || u == 0x85 || u
        == 0xA0 || u == 0x1680 || (0x2000 <= u && u <= 0x200A) || u == 0x2028 || u == 0x2029 || u
        == 0x202F || u == 0x205F || u == 0x3000
}

pub fn alnum_char(c: char) -> (b: bool)
    ensures
        b == is_ascii_alnum(c),
{
    let u = c as u32;
    (0x30 <= u && u <= 0x39) || (0x41 <= u && u <= 0x5A) || (0x61 <= u && u <= 0x7A)
}

pub fn ci_eq_char(a: char, b: char) -> (r: bool)
    ensures
        r == ci_eq(a, b),
{
    let ua = a as u32;
    let ub = b as u32;
    let la = if 0x41 <= ua && ua <= 0x5A {
        ua + 0x20
    } else {
        ua
    };
    let lb = if 0x41 <= ub && ub <= 0x5A {
        ub + 0x20
    } else {
        ub
    };
    la == lb
}

pub fn exec_skip_ws(s: &str, i: usize) -> (r: usize)
    requires
        i <= s@.len(),
    ensures
        r as int == skip_ws(s@, i as int),
        i <= r <= s@.len(),
    decreases s@.len() - i,
{
    let n = s.unicode_len();
    if i < n {
        let c = s.get_char(i);
        if ws_char(c) {
            return exec_skip_ws(s, i + 1);
        }
    }
    i
}

pub fn exec_skip_ws_nn(s: &str, i: usize) -> (r: usize)
    requires
        i <= s@.len(),
    ensures
        r as int == skip_ws_nn(s@, i as int),
        i <= r <= s@.len(),
    decreases s@.len() - i,
{
    let n = s.unicode_len();
    if i < n {
        let c = s.get_char(i);
        if ws_char(c) && c != '\n' {
            return exec_skip_ws_nn(s, i + 1);
        }
    }
    i
}

pub fn exec_skip_dash(s: &str, i: usize) -> (r: usize)
    requires
        i <= s@.len(),
    ensures
        r as int == skip_dash_at(s@, i as int),
        i <= r <= s@.len(),
{
    let n = s.unicode_len();
    if i < n && s.get_char(i) == '-' {
        i + 1
    } else {
        i
    }
}

/// Compares the window of `s` at `i` with `t`, character for character.
pub fn exec_match_at(s: &str, i: usize, t: &str) -> (b: bool)
    requires
        i <= s@.len(),
    ensures
        b == match_at(s@, i as int, t@),
{
    let n = s.unicode_len();
    let m = t.unicode_len();
    if m > n - i {
        return false;
    }
    let mut j: usize = 0;
    while j < m
        invariant
            0 <= j <= m,
            m as int == t@.len(),
            n as int == s@.len(),
            i + m <= n,
            i <= s@.len(),
            forall|k: int| 0 <= k < j ==> s@[i + k] == t@[k],
        decreases m - j,
    {
        if s.get_char(i + j) != t.get_char(j) {
            return false;
        }
        j += 1;
    }
    true
}

pub fn exec_ci_match_at(s: &str, i: usize, t: &str) -> (b: bool)
    requires
        i <= s@.len(),
    ensures
        b == ci_match_at(s@, i as int, t@),
{
    let n = s.unicode_len();
    let m = t.unicode_len();
    if m > n - i {
        return false;
    }
    let mut j: usize = 0;
    while j < m
        invariant
            0 <= j <= m,
            m as int == t@.len(),
            n as int == s@.len(),
            i + m <= n,
            i <= s@.len(),
            forall|k: int| 0 <= k < j ==> ci_eq(s@[i + k], t@[k]),
        decreases m - j,
    {
        if !ci_eq_char(s.get_char(i + j), t.get_char(j)) {
            return false;
        }
        j += 1;
    }
    true
}

pub fn exec_peek_word(s: &str, i: usize, w: &str) -> (b: bool)
    requires
        i <= s@.len(),
    ensures
        b == peek_word(s@, i as int, w@),
{
    let n = s.unicode_len();
    if i >= n {
        return false;
    }
    if !exec_ci_match_at(s, i, w) {
        return false;
    }
    let m = w.unicode_len();
    if i + m == n {
        true
    } else {
        !alnum_char(s.get_char(i + m))
    }
}

pub fn exec_find_from(s: &str, i: usize, t: &str) -> (r: Option<usize>)
    requires
        i <= s@.len(),
    ensures
        match r {
            Some(p) => find_from(s@, i as int, t@) == Some(p as int) && i <= p <= s@.len(),
            None => find_from(s@, i as int, t@) is None,
        },
    decreases s@.len() - i,
{
    let n = s.unicode_len();
    if i >= n {
        None
    } else if exec_match_at(s, i, t) {
        Some(i)
    } else {
        exec_find_from(s, i + 1, t)
    }
}

/// The views of a sequence of borrowed string slices.
pub open spec fn strs_views(q: Seq<&str>) -> Seq<Seq<char>> {
    Seq::new(q.len(), |k: int| q[k]@)
}

pub fn exec_match_any(s: &str, i: usize, ts: &[&str]) -> (b: bool)
    requires
        i <= s@.len(),
    ensures
        b == match_any(s@, i as int, strs_views(ts@)),
{
    let mut k: usize = 0;
    while k < ts.len()
        invariant
            0 <= k <= ts@.len(),
            i <= s@.len(),
            forall|j: int| 0 <= j < k ==> !match_at(s@, i as int, strs_views(ts@)[j]),
        decreases ts@.len() - k,
    {
        if exec_match_at(s, i, ts[k]) {
            assert(match_at(s@, i as int, strs_views(ts@)[k as int]));
            return true;
        }
        k += 1;
    }
    false
}

pub fn exec_find_any(s: &str, i: usize, ts: &[&str]) -> (r: Option<usize>)
    requires
        i <= s@.len(),
    ensures
        match r {
            Some(p) => find_any(s@, i as int, strs_views(ts@)) == Some(p as int) && i <= p
                <= s@.len(),
            None => find_any(s@, i as int, strs_views(ts@)) is None,
        },
    decreases s@.len() - i,
{
    let n = s.unicode_len();
    if i >= n {
        None
    } else if exec_match_any(s, i, ts) {
        Some(i)
    } else {
        exec_find_any(s, i + 1, ts)
    }
}

pub fn exec_count_occ(s: &str, i: usize, t: &str) -> (r: usize)
    requires
        i <= s@.len(),
        t@.len() >= 1,
    ensures
        r as int == count_occ(s@, i as int, t@),
    decreases s@.len() - i,
{
    match exec_find_from(s, i, t) {
        None => 0,
        Some(p) => {
            let n = s.unicode_len();
            proof {
                lemma_find_from_bounds(s@, i as int, t@);
            }
            let m = t.unicode_len();
            let rest = exec_count_occ(s, p + m, t);
            proof {
                lemma_count_occ_bound(s@, p as int + m as int, t@);
            }
            rest + 1
        },
    }
}

/// The occurrence count is bounded by the remaining length.
pub proof fn lemma_count_occ_bound(s: Seq<char>, i: int, t: Seq<char>)
    requires
        0 <= i,
        t.len() >= 1,
    ensures
        0 <= count_occ(s, i, t) <= (if i <= s.len() {
            s.len() - i
        } else {
            0
        }),
    decreases s.len() - i,
{
    if i <= s.len() {
        match find_from(s, i, t) {
            None => {},
            Some(p) => {
                lemma_find_from_bounds(s, i, t);
                lemma_count_occ_bound(s, p + t.len(), t);
            },
        }
    } else {
        assert(find_from(s, i, t) is None);
    }
}

pub fn exec_trim<'a>(s: &'a str) -> (r: &'a str)
    ensures
        r@ == trim(s@),
{
    let n = s.unicode_len();
    let a = exec_skip_ws(s, 0);
    let b = exec_rskip_ws(s, n);
    proof {
        lemma_skip_ws_bounds(s@, 0);
        lemma_rskip_ws_bounds(s@, s@.len() as int);
    }
    if a <= b {
        s.substring_char(a, b)
    } else {
        let empty = "";
        proof {
            reveal_strlit("");
            assert(empty@ =~= trim(s@));
        }
        empty
    }
}

pub fn exec_rskip_ws(s: &str, i: usize) -> (r: usize)
    requires
        i <= s@.len(),
    ensures
        r as int == rskip_ws(s@, i as int),
        r <= i,
    decreases i,
{
    if i > 0 {
        let c = s.get_char(i - 1);
        if ws_char(c) {
            return exec_rskip_ws(s, i - 1);
        }
    }
    i
}

/// `c` occurs somewhere in `s`.
pub open spec fn contains_char(s: Seq<char>, c: char) -> bool {
    exists|j: int| 0 <= j < s.len() && s[j] == c
}

pub fn exec_contains_char(s: &str, c: char) -> (r: bool)
    ensures
        r == contains_char(s@, c),
{
    let n = s.unicode_len();
    let mut j: usize = 0;
    while j < n
        invariant
            0 <= j <= n,
            n as int == s@.len(),
            forall|k: int| 0 <= k < j ==> s@[k] != c,
        decreases n - j,
    {
        if s.get_char(j) == c {
            return true;
        }
        j += 1;
    }
    false
}

/// String slice equality, decided character by character.
pub fn str_eq_str(a: &str, b: &str) -> (r: bool)
    ensures
        r == (a@ == b@),
{
    let n = a.unicode_len();
    let m = b.unicode_len();
    if n != m {
        return false;
    }
    let mut j: usize = 0;
    while j < n
        invariant
            0 <= j <= n,
            n as int == a@.len(),
            n as int == b@.len(),
            forall|k: int| 0 <= k < j ==> a@[k] == b@[k],
        decreases n - j,
    {
        if a.get_char(j) != b.get_char(j) {
            return false;
        }
        j += 1;
    }
    proof {
        assert(a@ =~= b@);
    }
    true
}

fn exec_strip_cr<'a>(l: &'a str) -> (r: &'a str)
    ensures
        r@ == strip_cr(l@),
{
    let n = l.unicode_len();
    if n > 0 && l.get_char(n - 1) == '\r' {
        let r = l.substring_char(0, n - 1);
        proof {
            assert(r@ =~= strip_cr(l@));
        }
        r
    } else {
        l
    }
}

fn exec_dedent_line<'a>(l: &'a str, cap: usize) -> (r: &'a str)
    ensures
        r@ == dedent_line(l@, cap as int),
{
    let run = exec_skip_ws(l, 0);
    let k = if run <= cap {
        run
    } else {
        cap
    };
    let n = l.unicode_len();
    let r = l.substring_char(k, n);
    proof {
        assert(r@ =~= dedent_line(l@, cap as int));
    }
    r
}

/// Joins the dedented lines of `rem` with newlines.
fn exec_dedent_join(rem: &str, cap: usize) -> (r: String)
    ensures
        r@ == join_lines(dedent_all(split_lines(rem@), cap as int)),
    decreases rem@.len(),
{
    let n = rem.unicode_len();
    if n == 0 {
        let r = String::new();
        proof {
            assert(split_lines(rem@) =~= Seq::<Seq<char>>::empty());
            assert(dedent_all(split_lines(rem@), cap as int) =~= Seq::<Seq<char>>::empty());
        }
        return r;
    }
    proof {
        reveal_strlit("\n");
        assert("\n"@ =~= nl_seq());
    }
    match exec_find_from(rem, 0, "\n") {
        None => {
            let line = exec_strip_cr(rem);
            let ded = exec_dedent_line(line, cap);
            proof {
                let ls = dedent_all(split_lines(rem@), cap as int);
                assert(split_lines(rem@) =~= seq![strip_cr(rem@)]);
                assert(ls.len() == 1);
                assert(ls[0] == dedent_line(strip_cr(rem@), cap as int));
            }
            String::from_str(ded)
        },
        Some(p) => {
            proof {
                lemma_find_from_bounds(rem@, 0, nl_seq());
            }
            let first = rem.substring_char(0, p);
            let line = exec_strip_cr(first);
            let ded = exec_dedent_line(line, cap);
            let rest = rem.substring_char(p + 1, n);
            proof {
                assert(first@ =~= rem@.take(p as int));
                assert(rest@ =~= rem@.skip(p + 1));
                assert(split_lines(rem@) =~= seq![strip_cr(rem@.take(p as int))] + split_lines(
                    rem@.skip(p + 1),
                ));
            }
            let mut out = String::from_str(ded);
            if rest.unicode_len() == 0 {
                proof {
                    let ls = dedent_all(split_lines(rem@), cap as int);
                    assert(split_lines(rem@.skip(p + 1)) =~= Seq::<Seq<char>>::empty());
                    assert(ls.len() == 1);
                    assert(ls[0] == dedent_line(strip_cr(rem@.take(p as int)), cap as int));
                }
                out
            } else {
                let rest_out = exec_dedent_join(rest, cap);
                out.append("\n");
                out.append(rest_out.as_str());
                proof {
                    let ls = dedent_all(split_lines(rem@), cap as int);
                    let tail = dedent_all(split_lines(rem@.skip(p + 1)), cap as int);
                    assert(split_lines(rem@.skip(p + 1)).len() >= 1);
                    assert(ls.len() >= 2);
                    assert(ls[0] == dedent_line(strip_cr(rem@.take(p as int)), cap as int));
                    assert(ls.drop_first() =~= tail);
                    assert(out@ =~= ls[0] + nl_seq() + join_lines(tail));
                }
                out
            }
        },
    }
}

/// Relies on `String::push`: appends the given character to the end of the
/// string.
#[verifier::external_body]
pub fn push_char(s: &mut String, c: char)
    ensures
        final(s)@ == old(s)@.push(c),
{
    s.push(c);
}

/// Builds the text of one `@example` section.
pub fn exec_example_text(region: &str) -> (r: String)
    ensures
        r@ == example_text(region@),
{
    let level = exec_skip_ws(region, 0);
    let trimmed = exec_trim(region);
    if level > 0 {
        exec_dedent_join(trimmed, level - 1)
    } else {
        String::from_str(trimmed)
    }
}

} // verus!
