//! Recognising and emphasizing TODO markers in a line of text.
//!
//! A marker is the keyword `TODO` (canonical form) or `todo` (informal form)
//! standing in a comment. Two comment shapes are recognised:
//!
//! - a line comment: one of the leaders `//`, `#`, `--`, `%`, then optional
//!   whitespace, then the keyword followed by `:`, by whitespace and a dash,
//!   or by a single whitespace character;
//! - a block comment: one of the openers `*`, `=begin`, `{-`, `<!--`, then
//!   arbitrary text, then the keyword with its separator (for the dash
//!   separator a whitespace character must follow), then arbitrary text, then
//!   one of the closers `*`, `=end`, `-}`, `-->`.
//!
//! `matches` decides whether a line holds a marker in either form.
//! `emphasize` rewrites a line, replacing each marker occurrence (the whole
//! matched span) by a styled token: every canonical occurrence first, then
//! every informal occurrence in the result. A replaced span begins at the
//! leftmost position where a match starts; the line form is preferred over the
//! block form, and the block form consumes the shortest span (the first
//! keyword after the opener, then the first closer after the keyword).

use crate::style::style_marker;
use vstd::prelude::*;

verus! {

/// The canonical marker keyword, `TODO`.
pub open spec fn canonical_kw() -> Seq<char> {
    seq!['T', 'O', 'D', 'O']
}

/// The informal marker keyword, `todo`.
pub open spec fn informal_kw() -> Seq<char> {
    seq!['t', 'o', 'd', 'o']
}

pub open spec fn kw_of(upper: bool) -> Seq<char> {
    if upper {
        canonical_kw()
    } else {
        informal_kw()
    }
}

/// Whitespace as the marker separators understand it.
pub open spec fn is_marker_ws(c: char) -> bool {
    c == ' ' || c == '\t' || c == '\n' || c == '\r' || c == '\u{b}' || c == '\u{c}'
}

/// Length of the line-comment leader standing at `i`, or 0 when none does.
pub open spec fn leader_len(s: Seq<char>, i: int) -> int {
    if 0 <= i && i + 2 <= s.len() && s[i] == '/' && s[i + 1] == '/' {
        2
    } else if 0 <= i && i + 1 <= s.len() && s[i] == '#' {
        1
    } else if 0 <= i && i + 2 <= s.len() && s[i] == '-' && s[i + 1] == '-' {
        2
    } else if 0 <= i && i + 1 <= s.len() && s[i] == '%' {
        1
    } else {
        0
    }
}

/// Length of the block-comment opener standing at `i`, or 0 when none does.
pub open spec fn opener_len(s: Seq<char>, i: int) -> int {
    if 0 <= i && i + 1 <= s.len() && s[i] == '*' {
        1
    } else if 0 <= i && i + 6 <= s.len() && s[i] == '=' && s[i + 1] == 'b' && s[i + 2] == 'e'
        && s[i + 3] == 'g' && s[i + 4] == 'i' && s[i + 5] == 'n' {
        6
    } else if 0 <= i && i + 2 <= s.len() && s[i] == '{' && s[i + 1] == '-' {
        2
    } else if 0 <= i && i + 4 <= s.len() && s[i] == '<' && s[i + 1] == '!' && s[i + 2] == '-' && s[i
        + 3] == '-' {
        4
    } else {
        0
    }
}

/// Length of the block-comment closer standing at `i`, or 0 when none does.
pub open spec fn closer_len(s: Seq<char>, i: int) -> int {
    if 0 <= i && i + 1 <= s.len() && s[i] == '*' {
        1
    } else if 0 <= i && i + 4 <= s.len() && s[i] == '=' && s[i + 1] == 'e' && s[i + 2] == 'n' && s[i
        + 3] == 'd' {
        4
    } else if 0 <= i && i + 2 <= s.len() && s[i] == '-' && s[i + 1] == '}' {
        2
    } else if 0 <= i && i + 3 <= s.len() && s[i] == '-' && s[i + 1] == '-' && s[i + 2] == '>' {
        3
    } else {
        0
    }
}

/// First index at or after `i` whose character is not whitespace (or the end).
pub open spec fn ws_run_end(s: Seq<char>, i: int) -> int
    decreases s.len() - i when 0 <= i <= s.len()
{
    if i < s.len() && is_marker_ws(s[i]) {
        ws_run_end(s, i + 1)
    } else {
        i
    }
}

/// The keyword `kw` stands at `i`.
pub open spec fn kw_at(s: Seq<char>, i: int, kw: Seq<char>) -> bool {
    &&& 0 <= i
    &&& i + kw.len() <= s.len()
    &&& forall|j: int| 0 <= j < kw.len() ==> s[i + j] == kw[j]
}

/// End (exclusive) of a keyword-with-separator occurrence starting at `p`, in
/// the line-comment form: `kw:`, `kw` + whitespace + `-`, or `kw` + one
/// whitespace character.
pub open spec fn marker_a_end(s: Seq<char>, p: int, kw: Seq<char>) -> Option<int> {
    if !kw_at(s, p, kw) {
        None
    } else {
        let e = p + kw.len();
        if e < s.len() && s[e] == ':' {
            Some(e + 1)
        } else {
            let q = ws_run_end(s, e);
            if q < s.len() && s[q] == '-' {
                Some(q + 1)
            } else if e < s.len() && is_marker_ws(s[e]) {
                Some(e + 1)
            } else {
                None
            }
        }
    }
}

/// End (exclusive) of a keyword-with-separator occurrence starting at `p`, in
/// the block-comment form: as `marker_a_end`, except that the dash separator
/// must itself be followed by a whitespace character.
pub open spec fn marker_b_end(s: Seq<char>, p: int, kw: Seq<char>) -> Option<int> {
    if !kw_at(s, p, kw) {
        None
    } else {
        let e = p + kw.len();
        if e < s.len() && s[e] == ':' {
            Some(e + 1)
        } else {
            let q = ws_run_end(s, e);
            if q + 1 < s.len() && s[q] == '-' && is_marker_ws(s[q + 1]) {
                Some(q + 2)
            } else if e < s.len() && is_marker_ws(s[e]) {
                Some(e + 1)
            } else {
                None
            }
        }
    }
}

/// End (exclusive) of a line-comment-form match starting at `i`: a leader,
/// optional whitespace, then the keyword with its separator.
pub open spec fn line_match_end(s: Seq<char>, i: int, kw: Seq<char>) -> Option<int> {
    let l = leader_len(s, i);
    if l > 0 {
        marker_a_end(s, ws_run_end(s, i + l), kw)
    } else {
        None
    }
}

/// Some line-comment-form match stands somewhere in `s`.
pub open spec fn line_match_exists(s: Seq<char>, kw: Seq<char>) -> bool {
    exists|i: int| line_match_end(s, i, kw) is Some
}

/// Some block-comment-form match stands in `s`: an opener, then the keyword
/// with its separator, then a closer, in that order.
pub open spec fn block_match_exists(s: Seq<char>, kw: Seq<char>) -> bool {
    exists|a: int, b: int, d: int|
        {
            &&& #[trigger] opener_len(s, a) > 0
            &&& a + opener_len(s, a) <= b
            &&& #[trigger] marker_b_end(s, b, kw) is Some
            &&& marker_b_end(s, b, kw)->Some_0 <= d
            &&& #[trigger] closer_len(s, d) > 0
        }
}

/// `s` holds a marker with keyword `kw`, in either comment form.
pub open spec fn marker_match(s: Seq<char>, kw: Seq<char>) -> bool {
    line_match_exists(s, kw) || block_match_exists(s, kw)
}

/// `s` holds a marker in the canonical or the informal form.
pub open spec fn contains_marker(s: Seq<char>) -> bool {
    marker_match(s, canonical_kw()) || marker_match(s, informal_kw())
}

/// `tok` holds `body` as one contiguous substring.
pub open spec fn wraps(tok: Seq<char>, body: Seq<char>) -> bool {
    exists|pre: Seq<char>, suf: Seq<char>| tok == #[trigger] (pre + body + suf)
}

fn is_ws_char(c: char) -> (b: bool)
    ensures
        b == is_marker_ws(c),
{
    c == ' ' || c == '\t' || c == '\n' || c == '\r' || c == '\u{b}' || c == '\u{c}'
}

fn leader_len_at(s: &str, i: usize, n: usize) -> (r: usize)
    requires
        n == s@.len(),
        i <= n,
    ensures
        r == leader_len(s@, i as int),
{
    if n - i >= 2 && s.get_char(i) == '/' && s.get_char(i + 1) == '/' {
        2
    } else if n - i >= 1 && s.get_char(i) == '#' {
        1
    } else if n - i >= 2 && s.get_char(i) == '-' && s.get_char(i + 1) == '-' {
        2
    } else if n - i >= 1 && s.get_char(i) == '%' {
        1
    } else {
        0
    }
}

fn opener_len_at(s: &str, i: usize, n: usize) -> (r: usize)
    requires
        n == s@.len(),
        i <= n,
    ensures
        r == opener_len(s@, i as int),
{
    if n - i >= 1 && s.get_char(i) == '*' {
        1
    } else if n - i >= 6 && s.get_char(i) == '=' && s.get_char(i + 1) == 'b' && s.get_char(i + 2)
        == 'e' && s.get_char(i + 3) == 'g' && s.get_char(i + 4) == 'i' && s.get_char(i + 5)
        == 'n' {
        6
    } else if n - i >= 2 && s.get_char(i) == '{' && s.get_char(i + 1) == '-' {
        2
    } else if n - i >= 4 && s.get_char(i) == '<' && s.get_char(i + 1) == '!' && s.get_char(i + 2)
        == '-' && s.get_char(i + 3) == '-' {
        4
    } else {
        0
    }
}

fn closer_len_at(s: &str, i: usize, n: usize) -> (r: usize)
    requires
        n == s@.len(),
        i <= n,
    ensures
        r == closer_len(s@, i as int),
{
    if n - i >= 1 && s.get_char(i) == '*' {
        1
    } else if n - i >= 4 && s.get_char(i) == '=' && s.get_char(i + 1) == 'e' && s.get_char(i + 2)
        == 'n' && s.get_char(i + 3) == 'd' {
        4
    } else if n - i >= 2 && s.get_char(i) == '-' && s.get_char(i + 1) == '}' {
        2
    } else if n - i >= 3 && s.get_char(i) == '-' && s.get_char(i + 1) == '-' && s.get_char(i + 2)
        == '>' {
        3
    } else {
        0
    }
}

fn ws_scan(s: &str, i: usize, n: usize) -> (r: usize)
    requires
        n == s@.len(),
        i <= n,
    ensures
        r == ws_run_end(s@, i as int),
        i <= r <= n,
{
    let mut j = i;
    while j < n && is_ws_char(s.get_char(j))
        invariant
            n == s@.len(),
            i <= j <= n,
            ws_run_end(s@, i as int) == ws_run_end(s@, j as int),
        decreases n - j,
    {
        j = j + 1;
    }
    j
}

fn kw_at_exec(s: &str, i: usize, n: usize, upper: bool) -> (b: bool)
    requires
        n == s@.len(),
        i <= n,
    ensures
        b == kw_at(s@, i as int, kw_of(upper)),
{
    let c0 = if upper { 'T' } else { 't' };
    let c1 = if upper { 'O' } else { 'o' };
    let c2 = if upper { 'D' } else { 'd' };
    let c3 = if upper { 'O' } else { 'o' };
    let r = n - i >= 4 && s.get_char(i) == c0 && s.get_char(i + 1) == c1 && s.get_char(i + 2) == c2
        && s.get_char(i + 3) == c3;
    proof {
        let kw = kw_of(upper);
        if r {
            assert forall|j: int| 0 <= j < kw.len() implies s@[i + j] == kw[j] by {
                assert(s@[i as int] == kw[0]);
                assert(s@[i + 1] == kw[1]);
                assert(s@[i + 2] == kw[2]);
                assert(s@[i + 3] == kw[3]);
            }
        } else {
            if kw_at(s@, i as int, kw) {
                assert(s@[i + 0] == kw[0]);
                assert(s@[i + 1] == kw[1]);
                assert(s@[i + 2] == kw[2]);
                assert(s@[i + 3] == kw[3]);
            }
        }
    }
    r
}

fn marker_a_end_exec(s: &str, p: usize, n: usize, upper: bool) -> (r: Option<usize>)
    requires
        n == s@.len(),
        p <= n,
    ensures
        r is Some <==> marker_a_end(s@, p as int, kw_of(upper)) is Some,
        r is Some ==> Some(r->Some_0 as int) == marker_a_end(s@, p as int, kw_of(upper)),
{
    if !kw_at_exec(s, p, n, upper) {
        return None;
    }
    let e = p + 4;
    if e < n && s.get_char(e) == ':' {
        return Some(e + 1);
    }
    let q = ws_scan(s, e, n);
    if q < n && s.get_char(q) == '-' {
        Some(q + 1)
    } else if e < n && is_ws_char(s.get_char(e)) {
        Some(e + 1)
    } else {
        None
    }
}

fn marker_b_end_exec(s: &str, p: usize, n: usize, upper: bool) -> (r: Option<usize>)
    requires
        n == s@.len(),
        p <= n,
    ensures
        r is Some <==> marker_b_end(s@, p as int, kw_of(upper)) is Some,
        r is Some ==> Some(r->Some_0 as int) == marker_b_end(s@, p as int, kw_of(upper)),
{
    if !kw_at_exec(s, p, n, upper) {
        return None;
    }
    let e = p + 4;
    if e < n && s.get_char(e) == ':' {
        return Some(e + 1);
    }
    let q = ws_scan(s, e, n);
    if q < n && n - q >= 2 && s.get_char(q) == '-' && is_ws_char(s.get_char(q + 1)) {
        Some(q + 2)
    } else if e < n && is_ws_char(s.get_char(e)) {
        Some(e + 1)
    } else {
        None
    }
}

fn line_match_end_exec(s: &str, i: usize, n: usize, upper: bool) -> (r: Option<usize>)
    requires
        n == s@.len(),
        i <= n,
    ensures
        r is Some <==> line_match_end(s@, i as int, kw_of(upper)) is Some,
        r is Some ==> Some(r->Some_0 as int) == line_match_end(s@, i as int, kw_of(upper)),
{
    let l = leader_len_at(s, i, n);
    if l > 0 {
        let p = ws_scan(s, i + l, n);
        marker_a_end_exec(s, p, n, upper)
    } else {
        None
    }
}

fn has_opener_ending_by(s: &str, b: usize, n: usize) -> (r: bool)
    requires
        n == s@.len(),
        b <= n,
    ensures
        r == exists|a: int| #[trigger] opener_len(s@, a) > 0 && a + opener_len(s@, a) <= b,
{
    let mut a: usize = 0;
    while a < b
        invariant
            n == s@.len(),
            a <= b <= n,
            forall|a2: int|
                a2 < a ==> !(#[trigger] opener_len(s@, a2) > 0 && a2 + opener_len(s@, a2) <= b),
        decreases b - a,
    {
        let l = opener_len_at(s, a, n);
        if l > 0 && b - a >= l {
            return true;
        }
        a = a + 1;
    }
    false
}

fn has_closer_from(s: &str, m: usize, n: usize) -> (r: bool)
    requires
        n == s@.len(),
        m <= n,
    ensures
        r == exists|d: int| m <= d && #[trigger] closer_len(s@, d) > 0,
{
    let mut d = m;
    while d < n
        invariant
            n == s@.len(),
            m <= d <= n,
            forall|d2: int| m <= d2 < d ==> !(#[trigger] closer_len(s@, d2) > 0),
        decreases n - d,
    {
        if closer_len_at(s, d, n) > 0 {
            return true;
        }
        d = d + 1;
    }
    false
}

fn marker_match_exec(s: &str, upper: bool) -> (r: bool)
    ensures
        r == marker_match(s@, kw_of(upper)),
{
    let n = s.unicode_len();
    let mut i: usize = 0;
    while i < n
        invariant
            n == s@.len(),
            i <= n,
            forall|i2: int| i2 < i ==> #[trigger] line_match_end(s@, i2, kw_of(upper)) is None,
        decreases n - i,
    {
        if line_match_end_exec(s, i, n, upper).is_some() {
            return true;
        }
        i = i + 1;
    }
    assert(!line_match_exists(s@, kw_of(upper)));
    let mut b: usize = 0;
    while b < n
        invariant
            n == s@.len(),
            b <= n,
            forall|a2: int, b2: int, d2: int|
                b2 < b ==> !{
                    &&& #[trigger] opener_len(s@, a2) > 0
                    &&& a2 + opener_len(s@, a2) <= b2
                    &&& #[trigger] marker_b_end(s@, b2, kw_of(upper)) is Some
                    &&& marker_b_end(s@, b2, kw_of(upper))->Some_0 <= d2
                    &&& #[trigger] closer_len(s@, d2) > 0
                },
        decreases n - b,
    {
        if let Some(m) = marker_b_end_exec(s, b, n, upper) {
            proof {
                lemma_marker_b_end_bounds(s@, b as int, kw_of(upper));
            }
            if has_opener_ending_by(s, b, n) && has_closer_from(s, m, n) {
                return true;
            }
        }
        b = b + 1;
    }
    false
}

/// A keyword-with-separator occurrence ends after its start and within the
/// text.
proof fn lemma_marker_b_end_bounds(s: Seq<char>, p: int, kw: Seq<char>)
    requires
        marker_b_end(s, p, kw) is Some,
    ensures
        p + kw.len() <= marker_b_end(s, p, kw)->Some_0 <= s.len(),
{
    let e = p + kw.len();
    lemma_ws_run_end(s, e);
}

/// `ws_run_end` stays between its argument and the end of the text, every
/// character before it is whitespace, and the character at it (if any) is not.
proof fn lemma_ws_run_end(s: Seq<char>, i: int)
    requires
        0 <= i <= s.len(),
    ensures
        i <= ws_run_end(s, i) <= s.len(),
        forall|j: int| i <= j < ws_run_end(s, i) ==> is_marker_ws(#[trigger] s[j]),
        ws_run_end(s, i) < s.len() ==> !is_marker_ws(s[ws_run_end(s, i)]),
    decreases s.len() - i,
{
    if i < s.len() && is_marker_ws(s[i]) {
        lemma_ws_run_end(s, i + 1);
    }
}

/// Decides whether the line holds a TODO marker, canonical or informal, in
/// either comment form.
pub fn matches(line: &str) -> (r: bool)
    ensures
        r == contains_marker(line@),
{
    if marker_match_exec(line, true) {
        true
    } else {
        marker_match_exec(line, false)
    }
}

/// Smallest position at or after `j` where a block-form keyword occurrence
/// starts.
pub open spec fn first_marker_from(s: Seq<char>, kw: Seq<char>, j: int) -> Option<int>
    decreases s.len() - j when 0 <= j <= s.len()
{
    if j >= s.len() {
        None
    } else if marker_b_end(s, j, kw) is Some {
        Some(j)
    } else {
        first_marker_from(s, kw, j + 1)
    }
}

/// Smallest position at or after `j` where a block-comment closer starts.
pub open spec fn first_closer_from(s: Seq<char>, j: int) -> Option<int>
    decreases s.len() - j when 0 <= j <= s.len()
{
    if j >= s.len() {
        None
    } else if closer_len(s, j) > 0 {
        Some(j)
    } else {
        first_closer_from(s, j + 1)
    }
}

/// End (exclusive) of the span that a block-form match starting at `i`
/// consumes: the opener, the first keyword occurrence after it, and the first
/// closer after that.
pub open spec fn block_match_end(s: Seq<char>, i: int, kw: Seq<char>) -> Option<int> {
    let lo = opener_len(s, i);
    if lo > 0 {
        match first_marker_from(s, kw, i + lo) {
            Some(b) => match first_closer_from(s, marker_b_end(s, b, kw)->Some_0) {
                Some(d) => Some(d + closer_len(s, d)),
                None => None,
            },
            None => None,
        }
    } else {
        None
    }
}

/// End (exclusive) of the span replaced for a match starting at `i`; the line
/// form is preferred over the block form.
pub open spec fn match_end(s: Seq<char>, i: int, kw: Seq<char>) -> Option<int> {
    if line_match_end(s, i, kw) is Some {
        line_match_end(s, i, kw)
    } else {
        block_match_end(s, i, kw)
    }
}

proof fn lemma_marker_a_end_bounds(s: Seq<char>, p: int, kw: Seq<char>)
    requires
        marker_a_end(s, p, kw) is Some,
    ensures
        p + kw.len() < marker_a_end(s, p, kw)->Some_0 <= s.len(),
        0 <= p,
{
    let e = p + kw.len();
    lemma_ws_run_end(s, e);
}

/// When `first_marker_from` finds a position, that position carries a keyword
/// occurrence and lies between `j` and the end of the text.
proof fn lemma_first_marker_from_some(s: Seq<char>, kw: Seq<char>, j: int)
    requires
        0 <= j <= s.len(),
        first_marker_from(s, kw, j) is Some,
    ensures
        j <= first_marker_from(s, kw, j)->Some_0 < s.len(),
        marker_b_end(s, first_marker_from(s, kw, j)->Some_0, kw) is Some,
    decreases s.len() - j,
{
    if j >= s.len() {
    } else if marker_b_end(s, j, kw) is Some {
    } else {
        lemma_first_marker_from_some(s, kw, j + 1);
    }
}

/// When `first_closer_from` finds a position, a closer stands there, between
/// `j` and the end of the text.
proof fn lemma_first_closer_from_some(s: Seq<char>, j: int)
    requires
        0 <= j <= s.len(),
        first_closer_from(s, j) is Some,
    ensures
        j <= first_closer_from(s, j)->Some_0 < s.len(),
        closer_len(s, first_closer_from(s, j)->Some_0) > 0,
    decreases s.len() - j,
{
    if j >= s.len() {
    } else if closer_len(s, j) > 0 {
    } else {
        lemma_first_closer_from_some(s, j + 1);
    }
}

/// A replaced span ends after its start and within the text.
proof fn lemma_match_end_bounds(s: Seq<char>, i: int, kw: Seq<char>)
    requires
        match_end(s, i, kw) is Some,
        kw.len() > 0,
    ensures
        i < match_end(s, i, kw)->Some_0 <= s.len(),
{
    if line_match_end(s, i, kw) is Some {
        let l = leader_len(s, i);
        lemma_ws_run_end(s, i + l);
        lemma_marker_a_end_bounds(s, ws_run_end(s, i + l), kw);
    } else {
        let lo = opener_len(s, i);
        let b = first_marker_from(s, kw, i + lo)->Some_0;
        lemma_first_marker_from_some(s, kw, i + lo);
        lemma_marker_b_end_bounds(s, b, kw);
        let m = marker_b_end(s, b, kw)->Some_0;
        lemma_first_closer_from_some(s, m);
    }
}

/// The text with every match of the keyword pattern at or after `i` replaced
/// by `token`; positions are consumed left to right.
pub open spec fn replace_from(s: Seq<char>, kw: Seq<char>, token: Seq<char>, i: int) -> Seq<char>
    decreases s.len() - i when 0 <= i <= s.len() && kw.len() > 0 via replace_from_decreases
{
    if i >= s.len() {
        Seq::empty()
    } else if match_end(s, i, kw) is Some {
        token + replace_from(s, kw, token, match_end(s, i, kw)->Some_0)
    } else {
        seq![s[i]] + replace_from(s, kw, token, i + 1)
    }
}

#[via_fn]
proof fn replace_from_decreases(s: Seq<char>, kw: Seq<char>, token: Seq<char>, i: int) {
    if i < s.len() && match_end(s, i, kw) is Some {
        lemma_match_end_bounds(s, i, kw);
    }
}

/// The text with every match of the keyword pattern replaced by `token`.
pub open spec fn replace_markers(s: Seq<char>, kw: Seq<char>, token: Seq<char>) -> Seq<char> {
    replace_from(s, kw, token, 0)
}

/// What `emphasize` returns: every canonical match replaced by the canonical
/// token, then, in that result, every informal match replaced by the informal
/// token.
pub open spec fn emphasize_spec(s: Seq<char>, tok_c: Seq<char>, tok_i: Seq<char>) -> Seq<char> {
    replace_markers(replace_markers(s, canonical_kw(), tok_c), informal_kw(), tok_i)
}

fn block_match_end_exec(s: &str, i: usize, n: usize, upper: bool) -> (r: Option<usize>)
    requires
        n == s@.len(),
        i <= n,
    ensures
        r is Some <==> block_match_end(s@, i as int, kw_of(upper)) is Some,
        r is Some ==> Some(r->Some_0 as int) == block_match_end(s@, i as int, kw_of(upper)),
{
    let kw = Ghost(kw_of(upper));
    let lo = opener_len_at(s, i, n);
    if lo == 0 {
        return None;
    }
    let mut b = i + lo;
    while b < n
        invariant
            n == s@.len(),
            i + lo <= b <= n,
            kw@ == kw_of(upper),
            lo as int == opener_len(s@, i as int),
            lo > 0,
            first_marker_from(s@, kw@, i + lo) == first_marker_from(s@, kw@, b as int),
        decreases n - b,
    {
        if let Some(m) = marker_b_end_exec(s, b, n, upper) {
            proof {
                assert(first_marker_from(s@, kw@, b as int) == Some(b as int));
                lemma_marker_b_end_bounds(s@, b as int, kw@);
            }
            let mut d = m;
            while d < n
                invariant
                    n == s@.len(),
                    m <= d <= n,
                    kw@ == kw_of(upper),
                    lo as int == opener_len(s@, i as int),
                    lo > 0,
                    first_marker_from(s@, kw@, i + lo) == Some(b as int),
                    Some(m as int) == marker_b_end(s@, b as int, kw@),
                    first_closer_from(s@, m as int) == first_closer_from(s@, d as int),
                decreases n - d,
            {
                let lc = closer_len_at(s, d, n);
                if lc > 0 {
                    proof {
                        assert(first_closer_from(s@, d as int) == Some(d as int));
                    }
                    return Some(d + lc);
                }
                d = d + 1;
            }
            proof {
                assert(first_closer_from(s@, n as int) is None);
            }
            return None;
        }
        b = b + 1;
    }
    proof {
        assert(first_marker_from(s@, kw@, n as int) is None);
    }
    None
}

fn match_end_exec(s: &str, i: usize, n: usize, upper: bool) -> (r: Option<usize>)
    requires
        n == s@.len(),
        i <= n,
    ensures
        r is Some <==> match_end(s@, i as int, kw_of(upper)) is Some,
        r is Some ==> Some(r->Some_0 as int) == match_end(s@, i as int, kw_of(upper)),
{
    if let Some(e) = line_match_end_exec(s, i, n, upper) {
        Some(e)
    } else {
        block_match_end_exec(s, i, n, upper)
    }
}

fn replace_markers_exec(s: &str, upper: bool, token: &str) -> (r: String)
    ensures
        r@ == replace_markers(s@, kw_of(upper), token@),
{
    let kw = Ghost(kw_of(upper));
    let n = s.unicode_len();
    let mut out = String::new();
    let mut i: usize = 0;
    while i < n
        invariant
            n == s@.len(),
            i <= n,
            kw@ == kw_of(upper),
            kw@.len() == 4,
            replace_from(s@, kw@, token@, 0) == out@ + replace_from(s@, kw@, token@, i as int),
        decreases n - i,
    {
        let ghost rest = replace_from(s@, kw@, token@, i as int);
        let ghost out0 = out@;
        match match_end_exec(s, i, n, upper) {
            Some(e) => {
                proof {
                    lemma_match_end_bounds(s@, i as int, kw@);
                }
                out.append(token);
                proof {
                    let tail = replace_from(s@, kw@, token@, e as int);
                    assert(rest == token@ + tail);
                    assert(out0 + (token@ + tail) =~= (out0 + token@) + tail);
                }
                i = e;
            },
            None => {
                let piece = s.substring_char(i, i + 1);
                out.append(piece);
                proof {
                    let tail = replace_from(s@, kw@, token@, i + 1);
                    assert(piece@ =~= seq![s@[i as int]]);
                    assert(rest == seq![s@[i as int]] + tail);
                    assert(out0 + (piece@ + tail) =~= (out0 + piece@) + tail);
                }
                i = i + 1;
            },
        }
    }
    proof {
        assert(replace_from(s@, kw@, token@, n as int) == Seq::<char>::empty());
        assert(out@ + Seq::<char>::empty() =~= out@);
    }
    out
}

/// Replaces every canonical match by `canonical_token`, then every informal
/// match in the result by `informal_token`. A line without a marker comes back
/// unchanged.
pub fn emphasize_with(line: &str, canonical_token: &str, informal_token: &str) -> (r: String)
    ensures
        r@ == emphasize_spec(line@, canonical_token@, informal_token@),
        !contains_marker(line@) ==> r@ == line@,
{
    let pass1 = replace_markers_exec(line, true, canonical_token);
    let r = replace_markers_exec(pass1.as_str(), false, informal_token);
    proof {
        if !contains_marker(line@) {
            lemma_emphasize_unchanged(line@, canonical_token@, informal_token@);
        }
    }
    r
}

/// Replaces every marker occurrence by a styled rendering of its keyword:
/// canonical occurrences by a styled `TODO`, then informal occurrences in the
/// result by a styled `todo`. The styled tokens hold the bare keyword when
/// colouring is off and wrap it in styling text when it is on; a line without
/// a marker comes back unchanged either way.
pub fn emphasize(line: &str) -> (r: String)
    ensures
        exists|tok_c: Seq<char>, tok_i: Seq<char>|
            {
                &&& #[trigger] wraps(tok_c, "TODO"@)
                &&& #[trigger] wraps(tok_i, "todo"@)
                &&& r@ == emphasize_spec(line@, tok_c, tok_i)
            },
        !contains_marker(line@) ==> r@ == line@,
{
    proof {
        reveal_strlit("TODO");
        reveal_strlit("todo");
        assert(forall|i: int| 0 <= i < "TODO"@.len() ==> "TODO"@[i] != '\u{1b}');
        assert(forall|i: int| 0 <= i < "todo"@.len() ==> "todo"@[i] != '\u{1b}');
    }
    let tok_c = style_marker("TODO");
    let tok_i = style_marker("todo");
    let r = emphasize_with(line, tok_c.as_str(), tok_i.as_str());
    proof {
        assert(wraps(tok_c@, "TODO"@) && wraps(tok_i@, "todo"@) && r@ == emphasize_spec(
            line@,
            tok_c@,
            tok_i@,
        ));
    }
    r
}

/// A text without a marker for `kw` is left untouched by replacement: from
/// position `i` on, the replacement is the text itself.
proof fn lemma_no_match_replace_id(s: Seq<char>, kw: Seq<char>, token: Seq<char>, i: int)
    requires
        0 <= i <= s.len(),
        kw.len() > 0,
        !marker_match(s, kw),
    ensures
        replace_from(s, kw, token, i) == s.subrange(i, s.len() as int),
    decreases s.len() - i,
{
    if i >= s.len() {
        assert(replace_from(s, kw, token, i) =~= s.subrange(i, s.len() as int));
    } else {
        if match_end(s, i, kw) is Some {
            if line_match_end(s, i, kw) is Some {
                assert(line_match_exists(s, kw));
            } else {
                let lo = opener_len(s, i);
                lemma_first_marker_from_some(s, kw, i + lo);
                let b = first_marker_from(s, kw, i + lo)->Some_0;
                lemma_marker_b_end_bounds(s, b, kw);
                let m = marker_b_end(s, b, kw)->Some_0;
                lemma_first_closer_from_some(s, m);
                let d = first_closer_from(s, m)->Some_0;
                assert(opener_len(s, i) > 0 && i + opener_len(s, i) <= b && marker_b_end(s, b, kw)
                    is Some && marker_b_end(s, b, kw)->Some_0 <= d && closer_len(s, d) > 0);
                assert(block_match_exists(s, kw));
            }
            assert(false);
        }
        lemma_no_match_replace_id(s, kw, token, i + 1);
        assert(replace_from(s, kw, token, i) =~= s.subrange(i, s.len() as int));
    }
}

/// A line without any marker is returned by `emphasize` unchanged, whatever
/// the replacement tokens are.
pub proof fn lemma_emphasize_unchanged(s: Seq<char>, tok_c: Seq<char>, tok_i: Seq<char>)
    requires
        !contains_marker(s),
    ensures
        emphasize_spec(s, tok_c, tok_i) == s,
{
    lemma_no_match_replace_id(s, canonical_kw(), tok_c, 0);
    assert(s.subrange(0, s.len() as int) =~= s);
    lemma_no_match_replace_id(s, informal_kw(), tok_i, 0);
}

/// A line that holds a comment leader, then whitespace, then the keyword
/// followed by `:`, by a dash, or by whitespace, matches. This is the
/// single-line comment form for any of the four leaders, for the canonical and
/// the informal keyword alike.
pub proof fn lemma_line_comment_match(s: Seq<char>, i: int, p: int, kw: Seq<char>)
    requires
        kw == canonical_kw() || kw == informal_kw(),
        leader_len(s, i) > 0,
        i + leader_len(s, i) <= p,
        forall|j: int| i + leader_len(s, i) <= j < p ==> is_marker_ws(#[trigger] s[j]),
        kw_at(s, p, kw),
        p + kw.len() < s.len(),
        s[p + kw.len()] == ':' || s[p + kw.len()] == '-' || is_marker_ws(s[p + kw.len()]),
    ensures
        marker_match(s, kw),
        contains_marker(s),
    decreases s.len(),
{
    let l = leader_len(s, i);
    assert(s[p] == kw[0]);
    assert(!is_marker_ws(s[p]));
    lemma_ws_run_end_to(s, i + l, p);
    let e = p + kw.len();
    lemma_ws_run_end(s, e);
    let q = ws_run_end(s, e);
    if e < s.len() && s[e] == ':' {
    } else if q < s.len() && s[q] == '-' {
    } else {
        assert(is_marker_ws(s[e]));
    }
    assert(marker_a_end(s, p, kw) is Some);
    assert(line_match_end(s, i, kw) is Some);
    assert(line_match_exists(s, kw));
}

/// The whitespace run starting at `j` ends exactly at the first non-whitespace
/// position `p`.
proof fn lemma_ws_run_end_to(s: Seq<char>, j: int, p: int)
    requires
        0 <= j <= p < s.len(),
        forall|k: int| j <= k < p ==> is_marker_ws(#[trigger] s[k]),
        !is_marker_ws(s[p]),
    ensures
        ws_run_end(s, j) == p,
    decreases p - j,
{
    if j < p {
        lemma_ws_run_end_to(s, j + 1, p);
    }
}

} // verus!
