//! Findings: one detected marker occurrence with its location and context.
//!
//! `collect` splits a file's text into lines on `'\n'` (the split is literal:
//! an empty text is one empty line, a trailing newline yields a final empty
//! line), tests each line with the matcher, and yields one finding per
//! matching line. A finding carries the matching line and, when the match is
//! not on the first line, the line immediately above it.

use crate::matcher::contains_marker;
use vstd::prelude::*;

verus! {

/// One detected TODO occurrence.
pub struct Finding {
    /// Identifier of the file of origin, assigned by the caller in traversal
    /// order; used only as the sort key for grouping.
    pub file_id: usize,
    /// Path of the file of origin, used for display and as the grouping key.
    pub file_name: String,
    /// 1-based position of the matching line within its file.
    pub line_number: usize,
    /// The full text of the matching line.
    pub line_contents: String,
    /// 1-based position of the line above the match, absent when the match is
    /// on the first line.
    pub context_line_number: Option<usize>,
    /// The text of the line above the match, empty when there is none.
    pub context_line: String,
}

/// The mathematical model of a `Finding`.
pub struct FindingV {
    pub file_id: int,
    pub file_name: Seq<char>,
    pub line_number: int,
    pub line_contents: Seq<char>,
    pub context_line_number: Option<int>,
    pub context_line: Seq<char>,
}

impl View for Finding {
    type V = FindingV;

    open spec fn view(&self) -> FindingV {
        FindingV {
            file_id: self.file_id as int,
            file_name: self.file_name@,
            line_number: self.line_number as int,
            line_contents: self.line_contents@,
            context_line_number: match self.context_line_number {
                Some(v) => Some(v as int),
                None => None,
            },
            context_line: self.context_line@,
        }
    }
}

impl FindingV {
    /// The shape every collected finding has: line numbers are 1-based, and
    /// the context is present exactly when the match is not on the first
    /// line, in which case it names the line immediately above.
    pub open spec fn wf(self) -> bool {
        &&& self.line_number >= 1
        &&& (self.context_line_number is Some <==> self.line_number > 1)
        &&& (self.line_number > 1 ==> self.context_line_number == Some(
            (self.line_number - 1) as int,
        ))
        &&& (self.line_number == 1 ==> self.context_line == Seq::<char>::empty())
    }
}

impl Finding {
    /// A field-for-field copy.
    pub fn duplicate(&self) -> (r: Finding)
        ensures
            r@ == self@,
    {
        Finding {
            file_id: self.file_id,
            file_name: self.file_name.clone(),
            line_number: self.line_number,
            line_contents: self.line_contents.clone(),
            context_line_number: self.context_line_number,
            context_line: self.context_line.clone(),
        }
    }
}

/// The views of a sequence of findings.
pub open spec fn finding_views(fs: Seq<Finding>) -> Seq<FindingV> {
    fs.map_values(|f: Finding| f@)
}

/// First index at or after `i` holding `'\n'`, or the length when none does.
pub open spec fn first_nl(s: Seq<char>, i: int) -> int
    decreases s.len() - i when 0 <= i <= s.len()
{
    if i >= s.len() {
        i
    } else if s[i] == '\n' {
        i
    } else {
        first_nl(s, i + 1)
    }
}

proof fn lemma_first_nl_bounds(s: Seq<char>, i: int)
    requires
        0 <= i <= s.len(),
    ensures
        i <= first_nl(s, i) <= s.len(),
        first_nl(s, i) < s.len() ==> s[first_nl(s, i)] == '\n',
        forall|j: int| i <= j < first_nl(s, i) ==> s[j] != '\n',
    decreases s.len() - i,
{
    if i < s.len() && s[i] != '\n' {
        lemma_first_nl_bounds(s, i + 1);
    }
}

proof fn lemma_first_nl_at(s: Seq<char>, i: int, k: int)
    requires
        0 <= i <= k < s.len(),
        forall|j: int| i <= j < k ==> s[j] != '\n',
        s[k] == '\n',
    ensures
        first_nl(s, i) == k,
    decreases k - i,
{
    if i < k {
        lemma_first_nl_at(s, i + 1, k);
    }
}

proof fn lemma_first_nl_none(s: Seq<char>, i: int)
    requires
        0 <= i <= s.len(),
        forall|j: int| i <= j < s.len() ==> s[j] != '\n',
    ensures
        first_nl(s, i) == s.len(),
    decreases s.len() - i,
{
    if i < s.len() {
        lemma_first_nl_none(s, i + 1);
    }
}

/// The lines of `s` from position `i` on, split on `'\n'` alone.
pub open spec fn split_lines_from(s: Seq<char>, i: int) -> Seq<Seq<char>>
    decreases s.len() - i when 0 <= i <= s.len() via split_lines_from_decreases
{
    let k = first_nl(s, i);
    if k == s.len() {
        seq![s.subrange(i, s.len() as int)]
    } else {
        seq![s.subrange(i, k)] + split_lines_from(s, k + 1)
    }
}

#[via_fn]
proof fn split_lines_from_decreases(s: Seq<char>, i: int) {
    lemma_first_nl_bounds(s, i);
}

/// The lines of `s`, split on `'\n'` alone. An empty text is one empty line.
pub open spec fn split_lines(s: Seq<char>) -> Seq<Seq<char>> {
    split_lines_from(s, 0)
}

/// The finding built for line index `j` (0-based) of `lines`.
pub open spec fn finding_at(
    file_id: int,
    file_name: Seq<char>,
    lines: Seq<Seq<char>>,
    j: int,
) -> FindingV {
    FindingV {
        file_id: file_id,
        file_name: file_name,
        line_number: j + 1,
        line_contents: lines[j],
        context_line_number: if j == 0 {
            None
        } else {
            Some(j)
        },
        context_line: if j == 0 {
            Seq::empty()
        } else {
            lines[j - 1]
        },
    }
}

/// The findings for the lines of index `j` and beyond: one per matching line,
/// in line order.
pub open spec fn findings_from(
    file_id: int,
    file_name: Seq<char>,
    lines: Seq<Seq<char>>,
    j: int,
) -> Seq<FindingV>
    decreases lines.len() - j when 0 <= j <= lines.len()
{
    if j >= lines.len() {
        Seq::empty()
    } else {
        let rest = findings_from(file_id, file_name, lines, j + 1);
        if contains_marker(lines[j]) {
            seq![finding_at(file_id, file_name, lines, j)] + rest
        } else {
            rest
        }
    }
}

/// What `collect` returns for a file's identifier, name and text.
pub open spec fn collect_spec(file_id: int, file_name: Seq<char>, contents: Seq<char>) -> Seq<
    FindingV,
> {
    findings_from(file_id, file_name, split_lines(contents), 0)
}

/// The views of a sequence of strings.
pub open spec fn lines_view(v: Seq<String>) -> Seq<Seq<char>> {
    v.map_values(|x: String| x@)
}

/// Splits a text into its lines, on `'\n'` alone.
pub fn split_into_lines(contents: &str) -> (r: Vec<String>)
    ensures
        lines_view(r@) == split_lines(contents@),
{
    let n = contents.unicode_len();
    let mut out: Vec<String> = Vec::new();
    let mut start: usize = 0;
    let mut i: usize = 0;
    while i < n
        invariant
            n == contents@.len(),
            start <= i <= n,
            forall|j: int| start <= j < i ==> contents@[j] != '\n',
            split_lines(contents@) == lines_view(out@) + split_lines_from(
                contents@,
                start as int,
            ),
        decreases n - i,
    {
        if contents.get_char(i) == '\n' {
            let ghost out0 = out@;
            let piece = contents.substring_char(start, i).to_owned();
            out.push(piece);
            proof {
                lemma_first_nl_at(contents@, start as int, i as int);
                let rest = split_lines_from(contents@, i + 1);
                assert(split_lines_from(contents@, start as int) == seq![
                    contents@.subrange(start as int, i as int),
                ] + rest);
                assert(lines_view(out@) =~= lines_view(out0) + seq![
                    contents@.subrange(start as int, i as int),
                ]);
                assert((lines_view(out0) + seq![contents@.subrange(start as int, i as int)]) + rest
                    =~= lines_view(out0) + (seq![contents@.subrange(start as int, i as int)]
                    + rest));
            }
            start = i + 1;
        }
        i = i + 1;
    }
    let ghost out0 = out@;
    let piece = contents.substring_char(start, n).to_owned();
    out.push(piece);
    proof {
        lemma_first_nl_none(contents@, start as int);
        assert(split_lines_from(contents@, start as int) == seq![
            contents@.subrange(start as int, n as int),
        ]);
        assert(lines_view(out@) =~= lines_view(out0) + seq![
            contents@.subrange(start as int, n as int),
        ]);
    }
    out
}

/// Collects the findings of one file: its text is split into lines, each line
/// is tested with the matcher, and one finding is built per matching line,
/// carrying the line above it as context when there is one.
pub fn collect(file_id: usize, file_name: &str, contents: &str) -> (r: Vec<Finding>)
    ensures
        finding_views(r@) == collect_spec(file_id as int, file_name@, contents@),
{
    let lines = split_into_lines(contents);
    let ghost lv = lines_view(lines@);
    let mut out: Vec<Finding> = Vec::new();
    let mut j: usize = 0;
    while j < lines.len()
        invariant
            lv == lines_view(lines@),
            j <= lines.len(),
            collect_spec(file_id as int, file_name@, contents@) == finding_views(out@)
                + findings_from(file_id as int, file_name@, lv, j as int),
        decreases lines.len() - j,
    {
        let ghost out0 = out@;
        let ghost rest = findings_from(file_id as int, file_name@, lv, j as int);
        if crate::matcher::matches(lines[j].as_str()) {
            let f = Finding {
                file_id: file_id,
                file_name: file_name.to_owned(),
                line_number: j + 1,
                line_contents: lines[j].clone(),
                context_line_number: if j == 0 {
                    None
                } else {
                    Some(j)
                },
                context_line: if j == 0 {
                    String::new()
                } else {
                    lines[j - 1].clone()
                },
            };
            proof {
                assert(f@ == finding_at(file_id as int, file_name@, lv, j as int));
            }
            out.push(f);
            proof {
                let tail = findings_from(file_id as int, file_name@, lv, j + 1);
                assert(finding_views(out@) =~= finding_views(out0) + seq![
                    finding_at(file_id as int, file_name@, lv, j as int),
                ]);
                assert((finding_views(out0) + seq![
                    finding_at(file_id as int, file_name@, lv, j as int),
                ]) + tail =~= finding_views(out0) + (seq![
                    finding_at(file_id as int, file_name@, lv, j as int),
                ] + tail));
            }
        }
        j = j + 1;
    }
    out
}

proof fn lemma_findings_from_props(
    file_id: int,
    file_name: Seq<char>,
    lines: Seq<Seq<char>>,
    j: int,
    k: int,
)
    requires
        0 <= j <= lines.len(),
        0 <= k < findings_from(file_id, file_name, lines, j).len(),
    ensures
        ({
            let f = findings_from(file_id, file_name, lines, j)[k];
            &&& f.wf()
            &&& f.file_id == file_id
            &&& f.file_name == file_name
            &&& j + 1 <= f.line_number <= lines.len()
            &&& f.line_contents == lines[f.line_number - 1]
            &&& contains_marker(f.line_contents)
            &&& (f.line_number > 1 ==> f.context_line == lines[f.line_number - 2])
        }),
    decreases lines.len() - j,
{
    if j < lines.len() {
        if contains_marker(lines[j]) && k == 0 {
        } else if contains_marker(lines[j]) {
            lemma_findings_from_props(file_id, file_name, lines, j + 1, k - 1);
        } else {
            lemma_findings_from_props(file_id, file_name, lines, j + 1, k);
        }
    }
}

/// Every finding that `collect` yields is well formed: it carries the given
/// file identifier and name, a 1-based line number no larger than the number
/// of lines, the text of that line (which holds a marker), and — exactly when
/// the match is not on the first line — the line above as context.
pub proof fn lemma_collect_wf(file_id: int, file_name: Seq<char>, contents: Seq<char>, k: int)
    requires
        0 <= k < collect_spec(file_id, file_name, contents).len(),
    ensures
        ({
            let f = collect_spec(file_id, file_name, contents)[k];
            let lines = split_lines(contents);
            &&& f.wf()
            &&& f.file_id == file_id
            &&& f.file_name == file_name
            &&& 1 <= f.line_number <= lines.len()
            &&& f.line_contents == lines[f.line_number - 1]
            &&& contains_marker(f.line_contents)
            &&& (f.line_number > 1 ==> f.context_line == lines[f.line_number - 2])
        }),
{
    lemma_findings_from_props(file_id, file_name, split_lines(contents), 0, k);
}

} // verus!
