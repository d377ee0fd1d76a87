//! Rendering collected findings as a grouped, human-readable report.
//!
//! Findings are stable-sorted by their file identifier (ties keep their
//! original relative order), grouped by file name, and rendered one block per
//! finding: the context line when there is one, a rule of underscores as long
//! as the emphasized line, and the matching line itself with its markers
//! emphasized. A styled count line closes the report.

use crate::finding::Finding;
use crate::finding::FindingV;
use crate::finding::finding_views;
use crate::matcher::emphasize_spec;
use crate::matcher::wraps;
use crate::style::style_marker;
use vstd::prelude::*;

verus! {

/// The findings stand in ascending order of file identifier.
pub open spec fn sorted_by_file_id(fs: Seq<FindingV>) -> bool {
    forall|p: int, q: int| 0 <= p < q < fs.len() ==> fs[p].file_id <= fs[q].file_id
}

/// Holding a finding of the file with identifier `k`.
pub open spec fn is_of_file(k: int) -> spec_fn(FindingV) -> bool {
    |f: FindingV| f.file_id == k
}

/// The findings of the file with identifier `k`, in order.
pub open spec fn same_file_findings(fs: Seq<FindingV>, k: int) -> Seq<FindingV> {
    fs.filter(is_of_file(k))
}

proof fn lemma_filter_none(fs: Seq<FindingV>, pred: spec_fn(FindingV) -> bool)
    requires
        forall|m: int| 0 <= m < fs.len() ==> !pred(#[trigger] fs[m]),
    ensures
        fs.filter(pred) == Seq::<FindingV>::empty(),
    decreases fs.len(),
{
    reveal(Seq::filter);
    if fs.len() > 0 {
        lemma_filter_none(fs.drop_last(), pred);
    }
}

proof fn lemma_filter_singleton(f: FindingV, pred: spec_fn(FindingV) -> bool)
    ensures
        seq![f].filter(pred) == if pred(f) {
            seq![f]
        } else {
            Seq::<FindingV>::empty()
        },
{
    reveal_with_fuel(Seq::filter, 2);
    assert(seq![f].drop_last() =~= Seq::<FindingV>::empty());
    assert(seq![f].last() == f);
}

/// Stable sort of the findings by file identifier: the result is sorted, and
/// for every file identifier it holds exactly that file's findings, in their
/// original relative order. (Those two clauses pin the result down: a sorted
/// sequence with the given per-identifier subsequences is unique.)
pub fn sort_findings(findings: &Vec<Finding>) -> (r: Vec<Finding>)
    ensures
        r@.len() == findings@.len(),
        sorted_by_file_id(finding_views(r@)),
        forall|k: int|
            same_file_findings(finding_views(r@), k) == same_file_findings(
                finding_views(findings@),
                k,
            ),
{
    let mut out: Vec<Finding> = Vec::new();
    let mut idx: usize = 0;
    while idx < findings.len()
        invariant
            idx <= findings.len(),
            out@.len() == idx,
            sorted_by_file_id(finding_views(out@)),
            forall|k: int|
                same_file_findings(finding_views(out@), k) == same_file_findings(
                    finding_views(findings@.subrange(0, idx as int)),
                    k,
                ),
        decreases findings.len() - idx,
    {
        let f = findings[idx].duplicate();
        let mut j = out.len();
        while j > 0 && out[j - 1].file_id > f.file_id
            invariant
                j <= out@.len(),
                forall|m: int| j <= m < out@.len() ==> out@[m].file_id > f.file_id,
            decreases j,
        {
            j = j - 1;
        }
        let ghost out0 = out@;
        let ghost fv = f@;
        out.insert(j, f);
        proof {
            let ov0 = finding_views(out0);
            let ov1 = finding_views(out@);
            let pre = ov0.subrange(0, j as int);
            let suf = ov0.subrange(j as int, ov0.len() as int);
            assert(ov1 =~= (pre + seq![fv]) + suf);
            assert forall|p: int, q: int| 0 <= p < q < ov1.len() implies ov1[p].file_id
                <= ov1[q].file_id by {
                if p < j {
                    assert(ov1[p] == ov0[p]);
                }
                if q < j {
                    assert(ov1[q] == ov0[q]);
                }
                if p > j {
                    assert(ov1[p] == ov0[p - 1]);
                }
                if q > j {
                    assert(ov1[q] == ov0[q - 1]);
                    assert(ov0[q - 1].file_id >= fv.file_id || q - 1 < j);
                }
                if p == j {
                    assert(ov1[p] == fv);
                }
                if q == j {
                    assert(ov1[q] == fv);
                    assert(ov0[p].file_id <= ov0[j - 1].file_id);
                }
            }
            let pfx1 = finding_views(findings@.subrange(0, idx + 1));
            let pfx0 = finding_views(findings@.subrange(0, idx as int));
            assert(pfx1 =~= pfx0 + seq![fv]);
            assert(ov0 =~= pre + suf);
            assert forall|k: int| same_file_findings(ov1, k) == same_file_findings(pfx1, k) by {
                let pred = is_of_file(k);
                assert(same_file_findings(ov0, k) == same_file_findings(pfx0, k));
                Seq::filter_distributes_over_add(pre + seq![fv], suf, pred);
                Seq::filter_distributes_over_add(pre, seq![fv], pred);
                Seq::filter_distributes_over_add(pre, suf, pred);
                Seq::filter_distributes_over_add(pfx0, seq![fv], pred);
                lemma_filter_singleton(fv, pred);
                if pred(fv) {
                    assert forall|m: int| 0 <= m < suf.len() implies !pred(suf[m]) by {
                        assert(suf[m] == ov0[j + m]);
                        assert(ov0[j + m] == out0[j + m]@);
                    }
                    lemma_filter_none(suf, pred);
                    assert(ov1.filter(pred) =~= ov0.filter(pred) + seq![fv]);
                    assert(pfx1.filter(pred) =~= pfx0.filter(pred) + seq![fv]);
                } else {
                    assert(ov1.filter(pred) =~= ov0.filter(pred));
                    assert(pfx1.filter(pred) =~= pfx0.filter(pred));
                }
            }
        }
        idx = idx + 1;
    }
    proof {
        assert(findings@.subrange(0, findings@.len() as int) =~= findings@);
    }
    out
}

/// In a report sorted by file identifier the findings of one file stand
/// together: between two findings with the same identifier no finding of
/// another file can stand.
pub proof fn lemma_sorted_groups_contiguous(fs: Seq<FindingV>, p: int, q: int, r: int)
    requires
        sorted_by_file_id(fs),
        0 <= p <= q <= r < fs.len(),
        fs[p].file_id == fs[r].file_id,
    ensures
        fs[q].file_id == fs[p].file_id,
{
}

/// The decimal digit for `n` in 0..10.
pub open spec fn dec_digit(n: int) -> char {
    if n == 0 {
        '0'
    } else if n == 1 {
        '1'
    } else if n == 2 {
        '2'
    } else if n == 3 {
        '3'
    } else if n == 4 {
        '4'
    } else if n == 5 {
        '5'
    } else if n == 6 {
        '6'
    } else if n == 7 {
        '7'
    } else if n == 8 {
        '8'
    } else {
        '9'
    }
}

/// The decimal rendering of `n`, most significant digit first.
pub open spec fn dec_rep(n: int) -> Seq<char>
    decreases n when n >= 0
{
    if n < 10 {
        seq![dec_digit(n)]
    } else {
        dec_rep(n / 10).push(dec_digit(n % 10))
    }
}

fn digit_str(d: usize) -> (r: &'static str)
    requires
        d < 10,
    ensures
        r@ == seq![dec_digit(d as int)],
{
    let r = match d {
        0 => "0",
        1 => "1",
        2 => "2",
        3 => "3",
        4 => "4",
        5 => "5",
        6 => "6",
        7 => "7",
        8 => "8",
        _ => "9",
    };
    proof {
        reveal_strlit("0");
        reveal_strlit("1");
        reveal_strlit("2");
        reveal_strlit("3");
        reveal_strlit("4");
        reveal_strlit("5");
        reveal_strlit("6");
        reveal_strlit("7");
        reveal_strlit("8");
        reveal_strlit("9");
        assert(r@ =~= seq![dec_digit(d as int)]);
    }
    r
}

/// Renders `n` in decimal.
pub fn decimal_string(n: usize) -> (r: String)
    ensures
        r@ == dec_rep(n as int),
    decreases n,
{
    let d = digit_str(n % 10);
    if n < 10 {
        d.to_owned()
    } else {
        let mut r = decimal_string(n / 10);
        r.append(d);
        proof {
            assert(r@ =~= dec_rep(n as int));
        }
        r
    }
}

/// No decimal rendering holds an escape character.
proof fn lemma_dec_rep_no_esc(n: int)
    requires
        n >= 0,
    ensures
        forall|i: int| 0 <= i < dec_rep(n).len() ==> dec_rep(n)[i] != '\u{1b}',
    decreases n,
{
    if n < 10 {
        assert(dec_rep(n)[0] == dec_digit(n));
    } else {
        lemma_dec_rep_no_esc(n / 10);
        assert forall|i: int| 0 <= i < dec_rep(n).len() implies dec_rep(n)[i] != '\u{1b}' by {
            if i < dec_rep(n).len() - 1 {
                assert(dec_rep(n)[i] == dec_rep(n / 10)[i]);
            } else {
                assert(dec_rep(n)[i] == dec_digit(n % 10));
            }
        }
    }
}

/// A rendered line: its number, then its text.
pub open spec fn line_label(n: int, contents: Seq<char>) -> Seq<char> {
    "Line "@ + dec_rep(n) + ": "@ + contents
}

/// The section header naming a file.
pub open spec fn header_for(name: Seq<char>) -> Seq<char> {
    "\n>>> In "@ + name + "...\n"@
}

/// A rule of `len` underscores.
pub open spec fn rule_of(len: nat) -> Seq<char> {
    Seq::new(len, |i: int| '_')
}

/// One finding's block: the context line when there is one, a rule as long as
/// the emphasized line, then the emphasized line.
pub open spec fn finding_block(f: FindingV, tok_c: Seq<char>, tok_i: Seq<char>) -> Seq<char> {
    let fmt = emphasize_spec(line_label(f.line_number, f.line_contents), tok_c, tok_i);
    let ctx = match f.context_line_number {
        Some(cn) => line_label(cn, f.context_line) + "\n"@,
        None => Seq::<char>::empty(),
    };
    ctx + rule_of(fmt.len()) + "\n"@ + fmt + "\n"@
}

/// The blocks for the findings of index `i` and beyond, with a section header
/// wherever the file name differs from the one the previous block was under.
pub open spec fn render_items(
    fs: Seq<FindingV>,
    i: int,
    current: Seq<char>,
    tok_c: Seq<char>,
    tok_i: Seq<char>,
) -> Seq<char>
    decreases fs.len() - i when 0 <= i <= fs.len()
{
    if i >= fs.len() {
        Seq::empty()
    } else {
        let f = fs[i];
        let head = if f.file_name == current {
            Seq::<char>::empty()
        } else {
            header_for(f.file_name)
        };
        (head + finding_block(f, tok_c, tok_i)) + render_items(fs, i + 1, f.file_name, tok_c, tok_i)
    }
}

/// The closing count line, before styling.
pub open spec fn count_line(n: int) -> Seq<char> {
    "Found "@ + dec_rep(n) + " TODOs"@
}

/// The whole report for findings already in presentation order.
pub open spec fn render_spec(
    fs: Seq<FindingV>,
    tok_c: Seq<char>,
    tok_i: Seq<char>,
    styled_count: Seq<char>,
) -> Seq<char> {
    render_items(fs, 0, Seq::empty(), tok_c, tok_i) + styled_count
}

fn rule_string(len: usize) -> (r: String)
    ensures
        r@ == rule_of(len as nat),
{
    let mut out = String::new();
    let mut k: usize = 0;
    while k < len
        invariant
            k <= len,
            out@ =~= rule_of(k as nat),
        decreases len - k,
    {
        out.append("_");
        proof {
            reveal_strlit("_");
            assert(out@ =~= rule_of((k + 1) as nat));
        }
        k = k + 1;
    }
    out
}

/// Renders the findings in the order given, with the given emphasis tokens
/// and the given (already styled) count line.
#[verifier::rlimit(80)]
#[verifier::spinoff_prover]
pub fn render_with(
    findings: &Vec<Finding>,
    canonical_token: &str,
    informal_token: &str,
    styled_count: &str,
) -> (r: String)
    ensures
        r@ == render_spec(
            finding_views(findings@),
            canonical_token@,
            informal_token@,
            styled_count@,
        ),
{
    let ghost sv = finding_views(findings@);
    let ghost tc = canonical_token@;
    let ghost ti = informal_token@;
    let mut out = String::new();
    let mut current = String::new();
    let mut i: usize = 0;
    while i < findings.len()
        invariant
            sv == finding_views(findings@),
            tc == canonical_token@,
            ti == informal_token@,
            i <= findings.len(),
            current@ == if i == 0 {
                Seq::<char>::empty()
            } else {
                sv[i - 1].file_name
            },
            render_items(sv, 0, Seq::empty(), tc, ti) == out@ + render_items(
                sv,
                i as int,
                current@,
                tc,
                ti,
            ),
        decreases findings.len() - i,
    {
        let ghost out0 = out@;
        let ghost cur0 = current@;
        let f = &findings[i];
        let ghost fv = sv[i as int];
        proof {
            assert(fv == f@);
        }
        let mut piece = String::new();
        if !(current == f.file_name) {
            piece.append("\n>>> In ");
            piece.append(f.file_name.as_str());
            piece.append("...\n");
            proof {
                assert(piece@ =~= header_for(fv.file_name));
            }
        }
        current = f.file_name.clone();
        let ghost head_done = piece@;
        match f.context_line_number {
            Some(cn) => {
                piece.append("Line ");
                let cs = decimal_string(cn);
                piece.append(cs.as_str());
                piece.append(": ");
                piece.append(f.context_line.as_str());
                piece.append("\n");
                proof {
                    assert(piece@ =~= head_done + (line_label(cn as int, fv.context_line)
                        + "\n"@));
                }
            },
            None => {},
        }
        let ghost ctx_done = piece@;
        let mut label = String::new();
        label.append("Line ");
        let ns = decimal_string(f.line_number);
        label.append(ns.as_str());
        label.append(": ");
        label.append(f.line_contents.as_str());
        proof {
            assert(label@ =~= line_label(fv.line_number, fv.line_contents));
        }
        let fmt = crate::matcher::emphasize_with(label.as_str(), canonical_token, informal_token);
        let m = fmt.as_str().unicode_len();
        let ru = rule_string(m);
        piece.append(ru.as_str());
        piece.append("\n");
        piece.append(fmt.as_str());
        piece.append("\n");
        proof {
            let fmts = emphasize_spec(line_label(fv.line_number, fv.line_contents), tc, ti);
            let ctxs = match fv.context_line_number {
                Some(cn) => line_label(cn, fv.context_line) + "\n"@,
                None => Seq::<char>::empty(),
            };
            assert(ctx_done =~= head_done + ctxs);
            assert(piece@ =~= ctx_done + ((rule_of(fmts.len()) + "\n"@) + (fmts + "\n"@)));
            assert(finding_block(fv, tc, ti) =~= ctxs + ((rule_of(fmts.len()) + "\n"@) + (fmts
                + "\n"@)));
            assert(piece@ =~= head_done + finding_block(fv, tc, ti));
        }
        out.append(piece.as_str());
        proof {
            let head = if fv.file_name == cur0 {
                Seq::<char>::empty()
            } else {
                header_for(fv.file_name)
            };
            assert(head_done == head);
            let rest = render_items(sv, i + 1, fv.file_name, tc, ti);
            assert(render_items(sv, i as int, cur0, tc, ti) == (head + finding_block(fv, tc, ti))
                + rest);
            assert(out@ + rest =~= out0 + ((head + finding_block(fv, tc, ti)) + rest));
        }
        i = i + 1;
    }
    out.append(styled_count);
    proof {
        assert(render_items(sv, findings@.len() as int, current@, tc, ti) == Seq::<char>::empty());
        assert(out@ =~= render_items(sv, 0, Seq::empty(), tc, ti) + styled_count@);
    }
    out
}

/// Renders the report: the findings are stable-sorted by file identifier,
/// grouped by file name in that order, each matching line emphasized, and a
/// styled `Found N TODOs` line closes the report, `N` being the number of
/// findings.
pub fn render(findings: &Vec<Finding>) -> (r: String)
    ensures
        exists|sv: Seq<FindingV>, tok_c: Seq<char>, tok_i: Seq<char>, sc: Seq<char>|
            #![trigger render_spec(sv, tok_c, tok_i, sc)]
            {
                &&& sorted_by_file_id(sv)
                &&& forall|k: int|
                    #[trigger] same_file_findings(sv, k) == same_file_findings(
                        finding_views(findings@),
                        k,
                    )
                &&& wraps(tok_c, "TODO"@)
                &&& wraps(tok_i, "todo"@)
                &&& wraps(sc, count_line(findings@.len() as int))
                &&& r@ == render_spec(sv, tok_c, tok_i, sc)
            },
{
    let sorted = sort_findings(findings);
    proof {
        reveal_strlit("TODO");
        reveal_strlit("todo");
        assert(forall|i: int| 0 <= i < "TODO"@.len() ==> "TODO"@[i] != '\u{1b}');
        assert(forall|i: int| 0 <= i < "todo"@.len() ==> "todo"@[i] != '\u{1b}');
    }
    let tok_c = style_marker("TODO");
    let tok_i = style_marker("todo");
    let mut msg = String::new();
    msg.append("Found ");
    let cnt = decimal_string(findings.len());
    msg.append(cnt.as_str());
    msg.append(" TODOs");
    proof {
        let n = findings@.len() as int;
        assert(msg@ =~= count_line(n));
        reveal_strlit("Found ");
        reveal_strlit(" TODOs");
        lemma_dec_rep_no_esc(n);
        assert forall|i: int| 0 <= i < msg@.len() implies msg@[i] != '\u{1b}' by {
            if i < "Found "@.len() {
                assert(msg@[i] == "Found "@[i]);
            } else if i < "Found "@.len() + dec_rep(n).len() {
                assert(msg@[i] == dec_rep(n)[i - "Found "@.len()]);
            } else {
                assert(msg@[i] == " TODOs"@[i - "Found "@.len() - dec_rep(n).len()]);
            }
        }
    }
    let sc = style_marker(msg.as_str());
    let r = render_with(&sorted, tok_c.as_str(), tok_i.as_str(), sc.as_str());
    proof {
        let svw = finding_views(sorted@);
        assert(sorted_by_file_id(svw) && forall|k: int|
            #[trigger] same_file_findings(svw, k) == same_file_findings(
                finding_views(findings@),
                k,
            ));
        assert(wraps(tok_c@, "TODO"@) && wraps(tok_i@, "todo"@) && wraps(
            sc@,
            count_line(findings@.len() as int),
        ));
        assert(r@ == render_spec(svw, tok_c@, tok_i@, sc@));
    }
    r
}

} // verus!
