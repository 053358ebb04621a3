//! Annotations: free-text comments on the log, one per line, as
//! `<id> [<date>] HH:MM:SS <text>`.
use vstd::prelude::*;
use crate::lexical::{byte_at, decimal_value, lines_of, run_end, trimmed, ByteClass};
use crate::lexical::{
    decimal_to_u64, lemma_run_end, line_spans, line_spans_well_formed, scan_while, spans_as_int,
    split_lines, trim_blank,
};
use crate::messages::opt_seq;
use crate::outcome::{
    accepted, diagnostic_of, outcome_agrees, reject, BadInput, BadInputView, ErrorKind,
    ParseOutcome, Verdict,
};
use crate::timestamp::{ns_fits, ns_of, to_timestamp, Rollover};

verus! {

/// One annotation: the number it carries, when it was written (in
/// nanoseconds), and its text.
#[derive(Debug)]
pub struct CanCmt {
    pub id: u32,
    pub ts: u64,
    pub value: Vec<u8>,
}

pub struct CanCmtView {
    pub id: u32,
    pub ts: u64,
    pub value: Seq<u8>,
}

impl View for CanCmt {
    type V = CanCmtView;

    open spec fn view(&self) -> CanCmtView {
        CanCmtView { id: self.id, ts: self.ts, value: self.value@ }
    }
}

/// A clock time `HH:MM:SS` at `p` followed by white space: the ends of its
/// three digit runs.
pub open spec fn clock_at(l: Seq<u8>, p: int) -> Option<(int, int, int)> {
    let h = run_end(l, p, ByteClass::Digit);
    let m = run_end(l, h + 1, ByteClass::Digit);
    let s = run_end(l, m + 1, ByteClass::Digit);
    if h > p && byte_at(l, h, 0x3a) && m > h + 1 && byte_at(l, m, 0x3a) && s > m + 1 && run_end(
        l,
        s,
        ByteClass::Multispace,
    ) > s {
        Some((h, m, s))
    } else {
        None
    }
}

/// Where the clock time of an annotation line starts: after the id and white
/// space, past a run of date characters and more white space when there is a
/// clock time there, or else right there.
pub open spec fn clock_start(l: Seq<u8>, w1: int) -> Option<int> {
    let j = run_end(l, w1, ByteClass::DateChar);
    let w2 = run_end(l, j, ByteClass::Multispace);
    if j > w1 && w2 > j && clock_at(l, w2) is Some {
        Some(w2)
    } else if clock_at(l, w1) is Some {
        Some(w1)
    } else {
        None
    }
}

/// What the annotation grammar makes of one line in rollover state `st`, and
/// the state for the next line. Lines that do not match are skipped.
pub open spec fn comment_verdict(l: Seq<u8>, st: Rollover) -> (Verdict<CanCmtView>, Rollover) {
    let d = run_end(l, 0, ByteClass::Digit);
    let w1 = run_end(l, d, ByteClass::Multispace);
    if d == 0 || w1 == d {
        (Verdict::Skip, st)
    } else {
        match clock_start(l, w1) {
            None => (Verdict::Skip, st),
            Some(p) => {
                let (h, m, s) = clock_at(l, p).unwrap();
                let hour = decimal_value(l.subrange(p, h));
                let flag = st.surpassed_midnight || st.last_hour - hour == 23;
                let v = ns_of(
                    hour,
                    decimal_value(l.subrange(h + 1, m)),
                    decimal_value(l.subrange(m + 1, s)),
                    0,
                    0,
                    flag,
                );
                if decimal_value(l.subrange(0, d)) > u32::MAX {
                    (Verdict::Reject(0, ErrorKind::IdOutOfRange), st)
                } else if v > u64::MAX {
                    (Verdict::Reject(p, ErrorKind::TimestampOutOfRange), st)
                } else {
                    let text = trimmed(l.subrange(s, l.len() as int));
                    (
                        Verdict::Accept(
                            CanCmtView {
                                id: decimal_value(l.subrange(0, d)) as u32,
                                ts: v as u64,
                                value: text,
                            },
                        ),
                        Rollover { last_hour: hour as u64, surpassed_midnight: flag },
                    )
                }
            },
        }
    }
}

fn clock_at_exec(l: &[u8], p: usize) -> (r: Option<(usize, usize, usize)>)
    requires
        p <= l@.len(),
    ensures
        r is None <==> clock_at(l@, p as int) is None,
        r matches Some(t) ==> clock_at(l@, p as int) == Some((t.0 as int, t.1 as int, t.2 as int))
            && p < t.0 < t.1 < t.2 <= l@.len(),
{
    proof {
        lemma_run_end(l@, p as int, ByteClass::Digit);
    }
    let h = scan_while(l, p, ByteClass::Digit);
    if !(h > p && h < l.len() && l[h] == 0x3a) {
        return None;
    }
    proof {
        lemma_run_end(l@, h + 1, ByteClass::Digit);
    }
    let m = scan_while(l, h + 1, ByteClass::Digit);
    if !(m > h + 1 && m < l.len() && l[m] == 0x3a) {
        return None;
    }
    proof {
        lemma_run_end(l@, m + 1, ByteClass::Digit);
    }
    let s = scan_while(l, m + 1, ByteClass::Digit);
    if !(s > m + 1) {
        return None;
    }
    proof {
        lemma_run_end(l@, s as int, ByteClass::Multispace);
    }
    if scan_while(l, s, ByteClass::Multispace) > s {
        Some((h, m, s))
    } else {
        None
    }
}

/// Parses one annotation line in rollover state `st`.
pub fn parse_comment_line(line: &[u8], st: Rollover) -> (r: (ParseOutcome<CanCmt>, Rollover))
    ensures
        outcome_agrees(r.0, comment_verdict(line@, st).0, line@),
        r.1 == comment_verdict(line@, st).1,
{
    let l = line;
    proof {
        lemma_run_end(l@, 0, ByteClass::Digit);
    }
    let d = scan_while(l, 0, ByteClass::Digit);
    proof {
        lemma_run_end(l@, d as int, ByteClass::Multispace);
    }
    let w1 = scan_while(l, d, ByteClass::Multispace);
    if d == 0 || w1 == d {
        return (ParseOutcome::Skipped, st);
    }
    proof {
        lemma_run_end(l@, w1 as int, ByteClass::DateChar);
    }
    let j = scan_while(l, w1, ByteClass::DateChar);
    proof {
        lemma_run_end(l@, j as int, ByteClass::Multispace);
    }
    let w2 = scan_while(l, j, ByteClass::Multispace);
    let c2 = if j > w1 && w2 > j {
        clock_at_exec(l, w2)
    } else {
        None
    };
    let p = if c2.is_some() {
        w2
    } else {
        w1
    };
    let clock = if c2.is_some() {
        c2
    } else {
        clock_at_exec(l, w1)
    };
    let (h, m, s) = match clock {
        Some(t) => t,
        None => {
            return (ParseOutcome::Skipped, st);
        },
    };
    assert(clock_at(l@, p as int) == Some((h as int, m as int, s as int)));
    assert(clock_start(l@, w1 as int) == Some(p as int));
    proof {
        lemma_run_end(l@, p as int, ByteClass::Digit);
        lemma_run_end(l@, h + 1, ByteClass::Digit);
        lemma_run_end(l@, m + 1, ByteClass::Digit);
    }
    let hour = decimal_to_u64(vstd::slice::slice_subrange(l, p, h));
    let min = decimal_to_u64(vstd::slice::slice_subrange(l, h + 1, m));
    let sec = decimal_to_u64(vstd::slice::slice_subrange(l, m + 1, s));
    let id = decimal_to_u64(vstd::slice::slice_subrange(l, 0, d));
    let id = match id {
        Some(v) if v <= u32::MAX as u64 => v as u32,
        _ => {
            return (reject(l, 0, ErrorKind::IdOutOfRange), st);
        },
    };
    let ghost hv = decimal_value(l@.subrange(p as int, h as int));
    let ghost mv = decimal_value(l@.subrange(h + 1, m as int));
    let ghost sv = decimal_value(l@.subrange(m + 1, s as int));
    let ghost gflag = st.surpassed_midnight || st.last_hour - hv == 23;
    if hour.is_none() || min.is_none() || sec.is_none() {
        assert(ns_of(hv, mv, sv, 0, 0, gflag) >= hv + mv + sv);
        return (reject(l, p, ErrorKind::TimestampOutOfRange), st);
    }
    let hour = hour.unwrap();
    let min = min.unwrap();
    let sec = sec.unwrap();
    let flag = st.surpassed_midnight || (st.last_hour >= hour && st.last_hour - hour == 23);
    if !ns_fits(hour, min, sec, 0, 0, flag) {
        return (reject(l, p, ErrorKind::TimestampOutOfRange), st);
    }
    let ts = to_timestamp(hour, min, sec, 0, 0, flag);
    let text = vstd::slice::slice_to_vec(trim_blank(vstd::slice::slice_subrange(l, s, l.len())));
    (ParseOutcome::Parsed(CanCmt { id, ts, value: text }), Rollover { last_hour: hour, surpassed_midnight: flag })
}


/// Annotations, diagnostics and final state of a run of annotation lines read
/// in order from state `st`.
pub open spec fn comment_run(lines: Seq<Seq<u8>>, st: Rollover) -> (
    Seq<CanCmtView>,
    Seq<BadInputView>,
    Rollover,
)
    decreases lines.len(),
{
    if lines.len() == 0 {
        (seq![], seq![], st)
    } else {
        let before = comment_run(lines.drop_last(), st);
        let v = comment_verdict(lines.last(), before.2);
        (
            before.0 + opt_seq(accepted(v.0)),
            before.1 + opt_seq(diagnostic_of(lines.last(), v.0)),
            v.1,
        )
    }
}

/// The annotations of a comments file and the diagnostics of its bad lines.
pub struct CommentParse {
    pub comments: Vec<CanCmt>,
    pub problems: Vec<BadInput>,
}

pub open spec fn cmts_view(v: Seq<CanCmt>) -> Seq<CanCmtView> {
    v.map_values(|c: CanCmt| c@)
}

/// Parses every line of a comments file, with its own rollover state from the
/// start of the file; lines that do not match are skipped.
pub fn parse_comments(content: &[u8]) -> (r: CommentParse)
    ensures
        cmts_view(r.comments@) == comment_run(lines_of(content@), crate::timestamp::initial_rollover()).0,
        crate::header::problems_view(r.problems@) == comment_run(
            lines_of(content@),
            crate::timestamp::initial_rollover(),
        ).1,
{
    let spans = split_lines(content);
    let ghost lines = lines_of(content@);
    let st0 = Rollover::new();
    let mut comments: Vec<CanCmt> = Vec::new();
    let mut problems: Vec<BadInput> = Vec::new();
    let mut state = st0;
    let mut k: usize = 0;
    while k < spans.len()
        invariant
            k <= spans@.len(),
            spans_as_int(spans@) == line_spans(content@),
            line_spans_well_formed(content@, line_spans(content@)),
            lines == lines_of(content@),
            st0 == crate::timestamp::initial_rollover(),
            (cmts_view(comments@), crate::header::problems_view(problems@), state) == comment_run(
                lines.take(k as int),
                st0,
            ),
        decreases spans@.len() - k,
    {
        let (a, b) = spans[k];
        assert(line_spans(content@)[k as int] == (a as int, b as int));
        let line = vstd::slice::slice_subrange(content, a, b);
        assert(lines[k as int] == line@);
        assert(lines.take(k + 1).drop_last() =~= lines.take(k as int));
        assert(lines.take(k + 1).last() == line@);
        let ghost cmts_before = comments@;
        let ghost problems_before = problems@;
        let (outcome, next) = parse_comment_line(line, state);
        match outcome {
            ParseOutcome::Parsed(c) => {
                comments.push(c);
                assert(cmts_view(comments@) =~= cmts_view(cmts_before) + seq![c@]);
                assert(crate::header::problems_view(problems@) =~= crate::header::problems_view(
                    problems_before,
                ) + seq![]);
            },
            ParseOutcome::Skipped => {
                assert(cmts_view(comments@) =~= cmts_view(cmts_before) + seq![]);
                assert(crate::header::problems_view(problems@) =~= crate::header::problems_view(
                    problems_before,
                ) + seq![]);
            },
            ParseOutcome::Malformed(bad) => {
                problems.push(bad);
                assert(cmts_view(comments@) =~= cmts_view(cmts_before) + seq![]);
                assert(crate::header::problems_view(problems@) =~= crate::header::problems_view(
                    problems_before,
                ) + seq![bad@]);
            },
        }
        state = next;
        k = k + 1;
    }
    assert(lines.take(spans@.len() as int) =~= lines);
    CommentParse { comments, problems }
}

} // verus!
