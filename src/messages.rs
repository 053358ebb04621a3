//! Log records: one sample per line, in the simple or the extended grammar.
use vstd::prelude::*;
use crate::lexical::{
    all_in_class, field_spans, float_literal_len, hex_value, lines_of, run_end, ByteClass,
};
use crate::lexical::{
    float_prefix_len, hex_to_u32, lemma_run_end, line_spans, line_spans_well_formed, scan_while,
    spans_as_int, split_fields, split_lines,
};
use crate::outcome::{
    accepted, diagnostic_of, outcome_agrees, reject, BadInput, BadInputView, ErrorKind,
    ParseOutcome, Verdict,
};
use crate::timestamp::{parse_ts, reconstruct, Rollover};

verus! {

/// One sample of a channel. The value is kept as the floating-point literal of
/// the log (with a decimal comma read as a point); `ts` is in nanoseconds.
#[derive(Debug)]
pub struct CanMsg {
    pub hex_id: u32,
    pub value: Vec<u8>,
    pub ts: u64,
}

pub struct CanMsgView {
    pub hex_id: u32,
    pub value: Seq<u8>,
    pub ts: u64,
}

impl View for CanMsg {
    type V = CanMsgView;

    open spec fn view(&self) -> CanMsgView {
        CanMsgView { hex_id: self.hex_id, value: self.value@, ts: self.ts }
    }
}

impl CanMsg {
    /// A copy of this sample.
    pub fn duplicate(&self) -> (r: CanMsg)
        ensures
            r@ == self@,
    {
        CanMsg { hex_id: self.hex_id, value: crate::descriptor::copy_bytes(&self.value), ts: self.ts }
    }
}

impl Default for CanMsg {
    /// Channel 0 at time 0 with value `0`.
    fn default() -> (r: CanMsg)
        ensures
            r@ == (CanMsgView { hex_id: 0, value: seq![0x30u8], ts: 0 }),
    {
        let mut value: Vec<u8> = Vec::new();
        value.push(0x30);
        assert(value@ =~= seq![0x30u8]);
        CanMsg { hex_id: 0, value, ts: 0 }
    }
}

/// The text of field `k` of `l`.
pub open spec fn field(l: Seq<u8>, k: int) -> Seq<u8> {
    let sp = field_spans(l);
    l.subrange(sp[k].0, sp[k].1)
}

/// `b` with every decimal comma made a point.
pub open spec fn with_decimal_point(b: Seq<u8>) -> Seq<u8> {
    b.map_values(
        |c: u8|
            if c == 0x2c {
                0x2eu8
            } else {
                c
            },
    )
}

/// The simple grammar: `0x<hex> <value> ... <timestamp>`. Lines whose first
/// field is not `0x` and hexadecimal digits, or with fewer than three fields,
/// hold no sample. Returns the verdict and the state for the next line.
pub open spec fn simple_verdict(l: Seq<u8>, st: Rollover) -> (Verdict<CanMsgView>, Rollover) {
    let sp = field_spans(l);
    let f0 = field(l, 0);
    if sp.len() < 3 {
        (Verdict::Skip, st)
    } else if !(f0.len() > 2 && f0[0] == 0x30 && f0[1] == 0x78 && run_end(
        f0,
        2,
        ByteClass::HexDigit,
    ) == f0.len()) {
        (Verdict::Skip, st)
    } else if hex_value(f0.subrange(2, f0.len() as int)) > u32::MAX {
        (Verdict::Reject(sp[0].0 + 2, ErrorKind::IdOutOfRange), st)
    } else {
        let v = with_decimal_point(field(l, 1));
        if float_literal_len(v) != Some(v.len() as int) {
            (Verdict::Reject(sp[1].0, ErrorKind::BadValue), st)
        } else {
            match reconstruct(field(l, sp.len() - 1), st) {
                Err(k) => (Verdict::Reject(sp[sp.len() - 1].0, k), st),
                Ok((ts, next)) => (
                    Verdict::Accept(
                        CanMsgView {
                            hex_id: hex_value(f0.subrange(2, f0.len() as int)) as u32,
                            value: v,
                            ts,
                        },
                    ),
                    next,
                ),
            }
        }
    }
}

/// The extended grammar: field 0 is a hexadecimal id, optionally `0x`-prefixed
/// (what follows its digits is ignored), field 10 starts with the value, the
/// last field is the timestamp. Lines of ten fields or fewer hold no sample.
pub open spec fn extended_verdict(l: Seq<u8>, st: Rollover) -> (Verdict<CanMsgView>, Rollover) {
    let sp = field_spans(l);
    let f0 = field(l, 0);
    let i0: int = if f0.len() >= 2 && f0[0] == 0x30 && f0[1] == 0x78 {
        2
    } else {
        0
    };
    let h = run_end(f0, i0, ByteClass::HexDigit);
    let f10 = field(l, 10);
    if sp.len() <= 10 {
        (Verdict::Skip, st)
    } else if h == i0 {
        (Verdict::Reject(sp[0].0 + i0, ErrorKind::BadHexId), st)
    } else if hex_value(f0.subrange(i0, h)) > u32::MAX {
        (Verdict::Reject(sp[0].0 + i0, ErrorKind::IdOutOfRange), st)
    } else {
        match float_literal_len(f10) {
            None => (Verdict::Reject(sp[10].0, ErrorKind::BadValue), st),
            Some(n) => match reconstruct(field(l, sp.len() - 1), st) {
                Err(k) => (Verdict::Reject(sp[sp.len() - 1].0, k), st),
                Ok((ts, next)) => (
                    Verdict::Accept(
                        CanMsgView {
                            hex_id: hex_value(f0.subrange(i0, h)) as u32,
                            value: f10.subrange(0, n),
                            ts,
                        },
                    ),
                    next,
                ),
            },
        }
    }
}

pub open spec fn record_verdict(l: Seq<u8>, is_extended: bool, st: Rollover) -> (
    Verdict<CanMsgView>,
    Rollover,
) {
    if is_extended {
        extended_verdict(l, st)
    } else {
        simple_verdict(l, st)
    }
}

fn decimal_point_copy(b: &[u8]) -> (r: Vec<u8>)
    ensures
        r@ == with_decimal_point(b@),
{
    let mut out: Vec<u8> = Vec::with_capacity(b.len());
    let mut i: usize = 0;
    while i < b.len()
        invariant
            i <= b@.len(),
            out@ == with_decimal_point(b@.take(i as int)),
        decreases b@.len() - i,
    {
        let c = if b[i] == 0x2c {
            0x2e
        } else {
            b[i]
        };
        out.push(c);
        assert(with_decimal_point(b@.take(i + 1)) =~= with_decimal_point(b@.take(i as int)).push(c));
        i = i + 1;
    }
    assert(b@.take(b@.len() as int) =~= b@);
    out
}

/// Parses one line in the simple grammar, in rollover state `st`.
pub fn parse_simple(line: &[u8], st: Rollover) -> (r: (ParseOutcome<CanMsg>, Rollover))
    ensures
        outcome_agrees(r.0, simple_verdict(line@, st).0, line@),
        r.1 == simple_verdict(line@, st).1,
{
    let spans = split_fields(line);
    if spans.len() < 3 {
        return (ParseOutcome::Skipped, st);
    }
    assert(spans_as_int(spans@)[0] == field_spans(line@)[0]);
    assert(spans_as_int(spans@)[1] == field_spans(line@)[1]);
    assert(spans_as_int(spans@)[spans@.len() - 1] == field_spans(line@)[spans@.len() - 1]);
    let f0 = vstd::slice::slice_subrange(line, spans[0].0, spans[0].1);
    assert(f0@ == field(line@, 0));
    if !(f0.len() > 2 && f0[0] == 0x30 && f0[1] == 0x78) {
        return (ParseOutcome::Skipped, st);
    }
    if scan_while(f0, 2, ByteClass::HexDigit) != f0.len() {
        return (ParseOutcome::Skipped, st);
    }
    let digits = vstd::slice::slice_subrange(f0, 2, f0.len());
    proof {
        lemma_run_end(f0@, 2, ByteClass::HexDigit);
        assert(all_in_class(digits@, ByteClass::HexDigit));
    }
    let hex_id = match hex_to_u32(digits) {
        Some(v) => v,
        None => {
            return (reject(line, spans[0].0 + 2, ErrorKind::IdOutOfRange), st);
        },
    };
    let f1 = vstd::slice::slice_subrange(line, spans[1].0, spans[1].1);
    assert(f1@ == field(line@, 1));
    let value = decimal_point_copy(f1);
    proof {
        crate::lexical::lemma_float_literal_len_bounds(value@);
    }
    match float_prefix_len(value.as_slice()) {
        Some(n) => {
            if n != value.len() {
                return (reject(line, spans[1].0, ErrorKind::BadValue), st);
            }
        },
        None => {
            return (reject(line, spans[1].0, ErrorKind::BadValue), st);
        },
    }
    assert(value@ == with_decimal_point(field(line@, 1)));
    assert(float_literal_len(value@) == Some(value@.len() as int));
    assert(hex_id == hex_value(field(line@, 0).subrange(2, field(line@, 0).len() as int)));
    let last = spans.len() - 1;
    let fl = vstd::slice::slice_subrange(line, spans[last].0, spans[last].1);
    assert(fl@ == field(line@, last as int));
    match parse_ts(fl, st) {
        Err(k) => (reject(line, spans[last].0, k), st),
        Ok((ts, next)) => (ParseOutcome::Parsed(CanMsg { hex_id, value, ts }), next),
    }
}

/// Parses one line in the extended grammar, in rollover state `st`.
pub fn parse_extended(line: &[u8], st: Rollover) -> (r: (ParseOutcome<CanMsg>, Rollover))
    ensures
        outcome_agrees(r.0, extended_verdict(line@, st).0, line@),
        r.1 == extended_verdict(line@, st).1,
{
    let spans = split_fields(line);
    if spans.len() <= 10 {
        return (ParseOutcome::Skipped, st);
    }
    assert(spans_as_int(spans@)[0] == field_spans(line@)[0]);
    assert(spans_as_int(spans@)[10] == field_spans(line@)[10]);
    assert(spans_as_int(spans@)[spans@.len() - 1] == field_spans(line@)[spans@.len() - 1]);
    let f0 = vstd::slice::slice_subrange(line, spans[0].0, spans[0].1);
    assert(f0@ == field(line@, 0));
    let i0: usize = if f0.len() >= 2 && f0[0] == 0x30 && f0[1] == 0x78 {
        2
    } else {
        0
    };
    proof {
        lemma_run_end(f0@, i0 as int, ByteClass::HexDigit);
    }
    let h = scan_while(f0, i0, ByteClass::HexDigit);
    if h == i0 {
        return (reject(line, spans[0].0 + i0, ErrorKind::BadHexId), st);
    }
    let digits = vstd::slice::slice_subrange(f0, i0, h);
    assert(all_in_class(digits@, ByteClass::HexDigit));
    let hex_id = match hex_to_u32(digits) {
        Some(v) => v,
        None => {
            return (reject(line, spans[0].0 + i0, ErrorKind::IdOutOfRange), st);
        },
    };
    let f10 = vstd::slice::slice_subrange(line, spans[10].0, spans[10].1);
    assert(f10@ == field(line@, 10));
    proof {
        crate::lexical::lemma_float_literal_len_bounds(f10@);
    }
    let n = match float_prefix_len(f10) {
        Some(n) => n,
        None => {
            return (reject(line, spans[10].0, ErrorKind::BadValue), st);
        },
    };
    let value = vstd::slice::slice_to_vec(vstd::slice::slice_subrange(f10, 0, n));
    let last = spans.len() - 1;
    let fl = vstd::slice::slice_subrange(line, spans[last].0, spans[last].1);
    assert(fl@ == field(line@, last as int));
    match parse_ts(fl, st) {
        Err(k) => (reject(line, spans[last].0, k), st),
        Ok((ts, next)) => (ParseOutcome::Parsed(CanMsg { hex_id, value, ts }), next),
    }
}

/// Parses one log line in the grammar that `is_extended` selects.
pub fn parse_record(line: &[u8], is_extended: bool, st: Rollover) -> (r: (
    ParseOutcome<CanMsg>,
    Rollover,
))
    ensures
        outcome_agrees(r.0, record_verdict(line@, is_extended, st).0, line@),
        r.1 == record_verdict(line@, is_extended, st).1,
{
    if is_extended {
        parse_extended(line, st)
    } else {
        parse_simple(line, st)
    }
}

pub open spec fn opt_seq<A>(o: Option<A>) -> Seq<A> {
    match o {
        Some(a) => seq![a],
        None => seq![],
    }
}

/// Samples, diagnostics and final state of a run of log lines read in order
/// from state `st`.
pub open spec fn log_run(lines: Seq<Seq<u8>>, is_extended: bool, st: Rollover) -> (
    Seq<CanMsgView>,
    Seq<BadInputView>,
    Rollover,
)
    decreases lines.len(),
{
    if lines.len() == 0 {
        (seq![], seq![], st)
    } else {
        let before = log_run(lines.drop_last(), is_extended, st);
        let v = record_verdict(lines.last(), is_extended, before.2);
        (
            before.0 + opt_seq(accepted(v.0)),
            before.1 + opt_seq(diagnostic_of(lines.last(), v.0)),
            v.1,
        )
    }
}

/// A malformed line leaves the rollover state as it was.
pub proof fn lemma_rejected_keeps_state(l: Seq<u8>, is_extended: bool, st: Rollover)
    requires
        record_verdict(l, is_extended, st).0 is Reject,
    ensures
        record_verdict(l, is_extended, st).1 == st,
{
}

/// A log of one record line and one malformed line, in either order, yields
/// exactly one sample and exactly one diagnostic, and the diagnostic holds the
/// malformed line.
pub proof fn lemma_one_good_one_bad(good: Seq<u8>, bad: Seq<u8>, is_extended: bool, st: Rollover)
    requires
        record_verdict(good, is_extended, st).0 is Accept,
        record_verdict(bad, is_extended, st).0 is Reject,
        record_verdict(bad, is_extended, record_verdict(good, is_extended, st).1).0 is Reject,
    ensures
        log_run(seq![good, bad], is_extended, st).0.len() == 1,
        log_run(seq![good, bad], is_extended, st).1.len() == 1,
        log_run(seq![good, bad], is_extended, st).1[0].src == bad,
        log_run(seq![bad, good], is_extended, st).0.len() == 1,
        log_run(seq![bad, good], is_extended, st).1.len() == 1,
        log_run(seq![bad, good], is_extended, st).1[0].src == bad,
{
    lemma_rejected_keeps_state(bad, is_extended, st);
    let gb = seq![good, bad];
    let bg = seq![bad, good];
    assert(gb.drop_last() =~= seq![good]);
    assert(seq![good].drop_last() =~= Seq::<Seq<u8>>::empty());
    assert(bg.drop_last() =~= seq![bad]);
    assert(seq![bad].drop_last() =~= Seq::<Seq<u8>>::empty());
    let r0 = log_run(Seq::<Seq<u8>>::empty(), is_extended, st);
    assert(r0.0.len() == 0 && r0.1.len() == 0 && r0.2 == st);
    let r1 = log_run(seq![good], is_extended, st);
    assert(seq![good].last() == good);
    assert(r1.2 == record_verdict(good, is_extended, st).1);
    assert(r1.0.len() == 1 && r1.1.len() == 0);
    assert(gb.last() == bad);
    let r2 = log_run(gb, is_extended, st);
    assert(r2.1 == r1.1 + opt_seq(diagnostic_of(bad, record_verdict(bad, is_extended, r1.2).0)));
    let b1 = log_run(seq![bad], is_extended, st);
    assert(seq![bad].last() == bad);
    assert(b1.2 == st);
    assert(b1.0.len() == 0 && b1.1.len() == 1);
    assert(bg.last() == good);
    let b2 = log_run(bg, is_extended, st);
    assert(b2.0 == b1.0 + opt_seq(accepted(record_verdict(good, is_extended, b1.2).0)));
    assert(b2.1 == b1.1 + opt_seq(diagnostic_of(good, record_verdict(good, is_extended, b1.2).0)));
}

/// The samples of a log file, the diagnostics of its malformed lines, and the
/// rollover state after its last line.
pub struct MessageParse {
    pub can_msgs: Vec<CanMsg>,
    pub problems: Vec<BadInput>,
    pub state: Rollover,
}

pub open spec fn msgs_view(v: Seq<CanMsg>) -> Seq<CanMsgView> {
    v.map_values(|m: CanMsg| m@)
}

/// Parses every line of a log file, starting in rollover state `st`; a bad
/// line is reported and skipped.
pub fn parse_messages(content: &[u8], is_extended: bool, st: Rollover) -> (r: MessageParse)
    ensures
        (msgs_view(r.can_msgs@), crate::header::problems_view(r.problems@), r.state) == log_run(
            lines_of(content@),
            is_extended,
            st,
        ),
{
    let spans = split_lines(content);
    let ghost lines = lines_of(content@);
    let mut can_msgs: Vec<CanMsg> = Vec::new();
    let mut problems: Vec<BadInput> = Vec::new();
    let mut state = st;
    let mut k: usize = 0;
    while k < spans.len()
        invariant
            k <= spans@.len(),
            spans_as_int(spans@) == line_spans(content@),
            line_spans_well_formed(content@, line_spans(content@)),
            lines == lines_of(content@),
            (msgs_view(can_msgs@), crate::header::problems_view(problems@), state) == log_run(
                lines.take(k as int),
                is_extended,
                st,
            ),
        decreases spans@.len() - k,
    {
        let (a, b) = spans[k];
        assert(line_spans(content@)[k as int] == (a as int, b as int));
        let line = vstd::slice::slice_subrange(content, a, b);
        assert(lines[k as int] == line@);
        assert(lines.take(k + 1).drop_last() =~= lines.take(k as int));
        assert(lines.take(k + 1).last() == line@);
        let ghost msgs_before = can_msgs@;
        let ghost problems_before = problems@;
        let (outcome, next) = parse_record(line, is_extended, state);
        match outcome {
            ParseOutcome::Parsed(m) => {
                can_msgs.push(m);
                assert(msgs_view(can_msgs@) =~= msgs_view(msgs_before) + seq![m@]);
                assert(crate::header::problems_view(problems@) =~= crate::header::problems_view(
                    problems_before,
                ) + seq![]);
            },
            ParseOutcome::Skipped => {
                assert(msgs_view(can_msgs@) =~= msgs_view(msgs_before) + seq![]);
                assert(crate::header::problems_view(problems@) =~= crate::header::problems_view(
                    problems_before,
                ) + seq![]);
            },
            ParseOutcome::Malformed(bad) => {
                problems.push(bad);
                assert(msgs_view(can_msgs@) =~= msgs_view(msgs_before) + seq![]);
                assert(crate::header::problems_view(problems@) =~= crate::header::problems_view(
                    problems_before,
                ) + seq![bad@]);
            },
        }
        state = next;
        k = k + 1;
    }
    assert(lines.take(spans@.len() as int) =~= lines);
    MessageParse { can_msgs, problems, state }
}

} // verus!
