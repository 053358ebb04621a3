//! The channel catalogue header: one `NAME = 0xID, // description|scale unit`
//! entry per relevant line of a C-style header file.
use vstd::prelude::*;
use crate::descriptor::{CanId, CanIdView};
use crate::lexical::{
    all_in_class, byte_at, float_literal_len, hex_value, in_class, is_blank, is_space, lines_of,
    literal_char, run_end, starts_at, trimmed, ByteClass,
};
use crate::lexical::{
    lemma_float_literal_chars, lemma_float_literal_extend, lemma_run_end_exact, lemma_trimmed,
};
use crate::lexical::{
    float_prefix_len, hex_to_u32, lemma_run_end, line_spans, scan_while, split_lines,
    starts_with_at, trim_blank,
};
use crate::outcome::{accepted, diagnostic_of, outcome_agrees, reject, BadInput, BadInputView};
use crate::outcome::{ErrorKind, ParseOutcome, Verdict};

verus! {

/// At `p`, `l` starts with a token that marks a line of C boilerplate rather
/// than an entry: a comment, a preprocessor directive, a brace, or one of the
/// words `enum`, `error`, `typedef`, `true`, `false` and `unsigned`.
pub open spec fn boilerplate_at(l: Seq<u8>, p: int) -> bool {
    ||| starts_at(l, p, seq![0x2au8])
    ||| starts_at(l, p, seq![0x23u8])
    ||| starts_at(l, p, seq![0x7bu8])
    ||| starts_at(l, p, seq![0x7du8])
    ||| starts_at(l, p, seq![0x2fu8, 0x2fu8])
    ||| starts_at(l, p, seq![0x2fu8, 0x2au8])
    ||| starts_at(l, p, seq![0x65u8, 0x6eu8, 0x75u8, 0x6du8])
    ||| starts_at(l, p, seq![0x65u8, 0x72u8, 0x72u8, 0x6fu8, 0x72u8])
    ||| starts_at(l, p, seq![0x74u8, 0x79u8, 0x70u8, 0x65u8, 0x64u8, 0x65u8, 0x66u8])
    ||| starts_at(l, p, seq![0x74u8, 0x72u8, 0x75u8, 0x65u8])
    ||| starts_at(l, p, seq![0x66u8, 0x61u8, 0x6cu8, 0x73u8, 0x65u8])
    ||| starts_at(l, p, seq![0x75u8, 0x6eu8, 0x73u8, 0x69u8, 0x67u8, 0x6eu8, 0x65u8, 0x64u8])
}

fn is_boilerplate(l: &[u8], p: usize) -> (r: bool)
    ensures
        r == boilerplate_at(l@, p as int),
{
    let star: [u8; 1] = [0x2a];
    assert(star@ =~= seq![0x2au8]);
    let hash: [u8; 1] = [0x23];
    assert(hash@ =~= seq![0x23u8]);
    let open_brace: [u8; 1] = [0x7b];
    assert(open_brace@ =~= seq![0x7bu8]);
    let close_brace: [u8; 1] = [0x7d];
    assert(close_brace@ =~= seq![0x7du8]);
    let line_comment: [u8; 2] = [0x2f, 0x2f];
    assert(line_comment@ =~= seq![0x2fu8, 0x2fu8]);
    let block_comment: [u8; 2] = [0x2f, 0x2a];
    assert(block_comment@ =~= seq![0x2fu8, 0x2au8]);
    let kw_enum: [u8; 4] = [0x65, 0x6e, 0x75, 0x6d];
    assert(kw_enum@ =~= seq![0x65u8, 0x6eu8, 0x75u8, 0x6du8]);
    let kw_error: [u8; 5] = [0x65, 0x72, 0x72, 0x6f, 0x72];
    assert(kw_error@ =~= seq![0x65u8, 0x72u8, 0x72u8, 0x6fu8, 0x72u8]);
    let kw_typedef: [u8; 7] = [0x74, 0x79, 0x70, 0x65, 0x64, 0x65, 0x66];
    assert(kw_typedef@ =~= seq![0x74u8, 0x79u8, 0x70u8, 0x65u8, 0x64u8, 0x65u8, 0x66u8]);
    let kw_true: [u8; 4] = [0x74, 0x72, 0x75, 0x65];
    assert(kw_true@ =~= seq![0x74u8, 0x72u8, 0x75u8, 0x65u8]);
    let kw_false: [u8; 5] = [0x66, 0x61, 0x6c, 0x73, 0x65];
    assert(kw_false@ =~= seq![0x66u8, 0x61u8, 0x6cu8, 0x73u8, 0x65u8]);
    let kw_unsigned: [u8; 8] = [0x75, 0x6e, 0x73, 0x69, 0x67, 0x6e, 0x65, 0x64];
    assert(kw_unsigned@ =~= seq![0x75u8, 0x6eu8, 0x73u8, 0x69u8, 0x67u8, 0x6eu8, 0x65u8, 0x64u8]);
    starts_with_at(l, p, &star)
        || starts_with_at(l, p, &hash)
        || starts_with_at(l, p, &open_brace)
        || starts_with_at(l, p, &close_brace)
        || starts_with_at(l, p, &line_comment)
        || starts_with_at(l, p, &block_comment)
        || starts_with_at(l, p, &kw_enum)
        || starts_with_at(l, p, &kw_error)
        || starts_with_at(l, p, &kw_typedef)
        || starts_with_at(l, p, &kw_true)
        || starts_with_at(l, p, &kw_false)
        || starts_with_at(l, p, &kw_unsigned)
}


/// The first `//` at or after `i`.
pub open spec fn find_comment(l: Seq<u8>, i: int) -> Option<int>
    decreases l.len() - i,
{
    if i < 0 || i + 1 >= l.len() {
        None
    } else if l[i] == 0x2f && l[i + 1] == 0x2f {
        Some(i)
    } else {
        find_comment(l, i + 1)
    }
}

fn find_comment_exec(l: &[u8], from: usize) -> (r: Option<usize>)
    ensures
        match find_comment(l@, from as int) {
            Some(q) => r == Some(q as usize),
            None => r is None,
        },
{
    let mut i = from;
    while l.len() > 0 && i < l.len() - 1
        invariant
            from <= i,
            find_comment(l@, i as int) == find_comment(l@, from as int),
        decreases l@.len() - i,
    {
        if l[i] == 0x2f && l[i + 1] == 0x2f {
            return Some(i);
        }
        i = i + 1;
    }
    None
}

/// The description field: absent when it holds only spaces, else its trimmed text.
pub open spec fn description_of(f: Seq<u8>) -> Option<Seq<u8>> {
    if run_end(f, 0, ByteClass::Space) == f.len() {
        None
    } else {
        Some(trimmed(f))
    }
}

/// The unit that follows the scale literal, if any text follows it.
pub open spec fn unit_of(rest: Seq<u8>) -> Option<Seq<u8>> {
    if run_end(rest, 0, ByteClass::Space) == rest.len() {
        None
    } else {
        Some(trimmed(rest))
    }
}

/// The scale and the unit in the second field of the comment: a floating-point
/// literal at its start is the scale, and whatever text remains is the unit.
pub open spec fn scale_unit_of(f: Seq<u8>) -> (Option<Seq<u8>>, Option<Seq<u8>>) {
    let r = f.subrange(run_end(f, 0, ByteClass::Space), f.len() as int);
    if r.len() == 0 {
        (None, None)
    } else {
        match float_literal_len(r) {
            Some(n) => (Some(r.subrange(0, n)), unit_of(r.subrange(n, r.len() as int))),
            None => (None, unit_of(r)),
        }
    }
}

/// Description, scale and unit from the text after `//`; fields are separated
/// by `|`, and those after the second are ignored.
pub open spec fn comment_fields(c: Seq<u8>) -> (Option<Seq<u8>>, Option<Seq<u8>>, Option<Seq<u8>>) {
    let k0 = run_end(c, 0, ByteClass::NotBar);
    let d = description_of(c.subrange(0, k0));
    if k0 < c.len() {
        let k1 = run_end(c, k0 + 1, ByteClass::NotBar);
        let su = scale_unit_of(c.subrange(k0 + 1, k1));
        (d, su.0, su.1)
    } else {
        (d, None, None)
    }
}

fn unit_exec(rest: &[u8]) -> (r: Option<Vec<u8>>)
    ensures
        crate::descriptor::opt_bytes_view(r) == unit_of(rest@),
{
    let b = scan_while(rest, 0, ByteClass::Space);
    if b == rest.len() {
        None
    } else {
        Some(vstd::slice::slice_to_vec(trim_blank(rest)))
    }
}

fn scale_unit_exec(f: &[u8]) -> (r: (Option<Vec<u8>>, Option<Vec<u8>>))
    ensures
        crate::descriptor::opt_bytes_view(r.0) == scale_unit_of(f@).0,
        crate::descriptor::opt_bytes_view(r.1) == scale_unit_of(f@).1,
{
    proof {
        lemma_run_end(f@, 0, ByteClass::Space);
    }
    let a = scan_while(f, 0, ByteClass::Space);
    let r = vstd::slice::slice_subrange(f, a, f.len());
    if r.len() == 0 {
        return (None, None);
    }
    proof {
        crate::lexical::lemma_float_literal_len_bounds(r@);
    }
    match float_prefix_len(r) {
        Some(n) => {
            let scale = vstd::slice::slice_to_vec(vstd::slice::slice_subrange(r, 0, n));
            let unit = unit_exec(vstd::slice::slice_subrange(r, n, r.len()));
            (Some(scale), unit)
        },
        None => (None, unit_exec(r)),
    }
}

/// Reads description, scale and unit from the text that follows `//`.
pub fn parse_comment(c: &[u8]) -> (r: (Option<Vec<u8>>, Option<Vec<u8>>, Option<Vec<u8>>))
    ensures
        crate::descriptor::opt_bytes_view(r.0) == comment_fields(c@).0,
        crate::descriptor::opt_bytes_view(r.1) == comment_fields(c@).1,
        crate::descriptor::opt_bytes_view(r.2) == comment_fields(c@).2,
{
    proof {
        lemma_run_end(c@, 0, ByteClass::NotBar);
    }
    let k0 = scan_while(c, 0, ByteClass::NotBar);
    let f0 = vstd::slice::slice_subrange(c, 0, k0);
    let s0 = scan_while(f0, 0, ByteClass::Space);
    let d = if s0 == f0.len() {
        None
    } else {
        Some(vstd::slice::slice_to_vec(trim_blank(f0)))
    };
    if k0 < c.len() {
        proof {
            lemma_run_end(c@, k0 + 1, ByteClass::NotBar);
        }
        let k1 = scan_while(c, k0 + 1, ByteClass::NotBar);
        let su = scale_unit_exec(vstd::slice::slice_subrange(c, k0 + 1, k1));
        (d, su.0, su.1)
    } else {
        (d, None, None)
    }
}

/// What the catalogue grammar makes of one header line.
pub open spec fn header_verdict(l: Seq<u8>) -> Verdict<CanIdView> {
    let p = run_end(l, 0, ByteClass::Space);
    if p == l.len() || boilerplate_at(l, p) {
        Verdict::Skip
    } else {
        let e = run_end(l, p, ByteClass::NonSpace);
        let w1 = run_end(l, e, ByteClass::Multispace);
        if w1 == e || !byte_at(l, w1, 0x3d) {
            Verdict::Reject(w1, ErrorKind::MissingEquals)
        } else {
            let w2 = run_end(l, w1 + 1, ByteClass::Multispace);
            if w2 == w1 + 1 {
                Verdict::Reject(w2, ErrorKind::MissingEquals)
            } else if !(byte_at(l, w2, 0x30) && (byte_at(l, w2 + 1, 0x78) || byte_at(
                l,
                w2 + 1,
                0x58,
            ))) {
                Verdict::Reject(w2, ErrorKind::MissingHexLiteral)
            } else {
                let h = run_end(l, w2 + 2, ByteClass::HexDigit);
                let id = hex_value(l.subrange(w2 + 2, h));
                if h == w2 + 2 {
                    Verdict::Reject(h, ErrorKind::MissingHexLiteral)
                } else if id > u32::MAX {
                    Verdict::Reject(w2 + 2, ErrorKind::IdOutOfRange)
                } else {
                    match find_comment(l, h) {
                        None => Verdict::Reject(h, ErrorKind::MissingComment),
                        Some(q) => {
                            let f = comment_fields(l.subrange(q + 2, l.len() as int));
                            Verdict::Accept(
                                CanIdView {
                                    hex_id: id as u32,
                                    str_id: Some(l.subrange(p, e)),
                                    description: f.0,
                                    scale: f.1,
                                    unit: f.2,
                                },
                            )
                        },
                    }
                }
            }
        }
    }
}

pub proof fn lemma_find_comment_bounds(l: Seq<u8>, i: int)
    ensures
        find_comment(l, i) matches Some(q) ==> 0 <= i <= q && q + 2 <= l.len(),
    decreases l.len() - i,
{
    if !(i < 0 || i + 1 >= l.len()) && !(l[i] == 0x2f && l[i + 1] == 0x2f) {
        lemma_find_comment_bounds(l, i + 1);
    }
}

/// Parses one line of the catalogue header.
pub fn parse_line(line: &[u8]) -> (r: ParseOutcome<CanId>)
    ensures
        outcome_agrees(r, header_verdict(line@), line@),
{
    let l = line;
    proof {
        lemma_run_end(l@, 0, ByteClass::Space);
    }
    let p = scan_while(l, 0, ByteClass::Space);
    if p == l.len() || is_boilerplate(l, p) {
        return ParseOutcome::Skipped;
    }
    proof {
        lemma_run_end(l@, p as int, ByteClass::NonSpace);
    }
    let e = scan_while(l, p, ByteClass::NonSpace);
    proof {
        lemma_run_end(l@, e as int, ByteClass::Multispace);
    }
    let w1 = scan_while(l, e, ByteClass::Multispace);
    if w1 == e || w1 >= l.len() || l[w1] != 0x3d {
        return reject(l, w1, ErrorKind::MissingEquals);
    }
    proof {
        lemma_run_end(l@, w1 + 1, ByteClass::Multispace);
    }
    let w2 = scan_while(l, w1 + 1, ByteClass::Multispace);
    if w2 == w1 + 1 {
        return reject(l, w2, ErrorKind::MissingEquals);
    }
    if !(w2 < l.len() && w2 + 1 < l.len() && l[w2] == 0x30 && (l[w2 + 1] == 0x78 || l[w2 + 1] == 0x58)) {
        return reject(l, w2, ErrorKind::MissingHexLiteral);
    }
    proof {
        lemma_run_end(l@, w2 + 2, ByteClass::HexDigit);
    }
    let h = scan_while(l, w2 + 2, ByteClass::HexDigit);
    if h == w2 + 2 {
        return reject(l, h, ErrorKind::MissingHexLiteral);
    }
    let digits = vstd::slice::slice_subrange(l, w2 + 2, h);
    assert(all_in_class(digits@, ByteClass::HexDigit));
    let hex_id = match hex_to_u32(digits) {
        Some(v) => v,
        None => {
            return reject(l, w2 + 2, ErrorKind::IdOutOfRange);
        },
    };
    proof {
        lemma_find_comment_bounds(l@, h as int);
    }
    let q = match find_comment_exec(l, h) {
        Some(q) => q,
        None => {
            return reject(l, h, ErrorKind::MissingComment);
        },
    };
    let fields = parse_comment(vstd::slice::slice_subrange(l, q + 2, l.len()));
    let name = vstd::slice::slice_to_vec(vstd::slice::slice_subrange(l, p, e));
    let r = CanId {
        hex_id,
        str_id: Some(name),
        description: fields.0,
        scale: fields.1,
        unit: fields.2,
    };
    ParseOutcome::Parsed(r)
}

/// What one line contributes to the catalogue.
pub open spec fn header_entry(l: Seq<u8>) -> Option<CanIdView> {
    accepted(header_verdict(l))
}

/// The diagnostic one line contributes.
pub open spec fn header_problem(l: Seq<u8>) -> Option<BadInputView> {
    diagnostic_of(l, header_verdict(l))
}

/// The descriptors of a header file, in file order, and the diagnostics of the
/// lines that broke the grammar.
pub struct CatalogueParse {
    pub can_ids: Vec<CanId>,
    pub problems: Vec<BadInput>,
}

pub open spec fn ids_view(v: Seq<CanId>) -> Seq<CanIdView> {
    v.map_values(|c: CanId| c@)
}

pub open spec fn problems_view(v: Seq<BadInput>) -> Seq<BadInputView> {
    v.map_values(|b: BadInput| b@)
}

/// Parses every line of a header file; a bad line is reported and skipped.
pub fn parse_canids(content: &[u8]) -> (r: CatalogueParse)
    ensures
        ids_view(r.can_ids@) == lines_of(content@).filter_map(|l: Seq<u8>| header_entry(l)),
        problems_view(r.problems@) == lines_of(content@).filter_map(
            |l: Seq<u8>| header_problem(l),
        ),
{
    let spans = split_lines(content);
    let ghost lines = lines_of(content@);
    let mut can_ids: Vec<CanId> = Vec::new();
    let mut problems: Vec<BadInput> = Vec::new();
    let mut k: usize = 0;
    while k < spans.len()
        invariant
            k <= spans@.len(),
            crate::lexical::spans_as_int(spans@) == line_spans(content@),
            crate::lexical::line_spans_well_formed(content@, line_spans(content@)),
            lines == lines_of(content@),
            ids_view(can_ids@) == lines.take(k as int).filter_map(|l: Seq<u8>| header_entry(l)),
            problems_view(problems@) == lines.take(k as int).filter_map(|l: Seq<u8>| header_problem(l)),
        decreases spans@.len() - k,
    {
        let (a, b) = spans[k];
        assert(line_spans(content@)[k as int] == (a as int, b as int));
        let line = vstd::slice::slice_subrange(content, a, b);
        assert(lines[k as int] == line@);
        proof {
            lines.lemma_filter_map_take_succ(|l: Seq<u8>| header_entry(l), k as int);
            lines.lemma_filter_map_take_succ(|l: Seq<u8>| header_problem(l), k as int);
        }
        let ghost ids_before = can_ids@;
        let ghost problems_before = problems@;
        let outcome = parse_line(line);
        match outcome {
            ParseOutcome::Parsed(c) => {
                can_ids.push(c);
                assert(ids_view(can_ids@) =~= ids_view(ids_before).push(c@));
            },
            ParseOutcome::Skipped => {},
            ParseOutcome::Malformed(bad) => {
                problems.push(bad);
                assert(problems_view(problems@) =~= problems_view(problems_before).push(bad@));
            },
        }
        assert(ids_view(can_ids@) =~= lines.take(k + 1).filter_map(|l: Seq<u8>| header_entry(l)));
        assert(problems_view(problems@) =~= lines.take(k + 1).filter_map(|l: Seq<u8>| header_problem(l)));
        k = k + 1;
    }
    assert(lines.take(spans@.len() as int) =~= lines);
    CatalogueParse { can_ids, problems }
}


pub open spec fn opt_text(o: Option<Seq<u8>>) -> Seq<u8> {
    match o {
        Some(t) => t,
        None => seq![],
    }
}

/// The second comment field written for a scale and a unit: both separated by a
/// space, or whichever of them there is.
pub open spec fn scale_unit_text(scale: Option<Seq<u8>>, unit: Option<Seq<u8>>) -> Seq<u8> {
    match (scale, unit) {
        (Some(sc), Some(u)) => sc + seq![0x20u8] + u,
        (Some(sc), None) => sc,
        (None, Some(u)) => u,
        (None, None) => seq![],
    }
}

/// The header line `NAME = 0xHEX // DESCRIPTION|SCALE UNIT` for a descriptor.
pub open spec fn header_line(
    name: Seq<u8>,
    hex: Seq<u8>,
    description: Option<Seq<u8>>,
    scale: Option<Seq<u8>>,
    unit: Option<Seq<u8>>,
) -> Seq<u8> {
    name + seq![0x20u8, 0x3du8, 0x20u8, 0x30u8, 0x78u8] + hex + seq![0x20u8, 0x2fu8, 0x2fu8, 0x20u8]
        + opt_text(description) + seq![0x7cu8] + scale_unit_text(scale, unit)
}

/// Text that a comment field can hold and give back as it is: not empty, no
/// blank at either end, and no `|`.
pub open spec fn plain_field(t: Seq<u8>) -> bool {
    &&& t.len() > 0
    &&& !is_blank(t[0])
    &&& !is_blank(t[t.len() - 1])
    &&& forall|i: int| 0 <= i < t.len() ==> #[trigger] t[i] != 0x7c
}

proof fn lemma_word_prefix(name: Seq<u8>, rest: Seq<u8>, w: Seq<u8>)
    requires
        rest.len() > 0,
        rest[0] == 0x20,
        forall|i: int| 0 <= i < w.len() ==> #[trigger] w[i] != 0x20,
    ensures
        starts_at(name + rest, 0, w) == starts_at(name, 0, w),
{
    let l = name + rest;
    if w.len() <= name.len() {
        assert(l.subrange(0, w.len() as int) =~= name.subrange(0, w.len() as int));
    } else if w.len() <= l.len() {
        assert(l.subrange(0, w.len() as int)[name.len() as int] == 0x20);
    }
}

proof fn lemma_boilerplate_prefix(name: Seq<u8>, rest: Seq<u8>)
    requires
        rest.len() > 0,
        rest[0] == 0x20,
    ensures
        boilerplate_at(name + rest, 0) == boilerplate_at(name, 0),
{
    lemma_word_prefix(name, rest, seq![0x2au8]);
    lemma_word_prefix(name, rest, seq![0x23u8]);
    lemma_word_prefix(name, rest, seq![0x7bu8]);
    lemma_word_prefix(name, rest, seq![0x7du8]);
    lemma_word_prefix(name, rest, seq![0x2fu8, 0x2fu8]);
    lemma_word_prefix(name, rest, seq![0x2fu8, 0x2au8]);
    lemma_word_prefix(name, rest, seq![0x65u8, 0x6eu8, 0x75u8, 0x6du8]);
    lemma_word_prefix(name, rest, seq![0x65u8, 0x72u8, 0x72u8, 0x6fu8, 0x72u8]);
    lemma_word_prefix(name, rest, seq![0x74u8, 0x79u8, 0x70u8, 0x65u8, 0x64u8, 0x65u8, 0x66u8]);
    lemma_word_prefix(name, rest, seq![0x74u8, 0x72u8, 0x75u8, 0x65u8]);
    lemma_word_prefix(name, rest, seq![0x66u8, 0x61u8, 0x6cu8, 0x73u8, 0x65u8]);
    lemma_word_prefix(
        name,
        rest,
        seq![0x75u8, 0x6eu8, 0x73u8, 0x69u8, 0x67u8, 0x6eu8, 0x65u8, 0x64u8],
    );
}

/// A plain field after the space that follows its separator reads back as itself.
proof fn lemma_spaced_field(t: Seq<u8>)
    requires
        plain_field(t),
    ensures
        run_end(seq![0x20u8] + t, 0, ByteClass::Space) == 1,
        trimmed(seq![0x20u8] + t) == t,
        description_of(seq![0x20u8] + t) == Some(t),
        unit_of(seq![0x20u8] + t) == Some(t),
{
    let f = seq![0x20u8] + t;
    assert(f[1] == t[0]);
    lemma_run_end_exact(f, 0, 1, ByteClass::Space);
    assert(f[f.len() - 1] == t[t.len() - 1]);
    lemma_trimmed(f, 1);
    assert(f.subrange(1, f.len() as int) =~= t);
}

proof fn lemma_scale_unit_round_trip(scale: Option<Seq<u8>>, unit: Option<Seq<u8>>)
    requires
        scale matches Some(sc) ==> float_literal_len(sc) == Some(sc.len() as int),
        unit matches Some(u) ==> plain_field(u),
        scale is None ==> (unit matches Some(u) ==> float_literal_len(u) is None),
    ensures
        scale_unit_of(scale_unit_text(scale, unit)) == (scale, unit),
{
    let f = scale_unit_text(scale, unit);
    match scale {
        Some(sc) => {
            lemma_float_literal_chars(sc);
            crate::lexical::lemma_float_literal_len_bounds(sc);
            assert(literal_char(sc[0]));
            assert(f[0] == sc[0]);
            lemma_run_end_exact(f, 0, 0, ByteClass::Space);
            assert(f.subrange(0, f.len() as int) =~= f);
            match unit {
                Some(u) => {
                    let rest = seq![0x20u8] + u;
                    assert(f =~= sc + rest);
                    lemma_float_literal_extend(sc, rest);
                    assert(f.subrange(0, sc.len() as int) =~= sc);
                    assert(f.subrange(sc.len() as int, f.len() as int) =~= rest);
                    lemma_spaced_field(u);
                },
                None => {
                    assert(f.subrange(0, sc.len() as int) =~= sc);
                    assert(run_end(f.subrange(sc.len() as int, f.len() as int), 0, ByteClass::Space)
                        == 0);
                },
            }
        },
        None => {
            match unit {
                Some(u) => {
                    lemma_run_end_exact(f, 0, 0, ByteClass::Space);
                    assert(f.subrange(0, f.len() as int) =~= f);
                    lemma_trimmed(u, 0);
                    assert(u.subrange(0, u.len() as int) =~= u);
                },
                None => {
                    assert(run_end(f, 0, ByteClass::Space) == 0);
                },
            }
        },
    }
}

proof fn lemma_comment_fields_round_trip(
    description: Option<Seq<u8>>,
    scale: Option<Seq<u8>>,
    unit: Option<Seq<u8>>,
)
    requires
        description matches Some(d) ==> plain_field(d),
        scale matches Some(sc) ==> float_literal_len(sc) == Some(sc.len() as int),
        unit matches Some(u) ==> plain_field(u),
        scale is None ==> (unit matches Some(u) ==> float_literal_len(u) is None),
    ensures
        comment_fields(
            seq![0x20u8] + opt_text(description) + seq![0x7cu8] + scale_unit_text(scale, unit),
        ) == (description, scale, unit),
{
    let d = opt_text(description);
    let f = scale_unit_text(scale, unit);
    let c = seq![0x20u8] + d + seq![0x7cu8] + f;
    let k0: int = 1 + d.len() as int;
    assert(c[k0] == 0x7c);
    assert forall|k: int| 0 <= k < k0 implies #[trigger] in_class(ByteClass::NotBar, c[k]) by {
        if k > 0 {
            assert(c[k] == d[k - 1]);
        }
    }
    lemma_run_end_exact(c, 0, k0, ByteClass::NotBar);
    assert(c.subrange(0, k0) =~= seq![0x20u8] + d);
    match description {
        Some(t) => {
            lemma_spaced_field(t);
        },
        None => {
            lemma_run_end_exact(seq![0x20u8], 0, 1, ByteClass::Space);
            assert(seq![0x20u8] + d =~= seq![0x20u8]);
        },
    }
    if let Some(sc) = scale {
        lemma_float_literal_chars(sc);
    }
    assert forall|k: int| k0 + 1 <= k < c.len() implies #[trigger] in_class(ByteClass::NotBar, c[k]) by {
        assert(c[k] == f[k - k0 - 1]);
        let j = k - k0 - 1;
        match (scale, unit) {
            (Some(sc), Some(u)) => {
                if j < sc.len() {
                    assert(f[j] == sc[j]);
                    assert(literal_char(sc[j]));
                } else if j > sc.len() {
                    assert(f[j] == u[j - sc.len() - 1]);
                }
            },
            (Some(sc), None) => {
                assert(literal_char(sc[j]));
            },
            _ => {},
        }
    }
    lemma_run_end_exact(c, k0 + 1, c.len() as int, ByteClass::NotBar);
    assert(c.subrange(k0 + 1, c.len() as int) =~= f);
    lemma_scale_unit_round_trip(scale, unit);
}

/// Where the parts of an entry line `NAME = 0xHEX//...` lie.
proof fn lemma_entry_head(name: Seq<u8>, hex: Seq<u8>, tail: Seq<u8>)
    requires
        name.len() > 0,
        forall|i: int| 0 <= i < name.len() ==> !is_space(#[trigger] name[i]),
        !boilerplate_at(name, 0),
        hex.len() > 0,
        all_in_class(hex, ByteClass::HexDigit),
        tail.len() >= 3,
        tail[0] == 0x20,
        tail[1] == 0x2f,
        tail[2] == 0x2f,
    ensures
        ({
            let l = name + seq![0x20u8, 0x3du8, 0x20u8, 0x30u8, 0x78u8] + hex + tail;
            let n = name.len() as int;
            let h = n + 5 + hex.len();
            &&& run_end(l, 0, ByteClass::Space) == 0
            &&& 0 < l.len()
            &&& !boilerplate_at(l, 0)
            &&& run_end(l, 0, ByteClass::NonSpace) == n
            &&& run_end(l, n, ByteClass::Multispace) == n + 1
            &&& byte_at(l, n + 1, 0x3d)
            &&& run_end(l, n + 2, ByteClass::Multispace) == n + 3
            &&& byte_at(l, n + 3, 0x30)
            &&& byte_at(l, n + 4, 0x78)
            &&& run_end(l, n + 5, ByteClass::HexDigit) == h
            &&& l.subrange(n + 5, h) == hex
            &&& l.subrange(0, n) == name
            &&& find_comment(l, h) == Some(h + 1)
            &&& l.subrange(h + 3, l.len() as int) == tail.subrange(3, tail.len() as int)
        }),
{
    let l = name + seq![0x20u8, 0x3du8, 0x20u8, 0x30u8, 0x78u8] + hex + tail;
    let n = name.len() as int;
    let h = n + 5 + hex.len();
    let rest = l.subrange(n, l.len() as int);
    assert(l =~= name + rest);
    assert(rest[0] == 0x20);
    lemma_boilerplate_prefix(name, rest);
    assert(l[0] == name[0]);
    lemma_run_end_exact(l, 0, 0, ByteClass::Space);
    assert forall|k: int| 0 <= k < n implies #[trigger] in_class(ByteClass::NonSpace, l[k]) by {
        assert(l[k] == name[k]);
    }
    lemma_run_end_exact(l, 0, n, ByteClass::NonSpace);
    assert(l[n] == 0x20 && l[n + 1] == 0x3d && l[n + 2] == 0x20 && l[n + 3] == 0x30 && l[n + 4]
        == 0x78);
    lemma_run_end_exact(l, n, n + 1, ByteClass::Multispace);
    lemma_run_end_exact(l, n + 2, n + 3, ByteClass::Multispace);
    assert forall|k: int| n + 5 <= k < h implies #[trigger] in_class(ByteClass::HexDigit, l[k]) by {
        assert(l[k] == hex[k - n - 5]);
        assert(in_class(ByteClass::HexDigit, hex[k - n - 5]));
    }
    assert(l[h] == 0x20 && l[h + 1] == 0x2f && l[h + 2] == 0x2f);
    lemma_run_end_exact(l, n + 5, h, ByteClass::HexDigit);
    assert(l.subrange(n + 5, h) =~= hex);
    assert(l.subrange(0, n) =~= name);
    assert(find_comment(l, h + 1) == Some(h + 1));
    assert(find_comment(l, h) == Some(h + 1));
    assert(l.subrange(h + 3, l.len() as int) =~= tail.subrange(3, tail.len() as int));
}

proof fn lemma_entry_verdict(l: Seq<u8>, n: int, h: int, name: Seq<u8>, hex: Seq<u8>, c: Seq<u8>)
    requires
        run_end(l, 0, ByteClass::Space) == 0,
        0 < l.len(),
        !boilerplate_at(l, 0),
        run_end(l, 0, ByteClass::NonSpace) == n,
        run_end(l, n, ByteClass::Multispace) == n + 1,
        byte_at(l, n + 1, 0x3d),
        run_end(l, n + 2, ByteClass::Multispace) == n + 3,
        byte_at(l, n + 3, 0x30),
        byte_at(l, n + 4, 0x78),
        run_end(l, n + 5, ByteClass::HexDigit) == h,
        h > n + 5,
        l.subrange(n + 5, h) == hex,
        hex_value(hex) <= u32::MAX,
        l.subrange(0, n) == name,
        find_comment(l, h) == Some(h + 1),
        l.subrange(h + 3, l.len() as int) == c,
    ensures
        header_verdict(l) == Verdict::Accept(
            CanIdView {
                hex_id: hex_value(hex) as u32,
                str_id: Some(name),
                description: comment_fields(c).0,
                scale: comment_fields(c).1,
                unit: comment_fields(c).2,
            },
        ),
{
}

/// The catalogue grammar reads a header line written for a descriptor back as
/// exactly that descriptor: its id (written in any hexadecimal spelling), name,
/// description, scale and unit. The name must be a single token that is not C
/// boilerplate; description and unit must be plain fields; a scale must be a
/// complete floating-point literal, and a unit written without a scale must not
/// start with one (it would be read as the scale).
#[verifier::rlimit(60)]
pub proof fn lemma_header_round_trip(
    id: u32,
    name: Seq<u8>,
    hex: Seq<u8>,
    description: Option<Seq<u8>>,
    scale: Option<Seq<u8>>,
    unit: Option<Seq<u8>>,
)
    requires
        name.len() > 0,
        forall|i: int| 0 <= i < name.len() ==> !is_space(#[trigger] name[i]),
        !boilerplate_at(name, 0),
        hex.len() > 0,
        all_in_class(hex, ByteClass::HexDigit),
        hex_value(hex) == id,
        description matches Some(d) ==> plain_field(d),
        scale matches Some(sc) ==> float_literal_len(sc) == Some(sc.len() as int),
        unit matches Some(u) ==> plain_field(u),
        scale is None ==> (unit matches Some(u) ==> float_literal_len(u) is None),
    ensures
        header_verdict(header_line(name, hex, description, scale, unit)) == Verdict::Accept(
            CanIdView { hex_id: id, str_id: Some(name), description, scale, unit },
        ),
{
    let c = seq![0x20u8] + opt_text(description) + seq![0x7cu8] + scale_unit_text(scale, unit);
    let tail = seq![0x20u8, 0x2fu8, 0x2fu8] + c;
    let l = header_line(name, hex, description, scale, unit);
    assert(l =~= name + seq![0x20u8, 0x3du8, 0x20u8, 0x30u8, 0x78u8] + hex + tail);
    lemma_entry_head(name, hex, tail);
    assert(tail.subrange(3, tail.len() as int) =~= c);
    let n = name.len() as int;
    lemma_entry_verdict(l, n, n + 5 + hex.len(), name, hex, c);
    lemma_comment_fields_round_trip(description, scale, unit);
}

} // verus!
