//! Byte-level primitives shared by every grammar of the crate.
use vstd::prelude::*;

verus! {

/// The classes of bytes that the grammars scan over.
#[derive(Clone, Copy, PartialEq, Eq, Debug)]
pub enum ByteClass {
    /// A space or a horizontal tab.
    Space,
    /// A space, a tab, a carriage return or a line feed.
    Multispace,
    /// An ASCII decimal digit.
    Digit,
    /// An ASCII hexadecimal digit, in either case.
    HexDigit,
    /// Anything but a space or a horizontal tab.
    NonSpace,
    /// ASCII white space as trimming understands it (tab to carriage return, space).
    Blank,
    /// Anything but a vertical bar.
    NotBar,
    /// A digit, a colon, a point or a hyphen, as in a date or a clock time.
    DateChar,
}

pub open spec fn is_space(b: u8) -> bool {
    b == 0x20 || b == 0x09
}

pub open spec fn is_multispace(b: u8) -> bool {
    is_space(b) || b == 0x0d || b == 0x0a
}

pub open spec fn is_digit(b: u8) -> bool {
    0x30 <= b <= 0x39
}

pub open spec fn is_hex_digit(b: u8) -> bool {
    is_digit(b) || (0x41 <= b <= 0x46) || (0x61 <= b <= 0x66)
}

pub open spec fn is_blank(b: u8) -> bool {
    (0x09 <= b <= 0x0d) || b == 0x20
}

pub open spec fn in_class(c: ByteClass, b: u8) -> bool {
    match c {
        ByteClass::Space => is_space(b),
        ByteClass::Multispace => is_multispace(b),
        ByteClass::Digit => is_digit(b),
        ByteClass::HexDigit => is_hex_digit(b),
        ByteClass::NonSpace => !is_space(b),
        ByteClass::Blank => is_blank(b),
        ByteClass::NotBar => b != 0x7c,
        ByteClass::DateChar => is_digit(b) || b == 0x3a || b == 0x2e || b == 0x2d,
    }
}

pub fn class_contains(c: ByteClass, b: u8) -> (r: bool)
    ensures
        r == in_class(c, b),
{
    match c {
        ByteClass::Space => b == 0x20 || b == 0x09,
        ByteClass::Multispace => b == 0x20 || b == 0x09 || b == 0x0d || b == 0x0a,
        ByteClass::Digit => 0x30 <= b && b <= 0x39,
        ByteClass::HexDigit => (0x30 <= b && b <= 0x39) || (0x41 <= b && b <= 0x46) || (0x61 <= b
            && b <= 0x66),
        ByteClass::NonSpace => !(b == 0x20 || b == 0x09),
        ByteClass::Blank => (0x09 <= b && b <= 0x0d) || b == 0x20,
        ByteClass::NotBar => b != 0x7c,
        ByteClass::DateChar => (0x30 <= b && b <= 0x39) || b == 0x3a || b == 0x2e || b == 0x2d,
    }
}

/// Every byte of `s` belongs to class `c`.
pub open spec fn all_in_class(s: Seq<u8>, c: ByteClass) -> bool {
    forall|i: int| 0 <= i < s.len() ==> #[trigger] in_class(c, s[i])
}

/// The end of the longest run of class `c` that starts at `i`.
pub open spec fn run_end(s: Seq<u8>, i: int, c: ByteClass) -> int
    decreases s.len() - i,
{
    if 0 <= i < s.len() && in_class(c, s[i]) {
        run_end(s, i + 1, c)
    } else {
        i
    }
}

/// The start of the longest run of class `c` that ends at `j`.
pub open spec fn run_start_back(s: Seq<u8>, j: int, c: ByteClass) -> int
    decreases j,
{
    if 0 < j <= s.len() && in_class(c, s[j - 1]) {
        run_start_back(s, j - 1, c)
    } else {
        j
    }
}

pub proof fn lemma_run_end(s: Seq<u8>, i: int, c: ByteClass)
    requires
        0 <= i <= s.len(),
    ensures
        i <= run_end(s, i, c) <= s.len(),
        forall|k: int| i <= k < run_end(s, i, c) ==> #[trigger] in_class(c, s[k]),
        run_end(s, i, c) == s.len() || !in_class(c, s[run_end(s, i, c)]),
    decreases s.len() - i,
{
    if i < s.len() && in_class(c, s[i]) {
        lemma_run_end(s, i + 1, c);
    }
}

pub proof fn lemma_run_start_back(s: Seq<u8>, j: int, c: ByteClass)
    requires
        0 <= j <= s.len(),
    ensures
        0 <= run_start_back(s, j, c) <= j,
        forall|k: int| run_start_back(s, j, c) <= k < j ==> #[trigger] in_class(c, s[k]),
        run_start_back(s, j, c) == 0 || !in_class(c, s[run_start_back(s, j, c) - 1]),
    decreases j,
{
    if 0 < j && in_class(c, s[j - 1]) {
        lemma_run_start_back(s, j - 1, c);
    }
}

/// Skips the bytes of class `c` from `start` on and returns where the run ends.
pub fn scan_while(s: &[u8], start: usize, c: ByteClass) -> (end: usize)
    requires
        start <= s@.len(),
    ensures
        end == run_end(s@, start as int, c),
{
    let mut i = start;
    while i < s.len() && class_contains(c, s[i])
        invariant
            start <= i <= s@.len(),
            run_end(s@, i as int, c) == run_end(s@, start as int, c),
        decreases s@.len() - i,
    {
        i = i + 1;
    }
    i
}

/// Walks back over the bytes of class `c` that end at `end`.
pub fn scan_back_while(s: &[u8], end: usize, c: ByteClass) -> (start: usize)
    requires
        end <= s@.len(),
    ensures
        start == run_start_back(s@, end as int, c),
{
    let mut j = end;
    while j > 0 && class_contains(c, s[j - 1])
        invariant
            j <= end <= s@.len(),
            run_start_back(s@, j as int, c) == run_start_back(s@, end as int, c),
        decreases j,
    {
        j = j - 1;
    }
    j
}

/// The value of a digit in base 16 (and so also in base 10).
pub open spec fn digit_of(b: u8) -> nat {
    if is_digit(b) {
        (b - 0x30) as nat
    } else if 0x41 <= b <= 0x46 {
        (b - 0x41 + 10) as nat
    } else if 0x61 <= b <= 0x66 {
        (b - 0x61 + 10) as nat
    } else {
        0
    }
}

/// The number that the digits `s` write in base `radix`, most significant first.
pub open spec fn radix_value(s: Seq<u8>, radix: nat) -> nat
    decreases s.len(),
{
    if s.len() == 0 {
        0
    } else {
        radix_value(s.drop_last(), radix) * radix + digit_of(s.last())
    }
}

pub open spec fn decimal_value(s: Seq<u8>) -> nat {
    radix_value(s, 10)
}

pub open spec fn hex_value(s: Seq<u8>) -> nat {
    radix_value(s, 16)
}

/// A longer prefix of a digit string never writes a smaller number.
pub proof fn lemma_radix_value_prefix(s: Seq<u8>, radix: nat, i: int, j: int)
    requires
        0 <= i <= j <= s.len(),
        radix >= 1,
    ensures
        radix_value(s.take(i), radix) <= radix_value(s.take(j), radix),
    decreases j - i,
{
    if i < j {
        lemma_radix_value_prefix(s, radix, i, j - 1);
        assert(s.take(j).drop_last() =~= s.take(j - 1));
        let v = radix_value(s.take(j - 1), radix);
        assert(v * radix >= v) by (nonlinear_arith)
            requires
                radix >= 1,
        ;
    }
}

/// Reads a run of decimal digits; `None` when the number does not fit in 64 bits.
pub fn decimal_to_u64(input: &[u8]) -> (r: Option<u64>)
    requires
        all_in_class(input@, ByteClass::Digit),
    ensures
        r is Some <==> decimal_value(input@) <= u64::MAX,
        r matches Some(v) ==> v == decimal_value(input@),
{
    let mut acc: u64 = 0;
    let mut i: usize = 0;
    while i < input.len()
        invariant
            0 <= i <= input@.len(),
            all_in_class(input@, ByteClass::Digit),
            acc == decimal_value(input@.take(i as int)),
        decreases input@.len() - i,
    {
        assert(in_class(ByteClass::Digit, input@[i as int]));
        let d = (input[i] - 0x30) as u64;
        assert(input@.take(i + 1).drop_last() =~= input@.take(i as int));
        assert(input@.take(i + 1).last() == input@[i as int]);
        assert(decimal_value(input@.take(i + 1)) == acc * 10 + d);
        match acc.checked_mul(10) {
            None => {
                proof {
                    lemma_radix_value_prefix(input@, 10, i + 1, input@.len() as int);
                    assert(input@.take(input@.len() as int) =~= input@);
                }
                return None;
            },
            Some(m) => match m.checked_add(d) {
                None => {
                    proof {
                        lemma_radix_value_prefix(input@, 10, i + 1, input@.len() as int);
                        assert(input@.take(input@.len() as int) =~= input@);
                    }
                    return None;
                },
                Some(n) => {
                    acc = n;
                },
            },
        }
        i = i + 1;
    }
    assert(input@.take(input@.len() as int) =~= input@);
    Some(acc)
}

/// Reads a run of decimal digits, as the number and the count of digits.
/// `None` when either does not fit its type.
pub fn bytes_to_number(input: &[u8]) -> (r: Option<(u64, u32)>)
    requires
        all_in_class(input@, ByteClass::Digit),
    ensures
        r is Some <==> decimal_value(input@) <= u64::MAX && input@.len() <= u32::MAX,
        r matches Some(p) ==> p.0 == decimal_value(input@) && p.1 == input@.len(),
{
    if input.len() > u32::MAX as usize {
        return None;
    }
    match decimal_to_u64(input) {
        Some(v) => Some((v, input.len() as u32)),
        None => None,
    }
}

/// Reads a run of hexadecimal digits as a `u32`; `None` when the number does not fit.
pub fn hex_to_u32(input: &[u8]) -> (r: Option<u32>)
    requires
        all_in_class(input@, ByteClass::HexDigit),
    ensures
        r is Some <==> hex_value(input@) <= u32::MAX,
        r matches Some(v) ==> v == hex_value(input@),
{
    let mut acc: u32 = 0;
    let mut i: usize = 0;
    while i < input.len()
        invariant
            0 <= i <= input@.len(),
            all_in_class(input@, ByteClass::HexDigit),
            acc == hex_value(input@.take(i as int)),
        decreases input@.len() - i,
    {
        let b = input[i];
        assert(in_class(ByteClass::HexDigit, input@[i as int]));
        let d: u32 = if b <= 0x39 {
            (b - 0x30) as u32
        } else if b <= 0x46 {
            (b - 0x41 + 10) as u32
        } else {
            (b - 0x61 + 10) as u32
        };
        assert(d == digit_of(b));
        assert(input@.take(i + 1).drop_last() =~= input@.take(i as int));
        assert(input@.take(i + 1).last() == input@[i as int]);
        assert(hex_value(input@.take(i + 1)) == acc * 16 + d);
        match acc.checked_mul(16) {
            None => {
                proof {
                    lemma_radix_value_prefix(input@, 16, i + 1, input@.len() as int);
                    assert(input@.take(input@.len() as int) =~= input@);
                }
                return None;
            },
            Some(m) => match m.checked_add(d) {
                None => {
                    proof {
                        lemma_radix_value_prefix(input@, 16, i + 1, input@.len() as int);
                        assert(input@.take(input@.len() as int) =~= input@);
                    }
                    return None;
                },
                Some(n) => {
                    acc = n;
                },
            },
        }
        i = i + 1;
    }
    assert(input@.take(input@.len() as int) =~= input@);
    Some(acc)
}


/// `s` has byte `b` at position `i`.
pub open spec fn byte_at(s: Seq<u8>, i: int, b: u8) -> bool {
    0 <= i < s.len() && s[i] == b
}

pub open spec fn sign_at(s: Seq<u8>, i: int) -> bool {
    byte_at(s, i, 0x2b) || byte_at(s, i, 0x2d)
}

pub open spec fn ascii_lower(b: u8) -> u8 {
    if 0x41 <= b <= 0x5a {
        (b + 0x20) as u8
    } else {
        b
    }
}

/// `s` starts with the lower-case word `w`, compared without regard to ASCII case.
pub open spec fn starts_with_no_case(s: Seq<u8>, w: Seq<u8>) -> bool {
    &&& s.len() >= w.len()
    &&& forall|i: int| 0 <= i < w.len() ==> #[trigger] ascii_lower(s[i]) == w[i]
}

/// Where the mantissa of a decimal literal at the start of `s` ends: an optional
/// sign, then digits with an optional point and optional fraction digits, or a
/// point followed by at least one digit.
pub open spec fn mantissa_end(s: Seq<u8>) -> Option<int> {
    let i0: int = if sign_at(s, 0) {
        1
    } else {
        0
    };
    let d = run_end(s, i0, ByteClass::Digit);
    if d > i0 {
        if byte_at(s, d, 0x2e) {
            Some(run_end(s, d + 1, ByteClass::Digit))
        } else {
            Some(d)
        }
    } else if byte_at(s, i0, 0x2e) && run_end(s, i0 + 1, ByteClass::Digit) > i0 + 1 {
        Some(run_end(s, i0 + 1, ByteClass::Digit))
    } else {
        None
    }
}

/// The length of the floating-point literal at the start of `s`, if there is one:
/// a mantissa with an optional exponent (`e` or `E`, an optional sign, and digits
/// that must follow), or else the word `nan` or `inf` in any case.
pub open spec fn float_literal_len(s: Seq<u8>) -> Option<int> {
    match mantissa_end(s) {
        Some(m) => if byte_at(s, m, 0x65) || byte_at(s, m, 0x45) {
            let k = if sign_at(s, m + 1) {
                m + 2
            } else {
                m + 1
            };
            let e = run_end(s, k, ByteClass::Digit);
            if e > k {
                Some(e)
            } else {
                None
            }
        } else {
            Some(m)
        },
        None => if starts_with_no_case(s, seq![0x6eu8, 0x61u8, 0x6eu8]) || starts_with_no_case(
            s,
            seq![0x69u8, 0x6eu8, 0x66u8],
        ) {
            Some(3)
        } else {
            None
        },
    }
}

pub proof fn lemma_float_literal_len_bounds(s: Seq<u8>)
    ensures
        float_literal_len(s) matches Some(n) ==> 0 < n <= s.len(),
{
    let i0: int = if sign_at(s, 0) {
        1
    } else {
        0
    };
    lemma_run_end(s, i0, ByteClass::Digit);
    let d = run_end(s, i0, ByteClass::Digit);
    if d > i0 && byte_at(s, d, 0x2e) {
        lemma_run_end(s, d + 1, ByteClass::Digit);
    }
    if i0 + 1 <= s.len() {
        lemma_run_end(s, i0 + 1, ByteClass::Digit);
    }
    if let Some(m) = mantissa_end(s) {
        if byte_at(s, m, 0x65) || byte_at(s, m, 0x45) {
            let k = if sign_at(s, m + 1) {
                m + 2
            } else {
                m + 1
            };
            if k <= s.len() {
                lemma_run_end(s, k, ByteClass::Digit);
            }
        }
    }
}

/// Relies on `nom::number::complete::float` (nom 7): it reads the literal that
/// `float_literal_len` measures (its `recognize_float_or_exceptions`, whose every
/// match `str::parse` accepts) and hands back the input that follows it; it fails
/// where there is no such literal.
#[verifier::external_body]
fn float_rest_len(input: &[u8]) -> (r: Option<usize>)
    ensures
        match float_literal_len(input@) {
            Some(n) => r == Some((input@.len() - n) as usize),
            None => r is None,
        },
{
    match nom::number::complete::float::<&[u8], nom::error::Error<&[u8]>>(input) {
        Ok((rest, _)) => Some(rest.len()),
        Err(_) => None,
    }
}

/// The length of the floating-point literal that starts `s`, if any.
pub fn float_prefix_len(s: &[u8]) -> (r: Option<usize>)
    ensures
        match float_literal_len(s@) {
            Some(n) => r == Some(n as usize),
            None => r is None,
        },
{
    proof {
        lemma_float_literal_len_bounds(s@);
    }
    match float_rest_len(s) {
        Some(rest) => Some(s.len() - rest),
        None => None,
    }
}

pub proof fn lemma_run_start_back_stops(s: Seq<u8>, j: int, c: ByteClass, a: int)
    requires
        0 <= a < j <= s.len(),
        !in_class(c, s[a]),
    ensures
        run_start_back(s, j, c) > a,
    decreases j,
{
    if j - 1 > a && in_class(c, s[j - 1]) {
        lemma_run_start_back_stops(s, j - 1, c, a);
    }
}

/// Where the text of `s` lies once the blanks on both sides are dropped.
pub open spec fn trim_bounds(s: Seq<u8>) -> (int, int) {
    let a = run_end(s, 0, ByteClass::Blank);
    if a == s.len() {
        (a, a)
    } else {
        (a, run_start_back(s, s.len() as int, ByteClass::Blank))
    }
}

/// `s` without its leading and trailing blanks.
pub open spec fn trimmed(s: Seq<u8>) -> Seq<u8> {
    s.subrange(trim_bounds(s).0, trim_bounds(s).1)
}

pub proof fn lemma_trim_bounds(s: Seq<u8>)
    ensures
        0 <= trim_bounds(s).0 <= trim_bounds(s).1 <= s.len(),
{
    lemma_run_end(s, 0, ByteClass::Blank);
    lemma_run_start_back(s, s.len() as int, ByteClass::Blank);
    let a = run_end(s, 0, ByteClass::Blank);
    if a < s.len() {
        lemma_run_start_back_stops(s, s.len() as int, ByteClass::Blank, a);
    }
}

/// Drops the blanks on both sides of `s`.
pub fn trim_blank(s: &[u8]) -> (r: &[u8])
    ensures
        r@ == trimmed(s@),
{
    proof {
        lemma_trim_bounds(s@);
    }
    let a = scan_while(s, 0, ByteClass::Blank);
    if a == s.len() {
        return vstd::slice::slice_subrange(s, a, a);
    }
    let b = scan_back_while(s, s.len(), ByteClass::Blank);
    vstd::slice::slice_subrange(s, a, b)
}

/// The fields of `s` from position `i` on: maximal runs of bytes that are neither
/// a space nor a tab. `start` is where the field being read began, or -1.
pub open spec fn spans_from(s: Seq<u8>, i: int, start: int) -> Seq<(int, int)>
    decreases s.len() - i,
{
    if i >= s.len() {
        if start >= 0 {
            seq![(start, s.len() as int)]
        } else {
            seq![]
        }
    } else if is_space(s[i]) {
        if start >= 0 {
            seq![(start, i)] + spans_from(s, i + 1, -1)
        } else {
            spans_from(s, i + 1, -1)
        }
    } else {
        spans_from(
            s,
            i + 1,
            if start >= 0 {
                start
            } else {
                i
            },
        )
    }
}

/// Where each whitespace-separated field of `s` starts and ends; runs of spaces
/// and tabs separate, and produce no empty field.
pub open spec fn field_spans(s: Seq<u8>) -> Seq<(int, int)> {
    spans_from(s, 0, -1)
}

pub open spec fn spans_well_formed(s: Seq<u8>, sp: Seq<(int, int)>) -> bool {
    forall|k: int| 0 <= k < sp.len() ==> 0 <= (#[trigger] sp[k]).0 < sp[k].1 <= s.len()
}

pub proof fn lemma_spans_from_bounds(s: Seq<u8>, i: int, start: int)
    requires
        0 <= i <= s.len(),
        start < i,
        start >= -1,
    ensures
        spans_well_formed(s, spans_from(s, i, start)),
    decreases s.len() - i,
{
    if i < s.len() {
        if is_space(s[i]) {
            lemma_spans_from_bounds(s, i + 1, -1);
        } else {
            lemma_spans_from_bounds(
                s,
                i + 1,
                if start >= 0 {
                    start
                } else {
                    i
                },
            );
        }
    }
}

pub open spec fn spans_as_int(v: Seq<(usize, usize)>) -> Seq<(int, int)> {
    v.map_values(|p: (usize, usize)| (p.0 as int, p.1 as int))
}

/// Splits `s` into its whitespace-separated fields, as (start, end) positions.
pub fn split_fields(s: &[u8]) -> (r: Vec<(usize, usize)>)
    ensures
        spans_as_int(r@) == field_spans(s@),
        spans_well_formed(s@, field_spans(s@)),
{
    proof {
        lemma_spans_from_bounds(s@, 0, -1);
    }
    let mut out: Vec<(usize, usize)> = Vec::new();
    let mut i: usize = 0;
    let mut in_field = false;
    let mut start: usize = 0;
    while i < s.len()
        invariant
            i <= s@.len(),
            in_field ==> start < i,
            spans_as_int(out@) + spans_from(
                s@,
                i as int,
                if in_field {
                    start as int
                } else {
                    -1
                },
            ) == field_spans(s@),
        decreases s@.len() - i,
    {
        let ghost st: int = if in_field {
            start as int
        } else {
            -1
        };
        if s[i] == 0x20 || s[i] == 0x09 {
            if in_field {
                let ghost before = out@;
                out.push((start, i));
                proof {
                    assert(spans_as_int(out@) =~= spans_as_int(before) + seq![(start as int, i as int)]);
                    assert(spans_as_int(out@) + spans_from(s@, i + 1, -1) =~= spans_as_int(before)
                        + (seq![(start as int, i as int)] + spans_from(s@, i + 1, -1)));
                }
                in_field = false;
            }
        } else if !in_field {
            in_field = true;
            start = i;
        }
        i = i + 1;
    }
    if in_field {
        let ghost before = out@;
        out.push((start, i));
        proof {
            assert(spans_as_int(out@) =~= spans_as_int(before) + seq![(start as int, i as int)]);
        }
    } else {
        assert(spans_as_int(out@) + seq![] =~= spans_as_int(out@));
    }
    out
}


/// Where a line that began at `start` ends once a carriage return before its
/// terminator at `i` is dropped.
pub open spec fn line_end(s: Seq<u8>, start: int, i: int) -> int {
    if i > start && byte_at(s, i - 1, 0x0d) {
        i - 1
    } else {
        i
    }
}

/// The lines of `s` from position `i` on, for a line that began at `start`. A
/// line feed ends a line and a carriage return just before it is dropped; the
/// text after the last line feed is a line when it is not empty.
pub open spec fn lines_from(s: Seq<u8>, i: int, start: int) -> Seq<(int, int)>
    decreases s.len() - i,
{
    if i >= s.len() {
        if start < s.len() {
            seq![(start, line_end(s, start, s.len() as int))]
        } else {
            seq![]
        }
    } else if s[i] == 0x0a {
        seq![(start, line_end(s, start, i))] + lines_from(s, i + 1, i + 1)
    } else {
        lines_from(s, i + 1, start)
    }
}

/// Where each line of `s` starts and ends, terminators left out.
pub open spec fn line_spans(s: Seq<u8>) -> Seq<(int, int)> {
    lines_from(s, 0, 0)
}

pub open spec fn line_spans_well_formed(s: Seq<u8>, sp: Seq<(int, int)>) -> bool {
    forall|k: int| 0 <= k < sp.len() ==> 0 <= (#[trigger] sp[k]).0 <= sp[k].1 <= s.len()
}

/// The text of each line of `s`.
pub open spec fn lines_of(s: Seq<u8>) -> Seq<Seq<u8>> {
    line_spans(s).map_values(|p: (int, int)| s.subrange(p.0, p.1))
}

pub proof fn lemma_lines_from_bounds(s: Seq<u8>, i: int, start: int)
    requires
        0 <= start <= i <= s.len(),
    ensures
        line_spans_well_formed(s, lines_from(s, i, start)),
    decreases s.len() - i,
{
    if i < s.len() {
        if s[i] == 0x0a {
            lemma_lines_from_bounds(s, i + 1, i + 1);
        } else {
            lemma_lines_from_bounds(s, i + 1, start);
        }
    }
}

/// Splits `s` into lines, as (start, end) positions without the terminators.
pub fn split_lines(s: &[u8]) -> (r: Vec<(usize, usize)>)
    ensures
        spans_as_int(r@) == line_spans(s@),
        line_spans_well_formed(s@, line_spans(s@)),
{
    proof {
        lemma_lines_from_bounds(s@, 0, 0);
    }
    let mut out: Vec<(usize, usize)> = Vec::new();
    let mut i: usize = 0;
    let mut start: usize = 0;
    while i < s.len()
        invariant
            start <= i <= s@.len(),
            spans_as_int(out@) + lines_from(s@, i as int, start as int) == line_spans(s@),
        decreases s@.len() - i,
    {
        if s[i] == 0x0a {
            let end = if i > start && s[i - 1] == 0x0d {
                i - 1
            } else {
                i
            };
            let ghost before = out@;
            out.push((start, end));
            proof {
                assert(spans_as_int(out@) =~= spans_as_int(before) + seq![(start as int, end as int)]);
                assert(spans_as_int(out@) + lines_from(s@, i + 1, i + 1) =~= spans_as_int(before) + (
                seq![(start as int, end as int)] + lines_from(s@, i + 1, i + 1)));
            }
            start = i + 1;
        }
        i = i + 1;
    }
    if start < s.len() {
        let end = if i > start && s[i - 1] == 0x0d {
            i - 1
        } else {
            i
        };
        let ghost before = out@;
        out.push((start, end));
        proof {
            assert(spans_as_int(out@) =~= spans_as_int(before) + seq![(start as int, end as int)]);
        }
    } else {
        assert(spans_as_int(out@) + seq![] =~= spans_as_int(out@));
    }
    out
}

/// `l` holds the word `w` from position `p` on.
pub open spec fn starts_at(l: Seq<u8>, p: int, w: Seq<u8>) -> bool {
    0 <= p && p + w.len() <= l.len() && l.subrange(p, p + w.len()) == w
}

pub fn starts_with_at(l: &[u8], p: usize, w: &[u8]) -> (r: bool)
    ensures
        r == starts_at(l@, p as int, w@),
{
    if p > l.len() || w.len() > l.len() - p {
        return false;
    }
    let mut k: usize = 0;
    while k < w.len()
        invariant
            p + w@.len() <= l@.len(),
            l@.len() == l.len(),
            w@.len() == w.len(),
            k <= w@.len(),
            forall|j: int| 0 <= j < k ==> l@[p + j] == w@[j],
        decreases w@.len() - k,
    {
        if l[p + k] != w[k] {
            assert(l@.subrange(p as int, p + w@.len())[k as int] != w@[k as int]);
            return false;
        }
        k = k + 1;
    }
    assert(l@.subrange(p as int, p + w@.len()) =~= w@);
    true
}


/// A run of class `c` that starts at `i` ends at `j` when every byte in between
/// is of the class and the byte at `j`, if any, is not.
pub proof fn lemma_run_end_exact(s: Seq<u8>, i: int, j: int, c: ByteClass)
    requires
        0 <= i <= j <= s.len(),
        forall|k: int| i <= k < j ==> #[trigger] in_class(c, s[k]),
        j == s.len() || !in_class(c, s[j]),
    ensures
        run_end(s, i, c) == j,
    decreases j - i,
{
    if i < j {
        lemma_run_end_exact(s, i + 1, j, c);
    }
}

/// `s` without its blanks is the text from `a` on, when the bytes before `a`
/// are blanks and the bytes at `a` and at the end are not.
pub proof fn lemma_trimmed(s: Seq<u8>, a: int)
    requires
        0 <= a < s.len(),
        forall|k: int| 0 <= k < a ==> #[trigger] is_blank(s[k]),
        !is_blank(s[a]),
        !is_blank(s[s.len() - 1]),
    ensures
        trimmed(s) == s.subrange(a, s.len() as int),
{
    lemma_run_end_exact(s, 0, a, ByteClass::Blank);
    assert(run_start_back(s, s.len() as int, ByteClass::Blank) == s.len());
}

/// A byte that can stand in a floating-point literal.
pub open spec fn literal_char(b: u8) -> bool {
    ||| is_digit(b)
    ||| b == 0x2b
    ||| b == 0x2d
    ||| b == 0x2e
    ||| b == 0x65
    ||| b == 0x45
    ||| ascii_lower(b) == 0x6e
    ||| ascii_lower(b) == 0x61
    ||| ascii_lower(b) == 0x69
    ||| ascii_lower(b) == 0x66
}

/// Every byte of a floating-point literal is a literal character.
pub proof fn lemma_float_literal_chars(s: Seq<u8>)
    ensures
        float_literal_len(s) matches Some(n) ==> forall|k: int| 0 <= k < n ==> #[trigger] literal_char(
            s[k],
        ),
{
    lemma_float_literal_len_bounds(s);
    let i0: int = if sign_at(s, 0) {
        1
    } else {
        0
    };
    lemma_run_end(s, i0, ByteClass::Digit);
    let d = run_end(s, i0, ByteClass::Digit);
    if d < s.len() {
        lemma_run_end(s, d + 1, ByteClass::Digit);
    }
    if i0 + 1 <= s.len() {
        lemma_run_end(s, i0 + 1, ByteClass::Digit);
    }
    if let Some(m) = mantissa_end(s) {
        if byte_at(s, m, 0x65) || byte_at(s, m, 0x45) {
            let k = if sign_at(s, m + 1) {
                m + 2
            } else {
                m + 1
            };
            if k <= s.len() {
                lemma_run_end(s, k, ByteClass::Digit);
            }
        }
    }
    if let Some(n) = float_literal_len(s) {
        assert forall|k: int| 0 <= k < n implies #[trigger] literal_char(s[k]) by {
            if let Some(m) = mantissa_end(s) {
                if k < i0 {
                } else if k < d {
                    assert(in_class(ByteClass::Digit, s[k]));
                } else if d > i0 && k == d {
                } else if d > i0 && k < m {
                    assert(in_class(ByteClass::Digit, s[k]));
                } else if d == i0 && k == i0 {
                } else if d == i0 && k < m {
                    assert(in_class(ByteClass::Digit, s[k]));
                } else {
                    let kk = if sign_at(s, m + 1) {
                        m + 2
                    } else {
                        m + 1
                    };
                    if k == m {
                    } else if k < kk {
                    } else {
                        assert(in_class(ByteClass::Digit, s[k]));
                    }
                }
            } else {
                let w0 = seq![0x6eu8, 0x61u8, 0x6eu8];
                let w1 = seq![0x69u8, 0x6eu8, 0x66u8];
                if starts_with_no_case(s, w0) {
                    assert(ascii_lower(s[k]) == w0[k]);
                } else {
                    assert(ascii_lower(s[k]) == w1[k]);
                }
            }
        }
    }
}

/// A complete floating-point literal stays complete when a space follows it.
pub proof fn lemma_float_literal_extend(a: Seq<u8>, b: Seq<u8>)
    requires
        float_literal_len(a) == Some(a.len() as int),
        b.len() > 0,
        b[0] == 0x20,
    ensures
        float_literal_len(a + b) == Some(a.len() as int),
{
    let s = a + b;
    lemma_float_literal_len_bounds(a);
    assert(forall|k: int| 0 <= k < a.len() ==> s[k] == a[k]);
    assert(s[a.len() as int] == 0x20);
    let i0: int = if sign_at(a, 0) {
        1
    } else {
        0
    };
    assert(sign_at(s, 0) == sign_at(a, 0));
    lemma_run_end(a, i0, ByteClass::Digit);
    let d = run_end(a, i0, ByteClass::Digit);
    lemma_run_end_exact(s, i0, d, ByteClass::Digit);
    if d < a.len() && a[d] == 0x2e {
        lemma_run_end(a, d + 1, ByteClass::Digit);
        let f = run_end(a, d + 1, ByteClass::Digit);
        lemma_run_end_exact(s, d + 1, f, ByteClass::Digit);
    }
    if i0 + 1 <= a.len() {
        lemma_run_end(a, i0 + 1, ByteClass::Digit);
        let f = run_end(a, i0 + 1, ByteClass::Digit);
        lemma_run_end_exact(s, i0 + 1, f, ByteClass::Digit);
    }
    assert(mantissa_end(s) == mantissa_end(a));
    if let Some(m) = mantissa_end(a) {
        assert(byte_at(s, m, 0x65) == byte_at(a, m, 0x65));
        assert(byte_at(s, m, 0x45) == byte_at(a, m, 0x45));
        if byte_at(a, m, 0x65) || byte_at(a, m, 0x45) {
            assert(sign_at(s, m + 1) == sign_at(a, m + 1));
            let k = if sign_at(a, m + 1) {
                m + 2
            } else {
                m + 1
            };
            lemma_run_end(a, k, ByteClass::Digit);
            let e = run_end(a, k, ByteClass::Digit);
            lemma_run_end_exact(s, k, e, ByteClass::Digit);
        }
    } else {
        let w0 = seq![0x6eu8, 0x61u8, 0x6eu8];
        let w1 = seq![0x69u8, 0x6eu8, 0x66u8];
        assert(starts_with_no_case(s, w0) == starts_with_no_case(a, w0));
        assert(starts_with_no_case(s, w1) == starts_with_no_case(a, w1));
    }
}

} // verus!
