//! Clock-only timestamps turned into a nanosecond count that keeps increasing
//! across midnight.
use vstd::prelude::*;
use crate::lexical::{byte_at, bytes_to_number, decimal_to_u64, decimal_value, lemma_run_end, run_end, scan_while};
use crate::lexical::ByteClass;
use crate::outcome::ErrorKind;

verus! {

pub open spec fn pow10(n: nat) -> nat
    decreases n,
{
    if n == 0 {
        1
    } else {
        10 * pow10((n - 1) as nat)
    }
}

/// Nanoseconds per unit of a fraction written with `digits` digits (tenths for
/// one digit, hundredths for two, ...); a unit finer than a nanosecond counts as 0.
pub open spec fn frac_unit(digits: nat) -> nat {
    if digits <= 9 {
        pow10((9 - digits) as nat)
    } else {
        0
    }
}

pub const NANOS_PER_SECOND: u64 = 1_000_000_000;

/// The nanosecond count of a time of day, a day later when the log has passed midnight.
pub open spec fn ns_of(hour: nat, min: nat, second: nat, subsec: nat, digits: nat, rollover: bool) -> nat {
    subsec * frac_unit(digits) + 1_000_000_000 * second + 60_000_000_000 * min + 3_600_000_000_000 * (
    hour + if rollover {
        24nat
    } else {
        0nat
    })
}

fn frac_unit_exec(digits: u32) -> (r: u64)
    ensures
        r == frac_unit(digits as nat),
        r <= 1_000_000_000,
{
    proof {
        reveal_with_fuel(pow10, 10);
    }
    match digits {
        0 => 1_000_000_000,
        1 => 100_000_000,
        2 => 10_000_000,
        3 => 1_000_000,
        4 => 100_000,
        5 => 10_000,
        6 => 1_000,
        7 => 100,
        8 => 10,
        9 => 1,
        _ => 0,
    }
}

/// The nanosecond count of `hour:min:second.subsec`, where the fraction was
/// written with `digits` digits, moved a day on when midnight has been passed.
pub fn to_timestamp(
    hour: u64,
    min: u64,
    second: u64,
    subsec: u64,
    digits: u32,
    did_surpass_midnight: bool,
) -> (r: u64)
    requires
        ns_of(
            hour as nat,
            min as nat,
            second as nat,
            subsec as nat,
            digits as nat,
            did_surpass_midnight,
        ) <= u64::MAX,
    ensures
        r == ns_of(
            hour as nat,
            min as nat,
            second as nat,
            subsec as nat,
            digits as nat,
            did_surpass_midnight,
        ),
{
    let modifier: u64 = if did_surpass_midnight {
        24
    } else {
        0
    };
    let unit = frac_unit_exec(digits);
    (unit * subsec) + (NANOS_PER_SECOND * second) + (NANOS_PER_SECOND * 60 * min) + (
    NANOS_PER_SECOND * 60 * 60 * (hour + modifier))
}

/// Whether the nanosecond count of the arguments fits in 64 bits.
pub fn ns_fits(hour: u64, min: u64, second: u64, subsec: u64, digits: u32, rollover: bool) -> (r: bool)
    ensures
        r == (ns_of(hour as nat, min as nat, second as nat, subsec as nat, digits as nat, rollover)
            <= u64::MAX),
{
    let unit = frac_unit_exec(digits);
    let modifier: u128 = if rollover {
        24
    } else {
        0
    };
    assert((subsec as u128) * (unit as u128) <= 0x1_0000_0000_0000_0000 * 1_000_000_000)
        by (nonlinear_arith)
        requires
            subsec <= u64::MAX,
            unit <= 1_000_000_000,
    ;
    let total: u128 = (subsec as u128) * (unit as u128) + 1_000_000_000u128 * (second as u128)
        + 60_000_000_000u128 * (min as u128) + 3_600_000_000_000u128 * ((hour as u128) + modifier);
    total <= u64::MAX as u128
}

/// The state carried from one timestamp of a file to the next: the hour seen
/// last, and whether the log has been found to have passed midnight.
#[derive(Clone, Copy, Debug, PartialEq, Eq)]
pub struct Rollover {
    pub last_hour: u64,
    pub surpassed_midnight: bool,
}

pub open spec fn initial_rollover() -> Rollover {
    Rollover { last_hour: 12, surpassed_midnight: false }
}

impl Rollover {
    /// The state at the start of a log.
    pub fn new() -> (r: Rollover)
        ensures
            r == initial_rollover(),
    {
        Rollover { last_hour: 12, surpassed_midnight: false }
    }
}

/// The fields of a timestamp `[d.]HH:MM:SS[.f]`, as digit strings.
pub struct TsParts {
    pub day: Option<Seq<u8>>,
    pub hour: Seq<u8>,
    pub min: Seq<u8>,
    pub sec: Seq<u8>,
    pub frac: Option<Seq<u8>>,
}

/// The timestamp at the start of `f`; what follows it is ignored.
pub open spec fn ts_parts(f: Seq<u8>) -> Option<TsParts> {
    let d = run_end(f, 0, ByteClass::Digit);
    let p: int = if d > 0 && byte_at(f, d, 0x2e) {
        d + 1
    } else {
        0
    };
    let h = run_end(f, p, ByteClass::Digit);
    if h == p || !byte_at(f, h, 0x3a) {
        None
    } else {
        let m = run_end(f, h + 1, ByteClass::Digit);
        if m == h + 1 || !byte_at(f, m, 0x3a) {
            None
        } else {
            let s = run_end(f, m + 1, ByteClass::Digit);
            let fe = run_end(f, s + 1, ByteClass::Digit);
            if s == m + 1 {
                None
            } else {
                Some(
                    TsParts {
                        day: if p > 0 {
                            Some(f.subrange(0, d))
                        } else {
                            None
                        },
                        hour: f.subrange(p, h),
                        min: f.subrange(h + 1, m),
                        sec: f.subrange(m + 1, s),
                        frac: if byte_at(f, s, 0x2e) && fe > s + 1 {
                            Some(f.subrange(s + 1, fe))
                        } else {
                            None
                        },
                    },
                )
            }
        }
    }
}

/// The log marks this timestamp as past midnight with a non-zero day digit.
pub open spec fn day_flag(t: TsParts) -> bool {
    t.day matches Some(d) && decimal_value(d) > 0
}

/// Midnight has been passed: it was before, the day digit says so, or the hour
/// went down by exactly 23.
pub open spec fn passes_midnight(st: Rollover, t: TsParts) -> bool {
    st.surpassed_midnight || day_flag(t) || st.last_hour - decimal_value(t.hour) == 23
}

pub open spec fn frac_value(t: TsParts) -> nat {
    match t.frac {
        Some(x) => decimal_value(x),
        None => 0,
    }
}

pub open spec fn frac_digits(t: TsParts) -> nat {
    match t.frac {
        Some(x) => x.len(),
        None => 0,
    }
}

pub open spec fn ts_value(t: TsParts, rollover: bool) -> nat {
    ns_of(
        decimal_value(t.hour),
        decimal_value(t.min),
        decimal_value(t.sec),
        frac_value(t),
        frac_digits(t),
        rollover,
    )
}

/// The nanosecond count of the timestamp at the start of `f`, read in state
/// `st`, and the state for the next one; or why it cannot be read.
pub open spec fn reconstruct(f: Seq<u8>, st: Rollover) -> Result<(u64, Rollover), ErrorKind> {
    match ts_parts(f) {
        None => Err(ErrorKind::BadTimestamp),
        Some(t) => {
            let flag = passes_midnight(st, t);
            let v = ts_value(t, flag);
            if v > u64::MAX {
                Err(ErrorKind::TimestampOutOfRange)
            } else {
                Ok(
                    (
                        v as u64,
                        Rollover { last_hour: decimal_value(t.hour) as u64, surpassed_midnight: flag },
                    ),
                )
            }
        },
    }
}

/// Reads the timestamp at the start of `f` in state `st`.
#[verifier::rlimit(40)]
pub fn parse_ts(f: &[u8], st: Rollover) -> (r: Result<(u64, Rollover), ErrorKind>)
    ensures
        r == reconstruct(f@, st),
{
    proof {
        lemma_run_end(f@, 0, ByteClass::Digit);
    }
    let d = scan_while(f, 0, ByteClass::Digit);
    let p: usize = if d > 0 && d < f.len() && f[d] == 0x2e {
        d + 1
    } else {
        0
    };
    proof {
        lemma_run_end(f@, p as int, ByteClass::Digit);
    }
    let h = scan_while(f, p, ByteClass::Digit);
    if h == p || h >= f.len() || f[h] != 0x3a {
        return Err(ErrorKind::BadTimestamp);
    }
    proof {
        lemma_run_end(f@, h + 1, ByteClass::Digit);
    }
    let m = scan_while(f, h + 1, ByteClass::Digit);
    if m == h + 1 || m >= f.len() || f[m] != 0x3a {
        return Err(ErrorKind::BadTimestamp);
    }
    proof {
        lemma_run_end(f@, m + 1, ByteClass::Digit);
    }
    let s = scan_while(f, m + 1, ByteClass::Digit);
    if s == m + 1 {
        return Err(ErrorKind::BadTimestamp);
    }
    let ghost t = ts_parts(f@).unwrap();
    let has_frac = s < f.len() && f[s] == 0x2e;
    let fe = if has_frac {
        proof {
            lemma_run_end(f@, s + 1, ByteClass::Digit);
        }
        scan_while(f, s + 1, ByteClass::Digit)
    } else {
        s
    };
    let has_frac = has_frac && fe > s + 1;
    let hour_digits = vstd::slice::slice_subrange(f, p, h);
    let min_digits = vstd::slice::slice_subrange(f, h + 1, m);
    let sec_digits = vstd::slice::slice_subrange(f, m + 1, s);
    assert(hour_digits@ == t.hour && min_digits@ == t.min && sec_digits@ == t.sec);
    let day = if p > 0 {
        let day_digits = vstd::slice::slice_subrange(f, 0, d);
        assert(day_digits@ == t.day.unwrap());
        match decimal_to_u64(day_digits) {
            Some(v) => v > 0,
            None => true,
        }
    } else {
        false
    };
    assert(day == day_flag(t));
    let hour = decimal_to_u64(hour_digits);
    let min = decimal_to_u64(min_digits);
    let sec = decimal_to_u64(sec_digits);
    if hour.is_none() || min.is_none() || sec.is_none() {
        proof {
            let flag = passes_midnight(st, t);
            assert(ts_value(t, flag) >= decimal_value(t.hour) + decimal_value(t.min) + decimal_value(
                t.sec,
            )) by (nonlinear_arith)
                requires
                    ts_value(t, flag) == frac_value(t) * frac_unit(frac_digits(t)) + 1_000_000_000
                        * decimal_value(t.sec) + 60_000_000_000 * decimal_value(t.min)
                        + 3_600_000_000_000 * (decimal_value(t.hour) + if flag {
                        24nat
                    } else {
                        0nat
                    }),
            ;
        }
        return Err(ErrorKind::TimestampOutOfRange);
    }
    let hour = hour.unwrap();
    let min = min.unwrap();
    let sec = sec.unwrap();
    let (subsec, digits): (u64, u32) = if has_frac {
        let frac_digits_slice = vstd::slice::slice_subrange(f, s + 1, fe);
        assert(frac_digits_slice@ == t.frac.unwrap());
        if fe - (s + 1) > 9 {
            (0, 10)
        } else {
            match bytes_to_number(frac_digits_slice) {
                Some(p) => p,
                None => {
                    proof {
                        let flag = passes_midnight(st, t);
                        let u = frac_unit(frac_digits(t));
                        reveal_with_fuel(pow10, 10);
                        assert(u >= 1);
                        assert(frac_value(t) * u >= frac_value(t)) by (nonlinear_arith)
                            requires
                                u >= 1,
                        ;
                    }
                    return Err(ErrorKind::TimestampOutOfRange);
                },
            }
        }
    } else {
        (0, 0)
    };
    assert(frac_value(t) * frac_unit(frac_digits(t)) == subsec * frac_unit(digits as nat));
    let flag = st.surpassed_midnight || day || (st.last_hour >= hour && st.last_hour - hour == 23);
    assert(flag == passes_midnight(st, t));
    if !ns_fits(hour, min, sec, subsec, digits, flag) {
        return Err(ErrorKind::TimestampOutOfRange);
    }
    let ts = to_timestamp(hour, min, sec, subsec, digits, flag);
    Ok((ts, Rollover { last_hour: hour, surpassed_midnight: flag }))
}

} // verus!
