use canhdf::messages::{parse_extended, parse_messages, parse_record, parse_simple, CanMsg};
use canhdf::outcome::{ErrorKind, ParseOutcome};
use canhdf::timestamp::Rollover;

fn sample(r: (ParseOutcome<CanMsg>, Rollover)) -> CanMsg {
    match r.0 {
        ParseOutcome::Parsed(m) => m,
        other => panic!("expected a sample, got {:?}", other),
    }
}

#[test]
fn simple_record_is_read() {
    let m = sample(parse_simple(b"0x10FE0102\t0 Prozent\t08:52:25.19", Rollover::new()));
    assert_eq!(m.hex_id, 0x10FE0102);
    assert_eq!(m.value, b"0".to_vec());
    assert_eq!(m.ts, 31_945_190_000_000);
}

#[test]
fn simple_record_reads_decimal_comma() {
    let m = sample(parse_simple(b"0x10 1,5 mV 08:00:00", Rollover::new()));
    assert_eq!(m.value, b"1.5".to_vec());
    assert_eq!(m.ts, 8 * 3_600_000_000_000);
}

#[test]
fn simple_grammar_skips_non_records() {
    for line in [&b"Logging started"[..], b"0x10 5", b"", b"0xZZ 1 08:00:00", b"10 1 08:00:00"] {
        let (r, st) = parse_simple(line, Rollover::new());
        assert!(matches!(r, ParseOutcome::Skipped), "{:?}", line);
        assert_eq!(st, Rollover::new());
    }
}

#[test]
fn simple_grammar_reports_bad_fields() {
    let (r, st) = parse_simple(b"0x10 abc mV 08:00:00", Rollover::new());
    assert!(matches!(r, ParseOutcome::Malformed(ref b) if b.offset == 5 && b.kind == ErrorKind::BadValue));
    assert_eq!(st, Rollover::new());
    let (r, _) = parse_simple(b"0x123456789 1 08:00:00", Rollover::new());
    assert!(matches!(r, ParseOutcome::Malformed(ref b) if b.offset == 2 && b.kind == ErrorKind::IdOutOfRange));
    let (r, _) = parse_simple(b"0x10 1 V noon", Rollover::new());
    assert!(matches!(r, ParseOutcome::Malformed(ref b) if b.offset == 9 && b.kind == ErrorKind::BadTimestamp));
}

#[test]
fn extended_record_is_read() {
    let line = b"100C0000h\t8\t2E 00 00 00 01 00 00 00 \t0,44921875 L/min\t1\t average Blood Flow \t\t08:44:04.97";
    let m = sample(parse_extended(line, Rollover::new()));
    assert_eq!(m.hex_id, 0x100C0000);
    assert_eq!(m.value, b"0".to_vec());
    assert_eq!(m.ts, 31_444_970_000_000);
    let m = sample(parse_record(b"0x12 8 00 00 00 00 00 00 00 00 -2.5e1 V 1.00:00:01", true, Rollover::new()));
    assert_eq!(m.hex_id, 0x12);
    assert_eq!(m.value, b"-2.5e1".to_vec());
    assert_eq!(m.ts, 86_401_000_000_000);
}

#[test]
fn extended_grammar_skips_short_lines() {
    let (r, _) = parse_extended(b"Comment: pump started at 08:00:00", Rollover::new());
    assert!(matches!(r, ParseOutcome::Skipped));
}

#[test]
fn extended_grammar_reports_bad_fields() {
    let (r, _) = parse_extended(b"zz 1 2 3 4 5 6 7 8 9 10 11 08:00:00", Rollover::new());
    assert!(matches!(r, ParseOutcome::Malformed(ref b) if b.offset == 0 && b.kind == ErrorKind::BadHexId));
    let (r, _) = parse_extended(b"0x1 1 2 3 4 5 6 7 8 9 x 11 08:00:00", Rollover::new());
    assert!(matches!(r, ParseOutcome::Malformed(ref b) if b.offset == 22 && b.kind == ErrorKind::BadValue));
}

#[test]
fn malformed_line_tolerance() {
    let log = b"0x10 1,5 mV 08:00:00\n0x11 garbage mV 08:00:01\n";
    let r = parse_messages(log, false, Rollover::new());
    assert_eq!(r.can_msgs.len(), 1);
    assert_eq!(r.can_msgs[0].hex_id, 0x10);
    assert_eq!(r.problems.len(), 1);
    assert_eq!(r.problems[0].src, b"0x11 garbage mV 08:00:01".to_vec());
    assert_eq!(r.problems[0].kind, ErrorKind::BadValue);
}

#[test]
fn rollover_state_runs_through_the_file() {
    let log = b"0x1 1 V 23:59:59.9\r\nnoise\n0x1 2 V 00:00:01.0\n";
    let r = parse_messages(log, false, Rollover::new());
    assert_eq!(r.can_msgs.len(), 2);
    assert_eq!(r.can_msgs[1].ts - r.can_msgs[0].ts, 1_100_000_000);
    assert_eq!(r.state, Rollover { last_hour: 0, surpassed_midnight: true });
    assert!(r.problems.is_empty());
}

#[test]
fn default_sample_is_zero() {
    let m = CanMsg::default();
    assert_eq!((m.hex_id, m.value, m.ts), (0, b"0".to_vec(), 0));
}
