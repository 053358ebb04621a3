use canhdf::header::{parse_canids, parse_comment, parse_line};
use canhdf::outcome::{ErrorKind, ParseOutcome};

fn parsed(line: &[u8]) -> canhdf::descriptor::CanId {
    match parse_line(line) {
        ParseOutcome::Parsed(c) => c,
        other => panic!("expected an entry, got {:?}", other),
    }
}

fn rejected(line: &[u8]) -> (usize, ErrorKind) {
    match parse_line(line) {
        ParseOutcome::Malformed(b) => {
            assert_eq!(b.src, line.to_vec());
            (b.offset, b.kind)
        }
        other => panic!("expected a diagnostic, got {:?}", other),
    }
}

#[test]
fn full_entry_is_read() {
    let c = parsed(b"CAN_ID_PRESSURE_SIG2 = 0x10030001, // Pressure signal 2|0.01 mmHg");
    assert_eq!(c.hex_id, 0x10030001);
    assert_eq!(c.str_id, Some(b"CAN_ID_PRESSURE_SIG2".to_vec()));
    assert_eq!(c.description, Some(b"Pressure signal 2".to_vec()));
    assert_eq!(c.scale, Some(b"0.01".to_vec()));
    assert_eq!(c.unit, Some(b"mmHg".to_vec()));
}

#[test]
fn header_round_trip_example() {
    let c = parsed(b"SPEED = 0X00ab // wheel speed|2.5 km/h|ignored|also");
    assert_eq!(c.hex_id, 0xab);
    assert_eq!(c.str_id, Some(b"SPEED".to_vec()));
    assert_eq!(c.description, Some(b"wheel speed".to_vec()));
    assert_eq!(c.scale, Some(b"2.5".to_vec()));
    assert_eq!(c.unit, Some(b"km/h".to_vec()));
}

#[test]
fn scale_and_unit_are_optional() {
    let c = parsed(b"  A = 0x1 // desc|mmHg");
    assert_eq!((c.scale, c.unit), (None, Some(b"mmHg".to_vec())));
    let c = parsed(b"B = 0x2 // d|2.5");
    assert_eq!((c.scale, c.unit), (Some(b"2.5".to_vec()), None));
    let c = parsed(b"C\t=\t0x3 //   |1 V");
    assert_eq!(c.description, None);
    assert_eq!((c.scale, c.unit), (Some(b"1".to_vec()), Some(b"V".to_vec())));
    let c = parsed(b"D = 0x4 //");
    assert_eq!((c.description, c.scale, c.unit), (None, None, None));
}

#[test]
fn boilerplate_and_blank_lines_are_skipped() {
    for line in [
        &b""[..],
        b"   \t",
        b"#define CAN_IDS_H",
        b"  enum CanIds {",
        b"/* comment */",
        b"// comment",
        b" * more",
        b"};",
        b"typedef unsigned int id_t;",
        b"true",
    ] {
        assert!(matches!(parse_line(line), ParseOutcome::Skipped), "{:?}", line);
    }
}

#[test]
fn malformed_entries_report_where_they_fail() {
    assert_eq!(rejected(b"FOO 0x10 // x"), (4, ErrorKind::MissingEquals));
    assert_eq!(rejected(b"FOO=0x10 // x"), (9, ErrorKind::MissingEquals));
    assert_eq!(rejected(b"FOO =0x10 // x"), (5, ErrorKind::MissingEquals));
    assert_eq!(rejected(b"FOO = 12 // x"), (6, ErrorKind::MissingHexLiteral));
    assert_eq!(rejected(b"FOO = 0xZZ // x"), (8, ErrorKind::MissingHexLiteral));
    assert_eq!(rejected(b"FOO = 0x123456789 // x"), (8, ErrorKind::IdOutOfRange));
    assert_eq!(rejected(b"FOO = 0x12"), (10, ErrorKind::MissingComment));
}

#[test]
fn comment_fields_split_on_bars() {
    let (d, s, u) = parse_comment(b" Blood flow |0,5 L/min| x");
    assert_eq!(d, Some(b"Blood flow".to_vec()));
    assert_eq!(s, Some(b"0".to_vec()));
    assert_eq!(u, Some(b",5 L/min".to_vec()));
}

#[test]
fn catalogue_file_keeps_going_past_bad_lines() {
    let text = b"#ifndef IDS\nenum {\n  A = 0x10, // first|1 V\n  broken line\n  B = 0x20, // second\r\n}\n";
    let r = parse_canids(text);
    assert_eq!(r.can_ids.len(), 2);
    assert_eq!(r.can_ids[0].hex_id, 0x10);
    assert_eq!(r.can_ids[1].hex_id, 0x20);
    assert_eq!(r.can_ids[1].description, Some(b"second".to_vec()));
    assert_eq!(r.problems.len(), 1);
    assert_eq!(r.problems[0].src, b"  broken line".to_vec());
    assert_eq!(r.problems[0].offset, 9);
    assert_eq!(r.problems[0].kind, ErrorKind::MissingEquals);
}
