use canhdf::comments::{parse_comment_line, parse_comments};
use canhdf::outcome::ParseOutcome;
use canhdf::timestamp::Rollover;

#[test]
fn annotation_with_date_is_read() {
    let line = b"012\t10-23-2014 09:21:58\tNew Offset on ID CAN_ID_PRESSURE_SIG2(0x10030001): 85,09 mmHg";
    let (r, st) = parse_comment_line(line, Rollover::new());
    match r {
        ParseOutcome::Parsed(c) => {
            assert_eq!(c.id, 12);
            assert_eq!(c.ts, 33_718_000_000_000);
            assert_eq!(c.value, b"New Offset on ID CAN_ID_PRESSURE_SIG2(0x10030001): 85,09 mmHg".to_vec());
        }
        other => panic!("{:?}", other),
    }
    assert_eq!(st.last_hour, 9);
}

#[test]
fn annotation_without_date_is_read() {
    let (r, _) = parse_comment_line(b"7 09:21:58 pump on ", Rollover::new());
    assert!(matches!(r, ParseOutcome::Parsed(ref c) if c.id == 7 && c.value == b"pump on".to_vec()));
}

#[test]
fn lines_that_do_not_match_are_skipped() {
    for line in [&b"hello"[..], b"12", b"12 10-23-2014", b"12 9:21 text", b""] {
        let (r, _) = parse_comment_line(line, Rollover::new());
        assert!(matches!(r, ParseOutcome::Skipped), "{:?}", line);
    }
}

#[test]
fn comments_file_rolls_over_midnight() {
    let text = b"1 01-01-2020 23:59:00 late\nnot a comment\n2 01-02-2020 00:01:00 early\n";
    let r = parse_comments(text);
    assert_eq!(r.comments.len(), 2);
    assert_eq!(r.comments[0].ts, 86_340_000_000_000);
    assert_eq!(r.comments[1].ts, 86_460_000_000_000);
    assert!(r.problems.is_empty());
}
