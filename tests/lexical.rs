use canhdf::lexical::{
    bytes_to_number, decimal_to_u64, float_prefix_len, hex_to_u32, split_fields, split_lines,
    trim_blank,
};

#[test]
fn decimal_digits_read_with_their_count() {
    assert_eq!(bytes_to_number(b"0042"), Some((42, 4)));
    assert_eq!(bytes_to_number(b""), Some((0, 0)));
    assert_eq!(bytes_to_number(b"18446744073709551615"), Some((u64::MAX, 20)));
    assert_eq!(bytes_to_number(b"18446744073709551616"), None);
    assert_eq!(decimal_to_u64(b"000000000000000000000000007"), Some(7));
}

#[test]
fn hex_digits_read_as_u32() {
    assert_eq!(hex_to_u32(b"10FE0102"), Some(0x10FE0102));
    assert_eq!(hex_to_u32(b"ffffffff"), Some(u32::MAX));
    assert_eq!(hex_to_u32(b"100000000"), None);
    assert_eq!(hex_to_u32(b"0000000012"), Some(0x12));
}

#[test]
fn fields_collapse_runs_of_blanks() {
    assert_eq!(split_fields(b"  a\t\tbc d "), vec![(2, 3), (5, 7), (8, 9)]);
    assert_eq!(split_fields(b""), vec![]);
    assert_eq!(split_fields(b" \t "), vec![]);
}

#[test]
fn lines_drop_their_terminators() {
    assert_eq!(split_lines(b"ab\r\ncd\n\nef"), vec![(0, 2), (4, 6), (7, 7), (8, 10)]);
    assert_eq!(split_lines(b"ab\n"), vec![(0, 2)]);
    assert_eq!(split_lines(b""), vec![]);
}

#[test]
fn float_literal_extent_follows_nom() {
    assert_eq!(float_prefix_len(b"1.5 mmHg"), Some(3));
    assert_eq!(float_prefix_len(b"-0.25e-3x"), Some(8));
    assert_eq!(float_prefix_len(b".5"), Some(2));
    assert_eq!(float_prefix_len(b"7."), Some(2));
    assert_eq!(float_prefix_len(b"mmHg"), None);
    assert_eq!(float_prefix_len(b"1e"), None);
    assert_eq!(float_prefix_len(b"5eV"), None);
    assert_eq!(float_prefix_len(b"NaN"), Some(3));
    assert_eq!(float_prefix_len(b"infusion"), Some(3));
    assert_eq!(float_prefix_len(b"0,449"), Some(1));
    assert_eq!(float_prefix_len(b""), None);
}

#[test]
fn trimming_drops_blanks_on_both_sides() {
    assert_eq!(trim_blank(b" \t mmHg \r"), b"mmHg");
    assert_eq!(trim_blank(b"   "), b"");
    assert_eq!(trim_blank(b"a b"), b"a b");
}
