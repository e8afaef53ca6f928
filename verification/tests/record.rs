use onebrc::names::name_before;
use onebrc::record::{check_record, check_text, has_entry, next_line_end, parse_entry};
use onebrc::scan::{count, find, NEWLINE, SEMICOLON};

#[test]
fn find_gives_the_first_occurrence() {
    assert_eq!(find(b"a;b;c", SEMICOLON, 0), 1);
    assert_eq!(find(b"a;b;c", SEMICOLON, 1), 1);
    assert_eq!(find(b"a;b;c", SEMICOLON, 2), 3);
    assert_eq!(find(b"a;b;c", SEMICOLON, 4), 5);
    assert_eq!(find(b"a;b;c", SEMICOLON, 5), 5);
    assert_eq!(find(b"", SEMICOLON, 0), 0);
}

#[test]
fn count_gives_the_number_of_occurrences() {
    assert_eq!(count(b"a\nb\n\nc", NEWLINE), 3);
    assert_eq!(count(b"abc", NEWLINE), 0);
    assert_eq!(count(b"", NEWLINE), 0);
}

#[test]
fn next_line_end_stops_behind_the_terminator() {
    assert_eq!(next_line_end(b"ab\ncd", 0), 3);
    assert_eq!(next_line_end(b"ab\ncd", 2), 3);
    assert_eq!(next_line_end(b"ab\ncd", 3), 5);
    assert_eq!(next_line_end(b"ab\ncd", 5), 5);
    assert_eq!(next_line_end(b"\n\n", 0), 1);
}

#[test]
fn parse_entry_splits_at_the_first_delimiter() {
    let (name, temp) = parse_entry(b"station1;99.9\n", 14);
    assert_eq!(name, b"station1");
    assert_eq!(temp, 999);
    let (name, temp) = parse_entry(b";-0.5\n", 6);
    assert_eq!(name, b"");
    assert_eq!(temp, -5);
}

#[test]
fn parse_entry_reads_no_further_than_told() {
    let (name, temp) = parse_entry(b"a;1.0\nzz;9.9\n", 6);
    assert_eq!(name, b"a");
    assert_eq!(temp, 10);
}

#[test]
fn parse_entry_takes_the_first_of_two_records() {
    let (name, temp) = parse_entry(b"a;1.0\nzz;9.9\n", 13);
    assert_eq!(name, b"a");
    assert_eq!(temp, 10);
}

#[test]
fn has_entry_tells_what_can_be_taken_apart() {
    assert!(has_entry(b"a;1.0\n", 6));
    assert!(has_entry(b"a;1.0\nzz;9.9\n", 13));
    assert!(has_entry(b"a;1.0\nzz", 6));
    assert!(!has_entry(b"a;1.0\n", 5));
    assert!(!has_entry(b"a;1.0\n", 0));
    assert!(!has_entry(b"a1.0\n", 5));
    assert!(!has_entry(b"a;\n", 3));
    assert!(!has_entry(b"a;x.0\n", 6));
}

#[test]
fn check_record_accepts_the_grammar_only() {
    assert!(check_record(b"a;1.0\n"));
    assert!(check_record(b";1.0\n"));
    assert!(check_record(b"St. John's;-12.3\n"));
    assert!(!check_record(b""));
    assert!(!check_record(b"a;1.0"));
    assert!(!check_record(b"a1.0\n"));
    assert!(!check_record(b"a;1.0\n\n"));
    assert!(!check_record(b"a\n;1.0\n"));
    assert!(!check_record(b"a;1.00\n"));
    assert!(!check_record(b"a;b;1.0\n"));
    assert!(!check_record(b"a;1.0\nb;2.0\n"));
}

#[test]
fn check_text_accepts_whole_lines_only() {
    assert!(check_text(b""));
    assert!(check_text(b"a;1.0\n"));
    assert!(check_text(b"a;1.0\nb;-2.5\n"));
    assert!(!check_text(b"a;1.0\nb;2.0"));
    assert!(!check_text(b"a;1.0\n\nb;2.0\n"));
    assert!(!check_text(b"\n"));
    assert!(!check_text(b"a;1.0\nb;2\n"));
}

#[test]
fn names_are_ordered_byte_by_byte() {
    assert!(name_before(b"a", b"b"));
    assert!(!name_before(b"b", b"a"));
    assert!(!name_before(b"a", b"a"));
    assert!(name_before(b"a", b"ab"));
    assert!(!name_before(b"ab", b"a"));
    assert!(name_before(b"", b"a"));
    assert!(!name_before(b"", b""));
    assert!(!name_before(b"b", b"ab"));
    assert!(name_before(b"Z", b"a"));
    assert!(name_before(b"station1", b"station2"));
    assert!(name_before(&[0x7f], &[0x80]));
}
