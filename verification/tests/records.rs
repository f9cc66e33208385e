use station_stats::chunk::{plan_chunk, Cut};
use station_stats::records::{read_buf_between_offsets, reading_from_str, Fault, ParseError};
use station_stats::report::{format_line, report};
use station_stats::summary::Summary;
use station_stats::table::Table;

/// Tenths of a degree in units.
fn deg(tenths: i64) -> i64 {
    tenths * 100_000_000
}

fn quad(t: &Table, name: &[u8]) -> (i64, i64, i128, u64) {
    let s = t.get(name).unwrap();
    (s.min(), s.max(), s.sum(), s.count())
}

fn tenths(min: i64, max: i64, sum: i64, count: u64) -> (i64, i64, i128, u64) {
    (deg(min), deg(max), deg(sum) as i128, count)
}

#[test]
fn a_line_with_a_record_is_taken_in() {
    let mut t = Table::new();
    assert_eq!(reading_from_str(b"Paris;10.0", &mut t), Ok(()));
    assert_eq!(reading_from_str(b"Paris;-2.5", &mut t), Ok(()));
    assert_eq!(quad(&t, b"Paris"), tenths(-25, 100, 75, 2));
    assert_eq!(t.records(), 2);
}

#[test]
fn a_value_is_kept_with_all_its_digits() {
    let mut t = Table::new();
    assert_eq!(reading_from_str(b"A;-12.75", &mut t), Ok(()));
    assert_eq!(t.len(), 1);
    assert_eq!(quad(&t, b"A"), (-12_750_000_000, -12_750_000_000, -12_750_000_000, 1));
    assert_eq!(reading_from_str(b"A;1.0", &mut t), Ok(()));
    assert_eq!(quad(&t, b"A"), (-12_750_000_000, 1_000_000_000, -11_750_000_000, 2));
    assert_eq!(reading_from_str(b"A;0.125", &mut t), Ok(()));
    assert_eq!(quad(&t, b"A"), (-12_750_000_000, 1_000_000_000, -11_625_000_000, 3));
    assert_eq!(report(&t)[0], b"A -> min: -12.75, max: 1, mean: -3.875");
}

#[test]
fn a_value_that_is_no_whole_number_of_units_is_a_fault() {
    let mut t = Table::new();
    assert_eq!(reading_from_str(b"A;0.0000000001", &mut t), Err(Fault::BadNumber));
    assert_eq!(reading_from_str(b"A;9223372036.854775808", &mut t), Err(Fault::BadNumber));
    assert_eq!(reading_from_str(b"A;0.0000000010", &mut t), Ok(()));
    assert_eq!(quad(&t, b"A"), (1, 1, 1, 1));
}

#[test]
fn a_line_shorter_than_four_bytes_is_passed_over() {
    let mut t = Table::new();
    assert_eq!(reading_from_str(b"", &mut t), Ok(()));
    assert_eq!(reading_from_str(b"A;1", &mut t), Ok(()));
    assert_eq!(reading_from_str(b"abc", &mut t), Ok(()));
    assert_eq!(reading_from_str(b";;;", &mut t), Ok(()));
    assert_eq!(reading_from_str(b"\r", &mut t), Ok(()));
    assert_eq!((t.len(), t.records()), (0, 0));
    assert_eq!(reading_from_str(b"A;10", &mut t), Ok(()));
    assert_eq!(quad(&t, b"A"), tenths(100, 100, 100, 1));
}

#[test]
fn the_name_ends_at_the_first_semicolon() {
    let mut t = Table::new();
    assert_eq!(reading_from_str(b"St. John's;1.5", &mut t), Ok(()));
    assert_eq!(quad(&t, b"St. John's"), tenths(15, 15, 15, 1));
    assert_eq!(reading_from_str(b"A;1.0;2.0", &mut t), Err(Fault::BadNumber));
    assert_eq!(reading_from_str(b"A;;1.0", &mut t), Err(Fault::BadNumber));
    assert_eq!(t.len(), 1);
}

#[test]
fn carriage_returns_at_the_end_are_left_out() {
    let mut t = Table::new();
    assert_eq!(reading_from_str(b"A;1.0\r", &mut t), Ok(()));
    assert_eq!(reading_from_str(b"A;2.0\r\r", &mut t), Ok(()));
    assert_eq!(reading_from_str(b"A;3\r", &mut t), Ok(()));
    assert_eq!(quad(&t, b"A"), tenths(10, 30, 60, 3));
    assert_eq!(reading_from_str(b"A;\r\r", &mut t), Err(Fault::BadNumber));
    assert_eq!(reading_from_str(b"A;1\r0", &mut t), Err(Fault::BadNumber));
    assert_eq!(reading_from_str(b"A\r;1.0", &mut t), Ok(()));
    assert_eq!(quad(&t, b"A\r"), tenths(10, 10, 10, 1));
}

#[test]
fn each_fault_has_its_line() {
    let mut t = Table::new();
    assert_eq!(reading_from_str(b"BadLineWithoutSemicolon", &mut t), Err(Fault::MissingSeparator));
    assert_eq!(reading_from_str(b"abcd", &mut t), Err(Fault::MissingSeparator));
    assert_eq!(reading_from_str(b";1.0", &mut t), Err(Fault::EmptyName));
    assert_eq!(reading_from_str(b";abc", &mut t), Err(Fault::EmptyName));
    assert_eq!(reading_from_str(b"A;abc", &mut t), Err(Fault::BadNumber));
    assert_eq!(reading_from_str(b"Abc;", &mut t), Err(Fault::BadNumber));
    assert_eq!(reading_from_str(b"A; 1.0", &mut t), Err(Fault::BadNumber));
    assert_eq!((t.len(), t.records()), (0, 0));
}

#[test]
fn a_text_is_read_line_by_line() {
    let mut t = Table::new();
    let text = b"A;1.0\nB;2.0\nA;3.0\nB;4.0\nA;5.0\n";
    assert_eq!(read_buf_between_offsets(text, &mut t), Ok(30));
    assert_eq!(quad(&t, b"A"), tenths(10, 50, 90, 3));
    assert_eq!(quad(&t, b"B"), tenths(20, 40, 60, 2));
    assert_eq!(t.records(), 5);
}

#[test]
fn a_text_need_not_end_with_a_newline() {
    let mut t = Table::new();
    assert_eq!(read_buf_between_offsets(b"Y;7.0\nY;9.0", &mut t), Ok(11));
    assert_eq!(quad(&t, b"Y"), tenths(70, 90, 160, 2));
}

#[test]
fn empty_and_short_lines_are_passed_over() {
    let mut t = Table::new();
    let text = b"\n\nA;1.0\n\nx\nA;2\n\r\nA;3.0\n\n\n";
    assert_eq!(read_buf_between_offsets(text, &mut t), Ok(text.len()));
    assert_eq!(quad(&t, b"A"), tenths(10, 30, 40, 2));
    assert_eq!(t.len(), 1);
}

#[test]
fn a_text_shorter_than_four_bytes_reads_as_nothing() {
    let mut t = Table::new();
    assert_eq!(read_buf_between_offsets(b"", &mut t), Ok(0));
    assert_eq!(read_buf_between_offsets(b"A;1", &mut t), Ok(0));
    assert_eq!(read_buf_between_offsets(b"\n\n\n", &mut t), Ok(0));
    assert_eq!(read_buf_between_offsets(b"A;1\n", &mut t), Ok(4));
    assert_eq!((t.len(), t.records()), (0, 0));
}

#[test]
fn lines_with_carriage_returns_are_read() {
    let mut t = Table::new();
    assert_eq!(read_buf_between_offsets(b"A;1.0\r\nB;2.5\r\n", &mut t), Ok(14));
    assert_eq!(quad(&t, b"A"), tenths(10, 10, 10, 1));
    assert_eq!(quad(&t, b"B"), tenths(25, 25, 25, 1));
}

#[test]
fn reading_stops_at_the_first_fault() {
    let mut t = Table::new();
    t.record(b"Z", deg(5));
    let text = b"A;1.0\nA;2.0\nbroken\nA;3.0\n;4.0\n";
    assert_eq!(
        read_buf_between_offsets(text, &mut t),
        Err(ParseError { fault: Fault::MissingSeparator, offset: 12 })
    );
    assert_eq!(quad(&t, b"A"), tenths(10, 20, 30, 2));
    assert_eq!(quad(&t, b"Z"), tenths(5, 5, 5, 1));
    assert_eq!(t.records(), 3);
}

#[test]
fn a_fault_is_reported_with_the_offset_of_its_line() {
    let mut t = Table::new();
    assert_eq!(
        read_buf_between_offsets(b";1.0\nA;1.0", &mut t),
        Err(ParseError { fault: Fault::EmptyName, offset: 0 })
    );
    assert_eq!(
        read_buf_between_offsets(b"\n\nA;1.0\nA;one\n", &mut t),
        Err(ParseError { fault: Fault::BadNumber, offset: 8 })
    );
    assert_eq!(
        read_buf_between_offsets(b"A;1.0\nB;2.0\ntail", &mut t),
        Err(ParseError { fault: Fault::MissingSeparator, offset: 12 })
    );
}

#[test]
fn reading_adds_to_what_the_table_holds() {
    let mut t = Table::new();
    assert_eq!(read_buf_between_offsets(b"A;1.0\nB;2.0", &mut t), Ok(11));
    assert_eq!(read_buf_between_offsets(b"B;-2.0\nC;0.1", &mut t), Ok(12));
    assert_eq!(quad(&t, b"A"), tenths(10, 10, 10, 1));
    assert_eq!(quad(&t, b"B"), tenths(-20, 20, 0, 2));
    assert_eq!(quad(&t, b"C"), tenths(1, 1, 1, 1));
    assert_eq!(t.records(), 4);
}

#[test]
fn a_buffer_under_four_bytes_ends_the_text() {
    assert_eq!(plan_chunk(b"", 8), Cut::End);
    assert_eq!(plan_chunk(b"A;1", 8), Cut::End);
    assert_eq!(plan_chunk(b"\n\n\n", 2), Cut::End);
}

#[test]
fn a_short_buffer_is_taken_whole() {
    assert_eq!(plan_chunk(b"A;1.0", 8), Cut::Whole);
    assert_eq!(plan_chunk(b"A;1.0\nB", 8), Cut::Whole);
    assert_eq!(plan_chunk(b"ABCD", 5), Cut::Whole);
}

#[test]
fn a_full_buffer_is_cut_at_its_last_newline() {
    assert_eq!(plan_chunk(b"A;1.0\nB;", 8), Cut::At(5));
    assert_eq!(plan_chunk(b"A;1.0\nB;2.0\n", 12), Cut::At(11));
    assert_eq!(plan_chunk(b"A;1.0\nB;2.0\nC", 4), Cut::At(11));
    assert_eq!(plan_chunk(b"\nABC", 4), Cut::At(0));
    assert_eq!(plan_chunk(b"\n\n\n\n", 4), Cut::At(3));
}

#[test]
fn a_full_buffer_without_newline_must_grow() {
    assert_eq!(plan_chunk(b"ABCDEFGH", 8), Cut::Grow);
    assert_eq!(plan_chunk(b"ABCD", 4), Cut::Grow);
    assert_eq!(plan_chunk(b"ABCDE", 4), Cut::Grow);
}

#[test]
fn a_line_has_name_and_three_values() {
    let mut s = Summary::single(deg(100));
    s.absorb(deg(200));
    assert_eq!(format_line(b"Paris", &s), b"Paris -> min: 10, max: 20, mean: 15");
    let mut s = Summary::single(deg(-5));
    s.absorb(deg(5));
    s.absorb(deg(15));
    assert_eq!(format_line(b"X", &s), b"X -> min: -0.5, max: 1.5, mean: 0.5");
    let s = Summary::single(deg(-999));
    assert_eq!(format_line(b"", &s), b" -> min: -99.9, max: -99.9, mean: -99.9");
}

#[test]
fn a_line_keeps_the_bytes_of_the_name() {
    let s = Summary::single(0);
    let name = [0xff, 0x00, b';', b' '];
    let line = format_line(&name, &s);
    assert_eq!(&line[..4], &name);
    assert_eq!(&line[4..], b" -> min: 0, max: 0, mean: 0");
}

#[test]
fn the_report_has_one_line_for_each_station_in_order() {
    let mut t = Table::new();
    for (name, v) in [(&b"Oslo"[..], -35), (b"Cairo", 301), (b"Oslo", 12), (b"Bern", 0), (b"Cairo", 300)] {
        t.record(name, deg(v));
    }
    let lines = report(&t);
    assert_eq!(lines.len(), 3);
    assert_eq!(lines[0], b"Bern -> min: 0, max: 0, mean: 0");
    assert_eq!(lines[1], b"Cairo -> min: 30, max: 30.1, mean: 30.05");
    assert_eq!(lines[2], b"Oslo -> min: -3.5, max: 1.2, mean: -1.15");
    assert!(report(&Table::new()).is_empty());
}
