use pixmap::text::{find_byte, read_number, write_number};

fn number(token: &str, max: usize) -> Option<usize> {
    read_number(token.as_bytes(), 0, token.len(), max)
}

fn written(n: usize) -> String {
    let mut out = Vec::new();
    write_number(&mut out, n);
    String::from_utf8(out).unwrap()
}

#[test]
fn find_byte_gives_the_first_occurrence() {
    let bytes = b"ab cd ef";
    assert_eq!(find_byte(bytes, 0, bytes.len(), b' '), 2);
    assert_eq!(find_byte(bytes, 2, bytes.len(), b' '), 2);
    assert_eq!(find_byte(bytes, 3, bytes.len(), b' '), 5);
    assert_eq!(find_byte(bytes, 6, bytes.len(), b' '), 8);
    assert_eq!(find_byte(bytes, 3, 4, b' '), 4);
    assert_eq!(find_byte(bytes, 4, 4, b' '), 4);
}

#[test]
fn numbers_are_runs_of_digits() {
    assert_eq!(number("0", 255), Some(0));
    assert_eq!(number("7", 255), Some(7));
    assert_eq!(number("42", 255), Some(42));
    assert_eq!(number("255", 255), Some(255));
    assert_eq!(number("1234567890", usize::MAX), Some(1234567890));
}

#[test]
fn numbers_may_have_a_plus_sign_and_leading_zeros() {
    assert_eq!(number("+7", 255), Some(7));
    assert_eq!(number("007", 255), Some(7));
    assert_eq!(number("+000255", 255), Some(255));
    assert_eq!(number("0000000000000000000000000000001", 255), Some(1));
}

#[test]
fn numbers_above_the_limit_are_refused() {
    assert_eq!(number("256", 255), None);
    assert_eq!(number("1000", 255), None);
    assert_eq!(number("2550", 255), None);
    assert_eq!(number("99999999999999999999999999", usize::MAX), None);
    let max = format!("{}", usize::MAX);
    assert_eq!(number(&max, usize::MAX), Some(usize::MAX));
    let beyond = format!("{}0", usize::MAX);
    assert_eq!(number(&beyond, usize::MAX), None);
    assert_eq!(number("5", 4), None);
    assert_eq!(number("0", 0), Some(0));
}

#[test]
fn what_is_no_number_is_refused() {
    for token in ["", "+", "-", "-1", "-0", "++1", "1+", "1 ", " 1", "1.0", "0x10", "a", "1a", "١"] {
        assert_eq!(number(token, 255), None, "{:?}", token);
    }
}

#[test]
fn read_number_reads_the_given_range_only() {
    let bytes = b"12 345 6";
    assert_eq!(read_number(bytes, 0, 2, 1000), Some(12));
    assert_eq!(read_number(bytes, 3, 6, 1000), Some(345));
    assert_eq!(read_number(bytes, 4, 6, 1000), Some(45));
    assert_eq!(read_number(bytes, 7, 8, 1000), Some(6));
    assert_eq!(read_number(bytes, 0, 3, 1000), None);
    assert_eq!(read_number(bytes, 2, 2, 1000), None);
}

#[test]
fn numbers_are_written_in_decimal() {
    assert_eq!(written(0), "0");
    assert_eq!(written(9), "9");
    assert_eq!(written(10), "10");
    assert_eq!(written(255), "255");
    assert_eq!(written(1000), "1000");
    assert_eq!(written(usize::MAX), format!("{}", usize::MAX));
}

#[test]
fn write_number_appends() {
    let mut out = vec![b'x'];
    write_number(&mut out, 12);
    write_number(&mut out, 0);
    assert_eq!(out, b"x120");
}

#[test]
fn written_numbers_read_back() {
    for n in [0, 1, 9, 10, 99, 100, 255, 256, 65535, usize::MAX] {
        assert_eq!(number(&written(n), usize::MAX), Some(n));
    }
}
