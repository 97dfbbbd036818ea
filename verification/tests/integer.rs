use influx_parser::integer::{is_digit_run, parse_digits};
use influx_parser::parse_int;

#[test]
fn last_byte_is_dropped_whatever_it_is() {
    assert_eq!(parse_int("12345678"), 1234567);
    assert_eq!(parse_int("7u"), 7);
    assert_eq!(parse_int("i"), 0);
    assert_eq!(parse_int("0i"), 0);
}

#[test]
fn leading_zeros_do_not_count() {
    assert_eq!(parse_int("000123i"), 123);
}

#[test]
fn largest_value_and_wraparound() {
    assert_eq!(parse_int("18446744073709551615i"), u64::MAX);
    assert_eq!(parse_int("18446744073709551616i"), 0);
    assert_eq!(parse_int("18446744073709551617i"), 1);
    assert_eq!(parse_int("100000000000000000000i"), 7766279631452241920);
}

#[test]
fn other_bytes_count_by_their_low_nibble() {
    // 'a' is 0x61, ':' is 0x3a
    assert_eq!(parse_int("1a2i"), 112);
    assert_eq!(parse_int(":i"), 10);
}

#[test]
fn digits_of_a_range() {
    let bytes = b"ab=4096i,";
    assert_eq!(parse_digits(bytes, 3, 7), 4096);
    assert_eq!(parse_digits(bytes, 3, 3), 0);
    assert_eq!(parse_digits(bytes, 4, 6), 9);
}

#[test]
fn digit_runs() {
    let bytes = b"ab=4096i,";
    assert!(is_digit_run(bytes, 3, 7));
    assert!(is_digit_run(bytes, 5, 5));
    assert!(!is_digit_run(bytes, 3, 8));
    assert!(!is_digit_run(bytes, 2, 7));
    assert!(!is_digit_run(b"/0", 0, 2));
    assert!(!is_digit_run(b"9:", 0, 2));
}
