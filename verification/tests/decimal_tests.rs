use neat_date_time::decimal::append_zero_padded;

fn padded(n: u32, width: usize) -> String {
    let mut text = String::new();
    append_zero_padded(&mut text, n, width);
    text
}

#[test]
fn short_numbers_get_zeros_in_front() {
    assert_eq!(padded(7, 2), "07");
    assert_eq!(padded(7, 4), "0007");
    assert_eq!(padded(0, 2), "00");
    assert_eq!(padded(0, 4), "0000");
    assert_eq!(padded(42, 10), "0000000042");
    assert_eq!(padded(5, 12), "000000000005");
}

#[test]
fn numbers_that_fill_the_width_are_written_as_they_are() {
    assert_eq!(padded(12, 2), "12");
    assert_eq!(padded(2022, 4), "2022");
    assert_eq!(padded(0, 1), "0");
    assert_eq!(padded(0, 0), "0");
    assert_eq!(padded(9, 0), "9");
}

#[test]
fn long_numbers_are_not_cut() {
    assert_eq!(padded(123, 2), "123");
    assert_eq!(padded(65535, 4), "65535");
    assert_eq!(padded(u32::MAX, 2), "4294967295");
    assert_eq!(padded(1_000_000_000, 0), "1000000000");
}

#[test]
fn padded_text_is_appended_to_what_is_there() {
    let mut text = String::from("day ");
    append_zero_padded(&mut text, 6, 2);
    assert_eq!(text, "day 06");
    append_zero_padded(&mut text, 1234, 2);
    assert_eq!(text, "day 061234");
}

#[test]
fn padding_matches_the_standard_formatter() {
    for n in [0u32, 1, 9, 10, 11, 99, 100, 101, 999, 1000, 9999, 10_000, 99_999, 123_456_789, u32::MAX] {
        assert_eq!(padded(n, 0), format!("{}", n));
        assert_eq!(padded(n, 2), format!("{:02}", n));
        assert_eq!(padded(n, 4), format!("{:04}", n));
        assert_eq!(padded(n, 11), format!("{:011}", n));
    }
}
