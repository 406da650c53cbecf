use signal_relay::text::string_processing_test;

#[test]
fn test_string_processing() {
    let result = string_processing_test("test", 3);
    assert!(!result.is_empty());
}

#[test]
fn growth_appends_exact_lengths() {
    // "test" (4 chars) -> "test4" (5) -> "test45" (6) -> "test456"
    assert_eq!(string_processing_test("test", 3), "test456");
}

#[test]
fn growth_crosses_into_two_digit_lengths() {
    // "abcdefghi" (9 chars) -> +"9" (10) -> +"10" (12) -> +"12"
    assert_eq!(string_processing_test("abcdefghi", 3), "abcdefghi91012");
}

#[test]
fn growth_of_the_empty_string_starts_at_zero() {
    assert_eq!(string_processing_test("", 0), "");
    assert_eq!(string_processing_test("", 1), "0");
    assert_eq!(string_processing_test("", 2), "01");
}
