use nordconf::strutil::{decimal_chars, u64_to_string};

#[test]
fn strutil_decimal_of_small_numbers() {
    assert_eq!(u64_to_string(0), "0");
    assert_eq!(u64_to_string(7), "7");
    assert_eq!(u64_to_string(10), "10");
    assert_eq!(u64_to_string(1234), "1234");
}

#[test]
fn strutil_decimal_of_large_numbers() {
    assert_eq!(u64_to_string(18_446_744_073_709_551_615), "18446744073709551615");
    assert_eq!(u64_to_string(1_000_000), "1000000");
}

#[test]
fn strutil_decimal_chars_match_string() {
    let chars = decimal_chars(90210);
    let s: String = chars.into_iter().collect();
    assert_eq!(s, "90210");
}
