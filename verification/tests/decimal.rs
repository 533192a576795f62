use butido::dec::parse_u64_dec;
use butido::dec::u64_to_dec;
use butido::dec::u64_to_string;

#[test]
fn renders_zero() {
    assert_eq!(u64_to_string(0), "0");
    assert_eq!(u64_to_dec(0), b"0".to_vec());
}

#[test]
fn renders_digits() {
    assert_eq!(u64_to_string(7), "7");
    assert_eq!(u64_to_string(10), "10");
    assert_eq!(u64_to_string(1234567890), "1234567890");
    assert_eq!(u64_to_dec(409), b"409".to_vec());
}

#[test]
fn renders_max() {
    assert_eq!(u64_to_string(u64::MAX), "18446744073709551615");
}

#[test]
fn parses_back_what_it_renders() {
    for n in [0u64, 1, 9, 10, 99, 100, 4096, 1_000_000_007, u64::MAX] {
        let bytes = u64_to_dec(n);
        assert_eq!(parse_u64_dec(&bytes), Some(n));
    }
}

#[test]
fn parses_leading_zeros() {
    assert_eq!(parse_u64_dec(b"0042"), Some(42));
    assert_eq!(parse_u64_dec(b"000"), Some(0));
}

#[test]
fn rejects_empty_input() {
    assert_eq!(parse_u64_dec(b""), None);
}

#[test]
fn rejects_non_digits() {
    assert_eq!(parse_u64_dec(b"12a"), None);
    assert_eq!(parse_u64_dec(b"-5"), None);
    assert_eq!(parse_u64_dec(b" 7"), None);
}

#[test]
fn rejects_overflow() {
    assert_eq!(parse_u64_dec(b"18446744073709551616"), None);
    assert_eq!(parse_u64_dec(b"99999999999999999999999"), None);
    assert_eq!(parse_u64_dec(b"18446744073709551615"), Some(u64::MAX));
}
