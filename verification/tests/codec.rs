use hex_microservice::decimal::{dec_string_i64, parse_i64_str, render_i64};
use hex_microservice::short_url::to_string;

#[test]
fn hex_rendering_is_fixed_width_lowercase() {
    assert_eq!(to_string(&[0x00, 0xab, 0x0f]), "00ab0f");
    assert_eq!(to_string(&[]), "");
    assert_eq!(to_string(&[0xde, 0xad, 0xbe, 0xef]), "deadbeef");
    assert_eq!(to_string(&[1, 2, 3, 4, 5, 6, 7, 8]).len(), 16);
}

#[test]
fn decimal_rendering_exact_values() {
    assert_eq!(dec_string_i64(0), "0");
    assert_eq!(dec_string_i64(-1), "-1");
    assert_eq!(dec_string_i64(1234567890), "1234567890");
    assert_eq!(dec_string_i64(i64::MAX), "9223372036854775807");
    assert_eq!(dec_string_i64(i64::MIN), "-9223372036854775808");
    assert_eq!(String::from_utf8(render_i64(-420)).unwrap(), "-420");
}

#[test]
fn decimal_parsing_inverts_rendering() {
    let values: Vec<i64> = vec![0, 1, -1, 99, -100, i64::MAX, i64::MIN];
    for v in values {
        assert_eq!(parse_i64_str(&dec_string_i64(v)), Some(v));
    }
}

#[test]
fn decimal_parsing_is_lenient() {
    assert_eq!(parse_i64_str(""), None);
    assert_eq!(parse_i64_str("007"), Some(7));
    assert_eq!(parse_i64_str("+7"), Some(7));
    assert_eq!(parse_i64_str("-0"), Some(0));
    assert_eq!(parse_i64_str("+"), None);
    assert_eq!(parse_i64_str("-"), None);
    assert_eq!(parse_i64_str("12a"), None);
    assert_eq!(parse_i64_str(" 1"), None);
    assert_eq!(parse_i64_str("9223372036854775808"), None);
    assert_eq!(parse_i64_str("-9223372036854775809"), None);
    assert_eq!(parse_i64_str("9223372036854775807"), Some(i64::MAX));
    assert_eq!(parse_i64_str("-09223372036854775808"), Some(i64::MIN));
}
