use foph_diff::gtin::{build_gtin, calculate_gtin_checksum, gtin_to_string, parse_gtin};

#[test]
fn parse_valid_gtin() {
    assert_eq!(parse_gtin("7680123456785"), Some(7680123456785u64));
}

#[test]
fn parse_rejects_wrong_prefix() {
    assert_eq!(parse_gtin("1234567890123"), None);
}

#[test]
fn parse_rejects_wrong_length() {
    assert_eq!(parse_gtin("768012345678"), None);
    assert_eq!(parse_gtin("76801234567890"), None);
}

#[test]
fn parse_rejects_non_digits() {
    assert_eq!(parse_gtin("7680abcdefghi"), None);
}

#[test]
fn gtin_renders_thirteen_digits_with_prefix() {
    let s = gtin_to_string(7680123456785);
    assert_eq!(s, "7680123456785");
    assert_eq!(s.len(), 13);
    assert!(s.starts_with("7680"));
}

#[test]
fn gtin_round_trip() {
    for g in [7680000000000u64, 7680123456785, 7680999999999] {
        assert_eq!(parse_gtin(&gtin_to_string(g)), Some(g));
    }
}

#[test]
fn checksum_known_value() {
    // weights 1,3,1,3,... : 7+18+8+0+1+6+3+12+5+18+7+24 = 109; (10 - 9) % 10 = 1
    assert_eq!(calculate_gtin_checksum("768012345678"), '1');
}

#[test]
fn checksum_wrong_length_is_x() {
    assert_eq!(calculate_gtin_checksum("1234"), 'X');
}

#[test]
fn build_gtin_pads_and_appends_checksum() {
    let g = build_gtin("12345", "678");
    assert_eq!(g.len(), 13);
    assert!(g.starts_with("768012345678"));
    assert_eq!(g, "7680123456781");
}

#[test]
fn build_gtin_short_inputs_are_padded() {
    let g = build_gtin("7", "1");
    assert!(g.starts_with("768000007001"));
    assert_eq!(g.len(), 13);
}

#[test]
fn build_gtin_filters_non_digits() {
    let g1 = build_gtin(" 12.345 ", "6a78");
    let g2 = build_gtin("12345", "678");
    assert_eq!(g1, g2);
}

#[test]
fn build_gtin_empty_registration_is_empty() {
    assert_eq!(build_gtin("abc", "123"), "");
}

#[test]
fn build_gtin_missing_pack_code_uses_zeros() {
    let g = build_gtin("54321", "");
    assert!(g.starts_with("768054321000"));
}
