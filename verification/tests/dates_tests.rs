use foph_diff::dates::{date_str_to_tuple, extract_date_from_bundles, parse_date_str};
use foph_diff::filenames::{extract_filename_date, extract_swissmedic_date};
use foph_diff::model::Bundle;

fn bundle_with_timestamp(ts: &str) -> Bundle {
    Bundle { timestamp: Some(ts.to_string()), entries: Vec::new() }
}

#[test]
fn parse_timestamp_date() {
    assert_eq!(parse_date_str("2024-03-05T10:00:00Z"), Some((2024, 3, 5)));
    assert_eq!(parse_date_str("2024-03-05"), Some((2024, 3, 5)));
}

#[test]
fn parse_timestamp_too_short() {
    assert_eq!(parse_date_str("2024-3-5"), None);
    assert_eq!(parse_date_str(""), None);
}

#[test]
fn parse_timestamp_non_digits() {
    assert_eq!(parse_date_str("20x4-03-05T00"), None);
}

#[test]
fn fallback_date_string_parsing() {
    assert_eq!(date_str_to_tuple("06.01.2026"), (2026, 1, 6));
    assert_eq!(date_str_to_tuple("1.2.2024"), (2024, 2, 1));
    assert_eq!(date_str_to_tuple("nonsense"), (2026, 1, 6));
    assert_eq!(date_str_to_tuple("a.b.2024"), (2024, 1, 1));
}

#[test]
fn effective_date_majority_wins() {
    let bundles = vec![
        bundle_with_timestamp("2024-03-05T00:00:00Z"),
        bundle_with_timestamp("2024-03-05T08:00:00Z"),
        bundle_with_timestamp("2024-03-06T00:00:00Z"),
    ];
    assert_eq!(extract_date_from_bundles(&bundles, (2000, 1, 1)), (2024, 3, 5));
}

#[test]
fn effective_date_tie_takes_greatest() {
    let bundles = vec![
        bundle_with_timestamp("2024-03-05T00:00:00Z"),
        bundle_with_timestamp("2024-03-06T00:00:00Z"),
    ];
    assert_eq!(extract_date_from_bundles(&bundles, (2000, 1, 1)), (2024, 3, 6));
}

#[test]
fn effective_date_fallback_when_no_timestamp() {
    let bundles = vec![Bundle { timestamp: None, entries: Vec::new() }];
    assert_eq!(extract_date_from_bundles(&bundles, (2021, 7, 9)), (2021, 7, 9));
}

#[test]
fn filename_date_between_underscores() {
    assert_eq!(
        extract_filename_date("dir/sl_foph_05.03.2024.ndjson"),
        Some("05.03.2024".to_string())
    );
    assert_eq!(extract_filename_date("nodate.ndjson"), None);
}

#[test]
fn swissmedic_date_from_packungen_convention() {
    assert_eq!(
        extract_swissmedic_date("Packungen-2024.03.05.xlsx"),
        Some("2024.03.05".to_string())
    );
}

#[test]
fn swissmedic_date_from_underscore_piece() {
    assert_eq!(
        extract_swissmedic_date("data_05.03.2024.csv"),
        Some("05.03.2024".to_string())
    );
}

#[test]
fn swissmedic_date_absent() {
    assert_eq!(extract_swissmedic_date("nodate.csv"), None);
}
