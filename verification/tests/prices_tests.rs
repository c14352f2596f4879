use foph_diff::prices::{get_effective_price, parse_money};

#[test]
fn money_integer() {
    assert_eq!(parse_money("10"), Some(10_000));
    assert_eq!(parse_money("0"), Some(0));
}

#[test]
fn money_fraction() {
    assert_eq!(parse_money("12.5"), Some(12_500));
    assert_eq!(parse_money("12.50"), Some(12_500));
    assert_eq!(parse_money("10.35"), Some(10_350));
}

#[test]
fn money_below_epsilon_truncates() {
    assert_eq!(parse_money("0.0009"), Some(0));
    assert_eq!(parse_money("10.1234"), Some(10_123));
}

#[test]
fn money_rejects_other_shapes() {
    assert_eq!(parse_money(""), None);
    assert_eq!(parse_money("-5"), None);
    assert_eq!(parse_money("1e3"), None);
    assert_eq!(parse_money("1."), None);
    assert_eq!(parse_money(".5"), None);
    assert_eq!(parse_money("1.2.3"), None);
    assert_eq!(parse_money("1234567890123456"), None);
}

#[test]
fn single_sample_on_or_before_reference_resolves_to_it() {
    let series = vec![((2024, 1, 1), 10_000u64)];
    assert_eq!(get_effective_price(&series, &(2024, 6, 1)), 10_000);
    assert_eq!(get_effective_price(&series, &(2024, 1, 1)), 10_000);
}

#[test]
fn only_future_samples_resolve_to_zero() {
    let series = vec![((2025, 1, 1), 10_000u64), ((2026, 2, 2), 9_000u64)];
    assert_eq!(get_effective_price(&series, &(2024, 6, 1)), 0);
}

#[test]
fn empty_series_resolves_to_zero() {
    let series: Vec<((i32, i32, i32), u64)> = Vec::new();
    assert_eq!(get_effective_price(&series, &(2024, 6, 1)), 0);
}

#[test]
fn latest_sample_not_after_reference_wins() {
    let series = vec![
        ((2024, 1, 1), 5_000u64),
        ((2024, 5, 1), 7_000u64),
        ((2024, 9, 1), 9_000u64),
    ];
    assert_eq!(get_effective_price(&series, &(2024, 6, 1)), 7_000);
    assert_eq!(get_effective_price(&series, &(2024, 3, 1)), 5_000);
    assert_eq!(get_effective_price(&series, &(2025, 1, 1)), 9_000);
}

#[test]
fn sample_order_does_not_matter() {
    let a = vec![((2024, 1, 1), 5_000u64), ((2024, 5, 1), 7_000u64)];
    let b = vec![((2024, 5, 1), 7_000u64), ((2024, 1, 1), 5_000u64)];
    let cur = (2024, 6, 1);
    assert_eq!(get_effective_price(&a, &cur), get_effective_price(&b, &cur));
}
