use foph_diff::diff::{category_by_name, category_flags, category_gtins, compute_diff, Category};
use foph_diff::model::{PackageInfo, PackageMap};
use foph_diff::numeric_flags;
use foph_diff::numeric_flags::flag_label;

fn info(name: &str, retail: u64, exfactory: u64, sl: bool) -> PackageInfo {
    PackageInfo {
        name: name.to_string(),
        retail_price: retail,
        exfactory_price: exfactory,
        has_sl_entry: sl,
    }
}

#[test]
fn new_and_deleted_packages() {
    let mut old = PackageMap::new();
    old.insert(7680000000017, info("Old Only", 5_000, 0, false));
    old.insert(7680000000024, info("Both", 5_000, 0, false));
    let mut new = PackageMap::new();
    new.insert(7680000000024, info("Both", 5_000, 0, false));
    new.insert(7680000000031, info("New Only", 6_000, 0, false));
    let d = compute_diff(&old, &new);
    assert_eq!(d.new.len(), 1);
    assert_eq!(d.new[0].gtin, "7680000000031");
    assert_eq!(d.del.len(), 1);
    assert_eq!(d.del[0].gtin, "7680000000017");
    assert_eq!(d.sl_entry.len(), 0);
    assert_eq!(d.name_base.len(), 0);
}

#[test]
fn deleted_package_appears_only_in_del() {
    let mut old = PackageMap::new();
    old.insert(7680123456785, info("Drug A", 10_000, 2_000, true));
    let new = PackageMap::new();
    let d = compute_diff(&old, &new);
    let gone: Vec<&str> = d.del.iter().map(|r| r.gtin.as_str()).collect();
    assert_eq!(gone, vec!["7680123456785"]);
    assert_eq!(d.new.len(), 0);
    assert_eq!(d.sl_entry.len(), 0);
    assert_eq!(d.sl_entry_delete.len(), 0);
    assert_eq!(d.name_base.len(), 0);
    assert_eq!(d.retail_up.len(), 0);
    assert_eq!(d.retail_down.len(), 0);
    assert_eq!(d.exfactory_up.len(), 0);
    assert_eq!(d.exfactory_down.len(), 0);
}

#[test]
fn retail_rise_carries_prices_and_difference() {
    let mut old = PackageMap::new();
    old.insert(7680123456785, info("Drug A", 10_000, 0, false));
    let mut new = PackageMap::new();
    new.insert(7680123456785, info("Drug A", 12_500, 0, false));
    let d = compute_diff(&old, &new);
    assert_eq!(d.retail_up.len(), 1);
    let r = &d.retail_up[0];
    assert_eq!(r.gtin, "7680123456785");
    assert_eq!(r.old_price, 10_000);
    assert_eq!(r.new_price, 12_500);
    assert_eq!(r.difference, 2_500);
    assert_eq!(d.retail_down.len(), 0);
    assert_eq!(d.exfactory_up.len(), 0);
    assert_eq!(d.exfactory_down.len(), 0);
    assert_eq!(d.new.len(), 0);
    assert_eq!(d.del.len(), 0);
    assert_eq!(d.name_base.len(), 0);
}

#[test]
fn delta_below_epsilon_is_no_change() {
    let mut old = PackageMap::new();
    old.insert(7680123456785, info("Drug A", 10_000, 10_000, false));
    let mut new = PackageMap::new();
    new.insert(7680123456785, info("Drug A", 10_001, 9_999, false));
    let d = compute_diff(&old, &new);
    assert_eq!(d.retail_up.len(), 0);
    assert_eq!(d.retail_down.len(), 0);
    assert_eq!(d.exfactory_up.len(), 0);
    assert_eq!(d.exfactory_down.len(), 0);
}

#[test]
fn delta_just_above_epsilon_is_a_change() {
    let mut old = PackageMap::new();
    old.insert(7680123456785, info("Drug A", 10_000, 10_000, false));
    let mut new = PackageMap::new();
    new.insert(7680123456785, info("Drug A", 10_002, 9_998, false));
    let d = compute_diff(&old, &new);
    assert_eq!(d.retail_up.len(), 1);
    assert_eq!(d.exfactory_down.len(), 1);
    assert_eq!(d.exfactory_down[0].difference, -2);
}

#[test]
fn list_removal_without_prices_stays_out_of_del() {
    let mut old = PackageMap::new();
    old.insert(7680123456785, info("Drug A", 10_000, 0, true));
    let mut new = PackageMap::new();
    new.insert(7680123456785, info("Drug A", 0, 0, false));
    let d = compute_diff(&old, &new);
    assert_eq!(d.sl_entry_delete.len(), 1);
    assert_eq!(d.sl_entry_delete[0].gtin, "7680123456785");
    assert_eq!(d.del.len(), 0);
    assert_eq!(d.new.len(), 0);
}

#[test]
fn list_entry_gained() {
    let mut old = PackageMap::new();
    old.insert(7680123456785, info("Drug A", 10_000, 0, false));
    let mut new = PackageMap::new();
    new.insert(7680123456785, info("Drug A", 10_000, 0, true));
    let d = compute_diff(&old, &new);
    assert_eq!(d.sl_entry.len(), 1);
    assert_eq!(d.sl_entry_delete.len(), 0);
}

#[test]
fn name_change_carries_both_names() {
    let mut old = PackageMap::new();
    old.insert(7680123456785, info("Old Name", 10_000, 0, false));
    let mut new = PackageMap::new();
    new.insert(7680123456785, info("New Name", 10_000, 0, false));
    let d = compute_diff(&old, &new);
    assert_eq!(d.name_base.len(), 1);
    assert_eq!(d.name_base[0].old_name, "Old Name");
    assert_eq!(d.name_base[0].new_name, "New Name");
}

#[test]
fn diff_is_idempotent_on_identical_inputs() {
    let mut old = PackageMap::new();
    old.insert(7680000000017, info("A", 10_000, 0, true));
    old.insert(7680000000024, info("B", 0, 7_000, false));
    let mut new = PackageMap::new();
    new.insert(7680000000024, info("B2", 0, 9_000, true));
    new.insert(7680000000031, info("C", 1_000, 0, false));
    let d1 = compute_diff(&old, &new);
    let d2 = compute_diff(&old, &new);
    assert_eq!(d1.new.len(), d2.new.len());
    assert_eq!(d1.del.len(), d2.del.len());
    assert_eq!(d1.sl_entry.len(), d2.sl_entry.len());
    assert_eq!(d1.sl_entry_delete.len(), d2.sl_entry_delete.len());
    assert_eq!(d1.name_base.len(), d2.name_base.len());
    assert_eq!(d1.retail_up.len(), d2.retail_up.len());
    assert_eq!(d1.retail_down.len(), d2.retail_down.len());
    assert_eq!(d1.exfactory_up.len(), d2.exfactory_up.len());
    assert_eq!(d1.exfactory_down.len(), d2.exfactory_down.len());
    let g1: Vec<String> = d1.new.iter().map(|r| r.gtin.clone()).collect();
    let g2: Vec<String> = d2.new.iter().map(|r| r.gtin.clone()).collect();
    assert_eq!(g1, g2);
    let p1: Vec<(String, i64)> =
        d1.exfactory_up.iter().map(|r| (r.gtin.clone(), r.difference)).collect();
    let p2: Vec<(String, i64)> =
        d2.exfactory_up.iter().map(|r| (r.gtin.clone(), r.difference)).collect();
    assert_eq!(p1, p2);
}

#[test]
fn category_selector_aliases() {
    assert_eq!(category_by_name("new"), Some(Category::New));
    assert_eq!(category_by_name("del"), Some(Category::Del));
    assert_eq!(category_by_name("delete"), Some(Category::Del));
    assert_eq!(category_by_name("name"), Some(Category::NameBase));
    assert_eq!(category_by_name("productname"), Some(Category::NameBase));
    assert_eq!(category_by_name("price_rise_retail"), Some(Category::RetailUp));
    assert_eq!(category_by_name("exfactory_down"), Some(Category::ExfactoryDown));
}

#[test]
fn unknown_category_selector_is_rejected() {
    assert_eq!(category_by_name("bogus"), None);
    assert_eq!(category_by_name(""), None);
    assert_eq!(category_by_name("NEW"), None);
}

#[test]
fn category_gtin_listing() {
    let mut old = PackageMap::new();
    old.insert(7680000000017, info("A", 10_000, 0, false));
    let new = PackageMap::new();
    let d = compute_diff(&old, &new);
    let gtins = category_gtins(&d, Category::Del);
    assert_eq!(gtins, vec!["7680000000017".to_string()]);
    assert_eq!(category_gtins(&d, Category::New).len(), 0);
}

#[test]
fn flags_per_category() {
    assert_eq!(category_flags(Category::New), vec![numeric_flags::NEW]);
    assert_eq!(category_flags(Category::Del), vec![numeric_flags::DELETE]);
    assert_eq!(category_flags(Category::SlEntry), vec![numeric_flags::SL_ENTRY]);
    assert_eq!(
        category_flags(Category::SlEntryDelete),
        vec![numeric_flags::SL_ENTRY_DELETE]
    );
    assert_eq!(category_flags(Category::NameBase), vec![numeric_flags::NAME_BASE]);
    assert_eq!(
        category_flags(Category::RetailUp),
        vec![numeric_flags::PRICE, numeric_flags::PRICE_RISE]
    );
    assert_eq!(
        category_flags(Category::ExfactoryDown),
        vec![numeric_flags::PRICE, numeric_flags::PRICE_CUT]
    );
}

#[test]
fn flag_legend_is_fixed() {
    assert_eq!(flag_label(1).as_deref(), Some("new"));
    assert_eq!(flag_label(2).as_deref(), Some("sl_entry_delete"));
    assert_eq!(flag_label(3).as_deref(), Some("name_base"));
    assert_eq!(flag_label(10).as_deref(), Some("sl_entry"));
    assert_eq!(flag_label(11).as_deref(), Some("price"));
    assert_eq!(flag_label(13).as_deref(), Some("price_rise"));
    assert_eq!(flag_label(14).as_deref(), Some("delete"));
    assert_eq!(flag_label(15).as_deref(), Some("price_cut"));
    assert_eq!(flag_label(16).as_deref(), Some("not_specified"));
    assert_eq!(flag_label(0), None);
    assert_eq!(flag_label(17), None);
}

#[test]
fn map_union_last_write_wins() {
    let mut a = PackageMap::new();
    a.insert(7680123456785, info("First", 1_000, 0, false));
    let mut b = PackageMap::new();
    b.insert(7680123456785, info("Second", 2_000, 0, false));
    a.merge_from(&b);
    assert_eq!(a.len(), 1);
    let i = a.get(7680123456785).unwrap();
    assert_eq!(i.name, "Second");
    assert_eq!(i.retail_price, 2_000);
}
