use foph_diff::dates::extract_date_from_bundles;
use foph_diff::extract::process_bundles;
use foph_diff::loader::read_foph_bundles;

fn snapshot_text() -> String {
    let product = "{\"resource\":{\
\"resourceType\":\"PackagedProductDefinition\",\"id\":\"p1\",\
\"description\":\"Drug A\",\
\"packaging\":{\"identifier\":[{\"system\":\"urn:oid:2.51.1.1\",\"value\":\"7680123456785\"}]}}}";
    let auth = "{\"resource\":{\
\"resourceType\":\"RegulatedAuthorization\",\"id\":\"a1\",\
\"type\":{\"coding\":[{\"code\":\"756000002003\"}]},\
\"subject\":[{\"reference\":\"PackagedProductDefinition/p1\"}],\
\"extension\":[{\"url\":\"http://example/productPrice\",\"extension\":[\
{\"url\":\"type\",\"valueCodeableConcept\":{\"coding\":[{\"code\":\"756002005001\"}]}},\
{\"url\":\"value\",\"valueMoney\":{\"value\":10.5}},\
{\"url\":\"changeDate\",\"valueDate\":\"2024-01-01\"}]}]}}";
    format!(
        "{{\"resourceType\":\"Bundle\",\"timestamp\":\"2024-03-05T00:00:00Z\",\"entry\":[{},{}]}}\n",
        product, auth
    )
}

#[test]
fn pipeline_resolves_price_name_and_list_entry() {
    let bundles = read_foph_bundles(&snapshot_text()).unwrap();
    let date = extract_date_from_bundles(&bundles, (2000, 1, 1));
    assert_eq!(date, (2024, 3, 5));
    let map = process_bundles(&bundles, &date);
    assert_eq!(map.len(), 1);
    let info = map.get(7680123456785).unwrap();
    assert_eq!(info.name, "Drug A");
    assert_eq!(info.retail_price, 10_500);
    assert_eq!(info.exfactory_price, 0);
    assert!(info.has_sl_entry);
}

#[test]
fn product_without_gtin_is_dropped() {
    let content = "{\"resourceType\":\"Bundle\",\"entry\":[{\"resource\":{\
\"resourceType\":\"PackagedProductDefinition\",\"id\":\"p1\",\
\"description\":\"No Id\",\
\"packaging\":{\"identifier\":[{\"system\":\"urn:oid:2.51.1.1\",\"value\":\"123\"}]}}}]}\n";
    let bundles = read_foph_bundles(content).unwrap();
    let map = process_bundles(&bundles, &(2024, 3, 5));
    assert_eq!(map.len(), 0);
}

#[test]
fn product_without_price_or_list_entry_is_dropped() {
    let content = "{\"resourceType\":\"Bundle\",\"entry\":[{\"resource\":{\
\"resourceType\":\"PackagedProductDefinition\",\"id\":\"p1\",\
\"description\":\"Bare\",\
\"packaging\":{\"identifier\":[{\"system\":\"urn:oid:2.51.1.1\",\"value\":\"7680123456785\"}]}}}]}\n";
    let bundles = read_foph_bundles(content).unwrap();
    let map = process_bundles(&bundles, &(2024, 3, 5));
    assert_eq!(map.len(), 0);
}

#[test]
fn authorization_for_other_subject_is_ignored() {
    let product = "{\"resource\":{\
\"resourceType\":\"PackagedProductDefinition\",\"id\":\"p1\",\
\"description\":\"Drug A\",\
\"packaging\":{\"identifier\":[{\"system\":\"urn:oid:2.51.1.1\",\"value\":\"7680123456785\"}]}}}";
    let auth = "{\"resource\":{\
\"resourceType\":\"RegulatedAuthorization\",\"id\":\"a1\",\
\"type\":{\"coding\":[{\"code\":\"756000002003\"}]},\
\"subject\":[{\"reference\":\"PackagedProductDefinition/other\"}]}}";
    let content = format!(
        "{{\"resourceType\":\"Bundle\",\"entry\":[{},{}]}}\n",
        product, auth
    );
    let bundles = read_foph_bundles(&content).unwrap();
    let map = process_bundles(&bundles, &(2024, 3, 5));
    assert_eq!(map.len(), 0);
}

#[test]
fn wrong_identifier_system_is_not_a_gtin() {
    let product = "{\"resource\":{\
\"resourceType\":\"PackagedProductDefinition\",\"id\":\"p1\",\
\"description\":\"Drug A\",\
\"packaging\":{\"identifier\":[{\"system\":\"urn:oid:9.9.9\",\"value\":\"7680123456785\"}]}}}";
    let auth = "{\"resource\":{\
\"resourceType\":\"RegulatedAuthorization\",\"id\":\"a1\",\
\"type\":{\"coding\":[{\"code\":\"756000002003\"}]},\
\"subject\":[{\"reference\":\"PackagedProductDefinition/p1\"}]}}";
    let content = format!(
        "{{\"resourceType\":\"Bundle\",\"entry\":[{},{}]}}\n",
        product, auth
    );
    let bundles = read_foph_bundles(&content).unwrap();
    let map = process_bundles(&bundles, &(2024, 3, 5));
    assert_eq!(map.len(), 0);
}

#[test]
fn same_date_duplicate_sample_last_wins() {
    let product = "{\"resource\":{\
\"resourceType\":\"PackagedProductDefinition\",\"id\":\"p1\",\
\"description\":\"Drug A\",\
\"packaging\":{\"identifier\":[{\"system\":\"urn:oid:2.51.1.1\",\"value\":\"7680123456785\"}]}}}";
    let price = |amount: &str| {
        format!(
            "{{\"url\":\"http://example/productPrice\",\"extension\":[\
{{\"url\":\"type\",\"valueCodeableConcept\":{{\"coding\":[{{\"code\":\"756002005001\"}}]}}}},\
{{\"url\":\"value\",\"valueMoney\":{{\"value\":{}}}}},\
{{\"url\":\"changeDate\",\"valueDate\":\"2024-01-01\"}}]}}",
            amount
        )
    };
    let auth = format!(
        "{{\"resource\":{{\
\"resourceType\":\"RegulatedAuthorization\",\"id\":\"a1\",\
\"type\":{{\"coding\":[{{\"code\":\"756000002003\"}}]}},\
\"subject\":[{{\"reference\":\"PackagedProductDefinition/p1\"}}],\
\"extension\":[{},{}]}}}}",
        price("5"),
        price("7")
    );
    let content = format!(
        "{{\"resourceType\":\"Bundle\",\"entry\":[{},{}]}}\n",
        product, auth
    );
    let bundles = read_foph_bundles(&content).unwrap();
    let map = process_bundles(&bundles, &(2024, 3, 5));
    let info = map.get(7680123456785).unwrap();
    assert_eq!(info.retail_price, 7_000);
}

#[test]
fn every_snapshot_gtin_is_thirteen_digits_with_prefix() {
    let bundles = read_foph_bundles(&snapshot_text()).unwrap();
    let map = process_bundles(&bundles, &(2024, 3, 5));
    for i in 0..map.len() {
        let s = foph_diff::gtin::gtin_to_string(map.key_at(i));
        assert_eq!(s.len(), 13);
        assert!(s.starts_with("7680"));
    }
}

#[test]
fn one_step_snapshot_diff() {
    let old_bundles = read_foph_bundles(&snapshot_text()).unwrap();
    let new_text = snapshot_text().replace("10.5", "12.25");
    let new_bundles = read_foph_bundles(&new_text).unwrap();
    let d = foph_diff::diff::diff_snapshots(
        &old_bundles,
        &new_bundles,
        &(2024, 3, 5),
        &(2024, 3, 5),
    );
    assert_eq!(d.retail_up.len(), 1);
    assert_eq!(d.retail_up[0].gtin, "7680123456785");
    assert_eq!(d.retail_up[0].old_price, 10_500);
    assert_eq!(d.retail_up[0].new_price, 12_250);
    assert_eq!(d.retail_up[0].difference, 1_750);
    assert_eq!(d.new.len(), 0);
    assert_eq!(d.del.len(), 0);
}
