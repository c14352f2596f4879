use foph_diff::loader::{read_foph_bundles, LoadError};

#[test]
fn ndjson_lines_load() {
    let content = "\
{\"resourceType\":\"Bundle\",\"timestamp\":\"2024-03-05T00:00:00Z\",\"entry\":[]}\n\
not json at all\n\
{\"resourceType\":\"Bundle\",\"entry\":[]}\n";
    let bundles = read_foph_bundles(content).unwrap();
    assert_eq!(bundles.len(), 2);
    assert_eq!(bundles[0].timestamp.as_deref(), Some("2024-03-05T00:00:00Z"));
    assert_eq!(bundles[1].timestamp, None);
}

#[test]
fn non_bundle_documents_are_skipped() {
    let content = "{\"resourceType\":\"Bundle\"}\n{\"resourceType\":\"Patient\"}\n";
    let bundles = read_foph_bundles(content).unwrap();
    assert_eq!(bundles.len(), 1);
}

#[test]
fn concatenated_fallback_loads() {
    let content =
        "{\"resourceType\":\"Bundle\",\"entry\":[]}{\"resourceType\":\"Bundle\",\"entry\":[]}";
    let bundles = read_foph_bundles(content).unwrap();
    assert_eq!(bundles.len(), 2);
}

#[test]
fn fallback_respects_braces_inside_strings() {
    let content = "{\"resourceType\":\"Bundle\",\"note\":\"a } inside {\"}\
{\"resourceType\":\"Bundle\"}";
    let bundles = read_foph_bundles(content).unwrap();
    assert_eq!(bundles.len(), 2);
}

#[test]
fn fallback_spans_split_across_lines() {
    let content = "{\"resourceType\":\n\"Bundle\"}";
    let bundles = read_foph_bundles(content).unwrap();
    assert_eq!(bundles.len(), 1);
}

#[test]
fn unusable_input_is_a_fatal_load_error() {
    let r = read_foph_bundles("no json here, just noise");
    match r {
        Ok(_) => panic!("unusable input must not load"),
        Err(err) => {
            assert!(matches!(err, LoadError::NoBundles));
            assert!(!err.message().is_empty());
        }
    }
}

#[test]
fn empty_input_is_a_fatal_load_error() {
    assert!(read_foph_bundles("").is_err());
    assert!(read_foph_bundles("\n\n  \n").is_err());
}

#[test]
fn nested_last_updated_timestamp_is_used() {
    let content =
        "{\"resourceType\":\"Bundle\",\"meta\":{\"lastUpdated\":\"2024-04-01T00:00:00Z\"}}\n";
    let bundles = read_foph_bundles(content).unwrap();
    assert_eq!(bundles[0].timestamp.as_deref(), Some("2024-04-01T00:00:00Z"));
}
