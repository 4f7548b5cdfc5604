use vrbag_s102::metadata::{classify_metadata_item, MetadataEntry};

fn min_of(item: &str) -> Option<String> {
    match classify_metadata_item(item) {
        MetadataEntry::MinResolution(v) => Some(v),
        _ => None,
    }
}

fn max_of(item: &str) -> Option<String> {
    match classify_metadata_item(item) {
        MetadataEntry::MaxResolution(v) => Some(v),
        _ => None,
    }
}

#[test]
fn metadata_min_and_max() {
    assert_eq!(min_of("MIN_RESOLUTION_X=0.5"), Some("0.5".to_string()));
    assert_eq!(max_of("  MAX_RESOLUTION_Y =  4.0 "), Some("4.0".to_string()));
}

#[test]
fn metadata_splits_at_first_equals() {
    assert_eq!(min_of("MIN_RESOLUTION=a=b"), Some("a=b".to_string()));
}

#[test]
fn metadata_other_items() {
    assert!(matches!(classify_metadata_item("no equals here"), MetadataEntry::Other));
    assert!(matches!(classify_metadata_item("RESOLUTION=1"), MetadataEntry::Other));
    assert!(matches!(classify_metadata_item("min_resolution=1"), MetadataEntry::Other));
    assert!(matches!(classify_metadata_item("MIN_RESOLUTION"), MetadataEntry::Other));
}

#[test]
fn metadata_trims_unicode_white_space() {
    assert_eq!(min_of("\u{3000}MIN_RESOLUTION\t=\u{00A0}2\n"), Some("2".to_string()));
}
