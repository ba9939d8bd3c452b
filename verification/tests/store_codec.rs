use steamer::codec::encode_store;
use steamer::record::{AppDetails, Requirements};
use steamer::store::Cache;

fn sample_record(id: i64, name: &str, free: bool) -> AppDetails {
    AppDetails {
        id,
        name: String::from(name),
        is_free: free,
        short_description: format!("all about {name}"),
        pc_requirements: Requirements {
            minimum: Some(String::from("a cpu")),
            recommended: None,
        },
    }
}

#[test]
fn round_trip_two_records() {
    let mut c = Cache::empty();
    c.insert(42, sample_record(42, "portal maze", false));
    c.insert(7, sample_record(7, "seven wonders", true));
    let bytes = c.to_bytes();
    let back = Cache::from_bytes(&bytes).expect("a saved store must load");
    assert_eq!(back.len(), 2);
    assert_eq!(back.get(42), Some(&sample_record(42, "portal maze", false)));
    assert_eq!(back.get(7), Some(&sample_record(7, "seven wonders", true)));
    assert_eq!(back.get(8), None);
}

#[test]
fn round_trip_empty_store() {
    let c = Cache::empty();
    let back = Cache::from_bytes(&c.to_bytes()).expect("an empty store still loads");
    assert_eq!(back.len(), 0);
}

#[test]
fn round_trip_keeps_non_ascii_text() {
    let mut c = Cache::empty();
    let rec = AppDetails {
        id: 1,
        name: String::from("caf\u{e9} m\u{fc}nster \u{1f3ae}"),
        is_free: false,
        short_description: String::new(),
        pc_requirements: Requirements { minimum: None, recommended: None },
    };
    c.insert(1, rec.clone());
    let back = Cache::from_bytes(&c.to_bytes()).unwrap();
    assert_eq!(back.get(1), Some(&rec));
}

#[test]
fn compressed_bytes_differ_from_plain_encoding() {
    let mut c = Cache::empty();
    c.insert(3, sample_record(3, "three", true));
    assert_ne!(c.to_bytes(), encode_store(&c));
}

#[test]
fn plain_uncompressed_encoding_does_not_load() {
    let mut c = Cache::empty();
    c.insert(3, sample_record(3, "three", true));
    assert!(Cache::from_bytes(&encode_store(&c)).is_none());
}

#[test]
fn garbage_bytes_yield_empty_store() {
    let junk = vec![1u8, 2, 3, 4, 5, 6, 7, 8, 9];
    let c = Cache::load_or_empty(&Some(junk));
    assert_eq!(c.len(), 0);
}

#[test]
fn truncated_file_yields_empty_store() {
    let mut full = Cache::empty();
    full.insert(9, sample_record(9, "nine lives", false));
    let mut bytes = full.to_bytes();
    bytes.truncate(bytes.len() - 1);
    let c = Cache::load_or_empty(&Some(bytes));
    assert_eq!(c.len(), 0);
}

#[test]
fn missing_file_yields_empty_store() {
    let c = Cache::load_or_empty(&None);
    assert_eq!(c.len(), 0);
}

#[test]
fn insert_replaces_existing_record() {
    let mut c = Cache::empty();
    c.insert(5, sample_record(5, "first", false));
    c.insert(5, sample_record(5, "second", true));
    assert_eq!(c.len(), 1);
    assert_eq!(c.get(5), Some(&sample_record(5, "second", true)));
}

#[test]
fn contains_tracks_insertions() {
    let mut c = Cache::empty();
    assert!(!c.contains(11));
    c.insert(11, sample_record(11, "eleven", true));
    assert!(c.contains(11));
    assert!(!c.contains(12));
}
