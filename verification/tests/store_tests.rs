use displayutil::codec::{decode_arrangement, encode_arrangement};
use displayutil::model::{Arrangement, DisplayLocation};
use displayutil::store::{load_arrangement, save_blob, StoreError};

fn arrangement(name: &str, positions: Vec<DisplayLocation>) -> Arrangement {
    Arrangement { name: name.to_string(), positions }
}

#[test]
fn encode_is_deterministic_text() {
    let a = arrangement(
        "default",
        vec![DisplayLocation::new(1, -1714, -1440), DisplayLocation::new(2, 0, 0)],
    );
    let s = encode_arrangement(&a);
    assert_eq!(
        s,
        "{\"name\":\"default\",\"configuration\":[{\"id\":1,\"x\":-1714,\"y\":-1440},{\"id\":2,\"x\":0,\"y\":0}]}"
    );
}

#[test]
fn encode_empty_positions() {
    let a = arrangement("default", vec![]);
    assert_eq!(encode_arrangement(&a), "{\"name\":\"default\",\"configuration\":[]}");
}

#[test]
fn round_trip_simple() {
    let a = arrangement(
        "default",
        vec![DisplayLocation::new(1, -1714, -1440), DisplayLocation::new(2, 0, 0)],
    );
    let s = encode_arrangement(&a);
    let b = decode_arrangement(s.as_str()).expect("canonical text must parse");
    assert_eq!(b.name, "default");
    assert_eq!(b.positions, a.positions);
}

#[test]
fn round_trip_empty_positions() {
    let a = arrangement("solo", vec![]);
    let s = encode_arrangement(&a);
    let b = decode_arrangement(s.as_str()).expect("canonical text must parse");
    assert_eq!(b.name, "solo");
    assert!(b.positions.is_empty());
}

#[test]
fn round_trip_escaped_name() {
    let a = arrangement(
        "we\"ird\\name",
        vec![DisplayLocation::new(7, 3, -4)],
    );
    let s = encode_arrangement(&a);
    let b = decode_arrangement(s.as_str()).expect("escaped name must parse");
    assert_eq!(b.name, "we\"ird\\name");
    assert_eq!(b.positions, a.positions);
}

#[test]
fn round_trip_extreme_values() {
    let a = arrangement(
        "edges",
        vec![
            DisplayLocation::new(0, i32::MIN, i32::MAX),
            DisplayLocation::new(u32::MAX, 0, -1),
        ],
    );
    let s = encode_arrangement(&a);
    let b = decode_arrangement(s.as_str()).expect("extreme values must parse");
    assert_eq!(b.positions, a.positions);
}

#[test]
fn decode_rejects_garbage() {
    assert!(decode_arrangement("").is_none());
    assert!(decode_arrangement("not an arrangement").is_none());
    assert!(decode_arrangement("{\"name\":\"x\"}").is_none());
    assert!(decode_arrangement("{\"name\":\"x\",\"configuration\":[").is_none());
    assert!(decode_arrangement("{\"name\":\"x\",\"configuration\":[{\"id\":1,\"x\":2}]}").is_none());
    assert!(decode_arrangement("{\"name\":\"x\",\"configuration\":[]} trailing").is_none());
    // an id beyond u32 or a coordinate beyond i32 is refused
    assert!(decode_arrangement(
        "{\"name\":\"x\",\"configuration\":[{\"id\":4294967296,\"x\":0,\"y\":0}]}"
    )
    .is_none());
    assert!(decode_arrangement(
        "{\"name\":\"x\",\"configuration\":[{\"id\":1,\"x\":2147483648,\"y\":0}]}"
    )
    .is_none());
}

#[test]
fn save_then_load_reproduces_arrangement() {
    let a = arrangement(
        "default",
        vec![DisplayLocation::new(2, 0, 0), DisplayLocation::new(1, -5, 9)],
    );
    let blob = save_blob(&a);
    let b = load_arrangement(Some(blob.as_str()), "default").expect("load must succeed");
    assert_eq!(b.name, a.name);
    assert_eq!(b.positions, a.positions);
}

#[test]
fn load_missing_blob_is_not_found() {
    assert_eq!(load_arrangement(None, "default").unwrap_err(), StoreError::NotFound);
}

#[test]
fn load_unreadable_blob_is_corrupt() {
    assert_eq!(
        load_arrangement(Some("{{nonsense}}"), "default").unwrap_err(),
        StoreError::Corrupt
    );
}

#[test]
fn load_foreign_name_is_mismatch_never_wrong_arrangement() {
    let a = arrangement("foo", vec![DisplayLocation::new(1, 2, 3)]);
    let blob = save_blob(&a);
    assert_eq!(
        load_arrangement(Some(blob.as_str()), "bar").unwrap_err(),
        StoreError::NameMismatch
    );
}

#[test]
fn display_location_new_sets_fields() {
    let d = DisplayLocation::new(9, -7, 11);
    assert_eq!(d.id, 9);
    assert_eq!(d.x, -7);
    assert_eq!(d.y, 11);
}
