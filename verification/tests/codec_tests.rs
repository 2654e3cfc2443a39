use poki_launcher::codec::{DecodeError, FORMAT_VERSION};
use poki_launcher::record::{AppRecord, ExecutionSpec};
use poki_launcher::store::IndexStore;

fn record(id: u64, name: &str, path: &str, usage: u64, last: Option<u64>) -> AppRecord {
    AppRecord {
        id,
        name: name.to_string(),
        launch: ExecutionSpec::new(format!("run {}", name), format!("{}.svg", name)),
        usage_count: usage,
        last_used: last,
        source_path: path.to_string(),
    }
}

fn small_store() -> IndexStore {
    let r = AppRecord {
        id: 0,
        name: "A".to_string(),
        launch: ExecutionSpec::new("b".to_string(), String::new()),
        usage_count: 2,
        last_used: Some(3),
        source_path: "/c".to_string(),
    };
    IndexStore::from_parts(vec![r], vec![], 1).unwrap()
}

fn small_bytes() -> Vec<u8> {
    let mut b: Vec<u8> = vec![0x50, 0x4b, 0x4c, 0x49];
    b.extend_from_slice(&[1, 0, 0, 0]);
    b.extend_from_slice(&[1, 0, 0, 0, 0, 0, 0, 0]);
    b.extend_from_slice(&[1, 0, 0, 0, 0, 0, 0, 0]);
    b.extend_from_slice(&[0, 0, 0, 0, 0, 0, 0, 0]);
    b.extend_from_slice(&[2, 0, 0, 0, 0, 0, 0, 0]);
    b.extend_from_slice(&[1, 3, 0, 0, 0, 0, 0, 0, 0]);
    b.extend_from_slice(&[1, 0, 0, 0, 0, 0, 0, 0, 0x41]);
    b.extend_from_slice(&[1, 0, 0, 0, 0, 0, 0, 0, 0x62]);
    b.extend_from_slice(&[0, 0, 0, 0, 0, 0, 0, 0]);
    b.extend_from_slice(&[2, 0, 0, 0, 0, 0, 0, 0, 0x2f, 0x63]);
    b
}

#[test]
fn format_version_is_one() {
    assert_eq!(FORMAT_VERSION, 1);
}

#[test]
fn serialize_writes_the_documented_bytes() {
    assert_eq!(small_store().serialize(), small_bytes());
    let empty = IndexStore::new(vec!["/ignored".to_string()]);
    assert_eq!(
        empty.serialize(),
        vec![0x50, 0x4b, 0x4c, 0x49, 1, 0, 0, 0, 0, 0, 0, 0, 0, 0, 0, 0, 0, 0, 0, 0, 0, 0, 0, 0]
    );
}

#[test]
fn deserialize_reads_the_documented_bytes() {
    assert_eq!(IndexStore::deserialize(&small_bytes(), vec![]), Ok(small_store()));
}

#[test]
fn a_store_survives_the_round_trip() {
    let records = vec![
        record(7, "Firefox", "/usr/share/applications/firefox.desktop", 12, Some(1_700_000_000)),
        record(2, "Dateien – Übersicht", "/home/ü/.local/файлы.desktop", 0, None),
        record(9, "", "", u64::MAX, Some(u64::MAX)),
        record(0, "終端", "/opt/term.desktop", 1, Some(0)),
    ];
    let paths = vec!["/usr/share/applications".to_string(), "~/.local/share".to_string()];
    let store = IndexStore::from_parts(records, paths.clone(), 10).unwrap();
    let bytes = store.serialize();
    let back = IndexStore::deserialize(&bytes, paths).unwrap();
    assert_eq!(back, store);
    assert_eq!(back.next_id(), 10);
    assert_eq!(back.records()[0].id, 7);
    assert_eq!(back.records()[0].usage_count, 12);
    assert_eq!(back.records()[1].name, "Dateien – Übersicht");
    assert_eq!(back.serialize(), bytes);
}

#[test]
fn usage_recorded_before_a_save_is_there_after_a_load() {
    let mut store = IndexStore::from_parts(vec![record(0, "A", "/a", 0, None)], vec![], 1).unwrap();
    store.record_usage(0, 55).unwrap();
    let back = IndexStore::deserialize(&store.serialize(), vec![]).unwrap();
    assert_eq!(back.get(0).unwrap().usage_count, 1);
    assert_eq!(back.get(0).unwrap().last_used, Some(55));
}

#[test]
fn search_paths_come_from_the_caller() {
    let store = IndexStore::new(vec!["/one".to_string()]);
    let back = IndexStore::deserialize(&store.serialize(), vec!["/two".to_string()]).unwrap();
    assert_eq!(back.search_paths(), &vec!["/two".to_string()]);
}

#[test]
fn truncated_input_is_refused() {
    let bytes = small_bytes();
    for len in 0..bytes.len() {
        if len >= 4 && len < 8 {
            assert_eq!(IndexStore::deserialize(&bytes[..len], vec![]), Err(DecodeError::Truncated));
        } else {
            assert_eq!(
                IndexStore::deserialize(&bytes[..len], vec![]),
                Err(DecodeError::Truncated),
                "prefix of {} bytes",
                len
            );
        }
    }
}

#[test]
fn a_wrong_magic_number_is_refused() {
    let mut bytes = small_bytes();
    bytes[2] = 0x4d;
    assert_eq!(IndexStore::deserialize(&bytes, vec![]), Err(DecodeError::BadMagic));
    assert_eq!(IndexStore::deserialize(b"nope", vec![]), Err(DecodeError::BadMagic));
}

#[test]
fn another_version_is_refused() {
    let mut bytes = small_bytes();
    bytes[4] = 2;
    assert_eq!(IndexStore::deserialize(&bytes, vec![]), Err(DecodeError::UnsupportedVersion));
    bytes[4] = 1;
    bytes[7] = 1;
    assert_eq!(IndexStore::deserialize(&bytes, vec![]), Err(DecodeError::UnsupportedVersion));
}

#[test]
fn a_wrong_tag_is_refused() {
    let mut bytes = small_bytes();
    assert_eq!(bytes[40], 1);
    bytes[40] = 2;
    assert_eq!(IndexStore::deserialize(&bytes, vec![]), Err(DecodeError::BadTag));
}

#[test]
fn text_that_is_not_utf8_is_refused() {
    let mut bytes = small_bytes();
    assert_eq!(bytes[57], 0x41);
    bytes[57] = 0xff;
    assert_eq!(IndexStore::deserialize(&bytes, vec![]), Err(DecodeError::BadText));
    bytes[57] = 0x80;
    assert_eq!(IndexStore::deserialize(&bytes, vec![]), Err(DecodeError::BadText));
}

#[test]
fn trailing_bytes_are_refused() {
    let mut bytes = small_bytes();
    bytes.push(0);
    assert_eq!(IndexStore::deserialize(&bytes, vec![]), Err(DecodeError::TrailingBytes));
}

#[test]
fn records_that_make_no_valid_store_are_refused() {
    let mut bytes = small_bytes();
    bytes[8] = 0;
    assert_eq!(IndexStore::deserialize(&bytes, vec![]), Err(DecodeError::InvalidStore));
    let twice = vec![record(0, "A", "/a", 0, None), record(1, "B", "/b", 0, None)];
    let mut bytes = IndexStore::from_parts(twice, vec![], 2).unwrap().serialize();
    let second_id = bytes.len() - (8 + 8 + 1 + 9 + 13 + 13 + 10);
    assert_eq!(bytes[second_id], 1);
    bytes[second_id] = 0;
    assert_eq!(IndexStore::deserialize(&bytes, vec![]), Err(DecodeError::InvalidStore));
}

#[test]
fn a_count_larger_than_the_file_is_refused() {
    let mut bytes = small_bytes();
    bytes[16] = 2;
    assert_eq!(IndexStore::deserialize(&bytes, vec![]), Err(DecodeError::Truncated));
    for b in &mut bytes[16..24] {
        *b = 0xff;
    }
    assert_eq!(IndexStore::deserialize(&bytes, vec![]), Err(DecodeError::Truncated));
}

#[test]
fn a_text_length_larger_than_the_file_is_refused() {
    let mut bytes = small_bytes();
    for b in &mut bytes[49..57] {
        *b = 0xff;
    }
    assert_eq!(IndexStore::deserialize(&bytes, vec![]), Err(DecodeError::Truncated));
}
