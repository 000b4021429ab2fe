use osu_map_manager::bytes::{write_i32, write_uleb128, ByteCursor, ByteError};
use osu_map_manager::collection::{
    add_to_collection, create_collection, delete_collection, parse_collection_db,
    upsert_collection_hashes, write_db, write_osu_string, CollectionDb, CollectionEntry,
    CollectionError,
};

fn entry(name: &str, hashes: &[&str]) -> CollectionEntry {
    CollectionEntry {
        name: name.to_owned(),
        hashes: hashes.iter().map(|h| (*h).to_owned()).collect(),
    }
}

#[test]
fn updates_named_collection_without_removing_others() {
    let db = CollectionDb {
        version: 20250107,
        collections: vec![entry("keep", &["aaa"]), entry("replace", &["old"])],
    };
    let mut bytes = Vec::new();
    write_i32(&mut bytes, db.version);
    write_i32(&mut bytes, db.collections.len() as i32);
    for collection in &db.collections {
        write_osu_string(&mut bytes, &collection.name);
        write_i32(&mut bytes, collection.hashes.len() as i32);
        for hash in &collection.hashes {
            write_osu_string(&mut bytes, hash);
        }
    }

    let parsed = parse_collection_db(&bytes).unwrap();
    assert_eq!(parsed.collections.len(), 2);
    assert_eq!(parsed.collections[0].name, "keep");
    assert_eq!(parsed.collections[0].hashes, ["aaa"]);
    assert_eq!(parsed.collections[1].name, "replace");
    assert_eq!(parsed.collections[1].hashes, ["old"]);
}

#[test]
fn saves_renames_and_deletes_collections_in_memory() {
    let mut db = CollectionDb::empty();
    assert_eq!(db.version, 20250107);
    upsert_collection_hashes(&mut db, "first", vec!["aaa".to_owned(), "bbb".to_owned()]);
    upsert_collection_hashes(&mut db, "second", vec!["ccc".to_owned()]);
    let mut loaded = parse_collection_db(&write_db(&db)).unwrap();
    assert_eq!(loaded.collections.len(), 2);
    assert_eq!(loaded.collections[0].name, "first");
    assert_eq!(loaded.collections[0].hashes, ["aaa", "bbb"]);

    assert!(delete_collection(&mut loaded, "first"));
    assert!(!delete_collection(&mut loaded, "first"));
    upsert_collection_hashes(&mut loaded, "renamed", vec!["bbb".to_owned()]);
    let reloaded = parse_collection_db(&write_db(&loaded)).unwrap();
    let names: Vec<&str> = reloaded.collections.iter().map(|c| c.name.as_str()).collect();
    assert_eq!(names, ["second", "renamed"]);
}

#[test]
fn collections_are_created_and_added_to() {
    let db = create_collection(None, "new");
    assert_eq!(db.version, 20250107);
    assert_eq!(db.collections.len(), 1);
    assert!(db.collections[0].hashes.is_empty());
    let db = add_to_collection(Some(db), "new", &vec!["a".to_owned(), "b".to_owned(), "a".to_owned()]);
    assert_eq!(db.collections[0].hashes, ["a", "b"]);
    let db = add_to_collection(Some(db), "new", &vec!["b".to_owned(), "c".to_owned()]);
    assert_eq!(db.collections[0].hashes, ["a", "b", "c"]);
    let db = create_collection(Some(db), "new");
    assert!(db.collections[0].hashes.is_empty());
}

#[test]
fn cut_files_are_refused_and_bytes_behind_ignored() {
    let mut db = CollectionDb::empty();
    upsert_collection_hashes(&mut db, "first", vec!["aaa".to_owned(), String::new()]);
    upsert_collection_hashes(&mut db, "漢字", vec!["ccc".to_owned()]);
    let bytes = write_db(&db);
    for k in 0..bytes.len() {
        assert!(parse_collection_db(&bytes[..k]).is_err());
    }
    let mut longer = bytes.clone();
    longer.extend([0xff, 0x0b, 0]);
    let read = parse_collection_db(&longer).unwrap();
    assert_eq!(write_db(&read), bytes);
}

#[test]
fn round_trip_keeps_long_and_foreign_names() {
    let long = "é漢字🎵".repeat(100);
    let db = CollectionDb {
        version: -5,
        collections: vec![entry(&long, &["", "x"]), entry("", &[])],
    };
    let bytes = write_db(&db);
    let back = parse_collection_db(&bytes).unwrap();
    assert_eq!(back.version, -5);
    assert_eq!(back.collections[0].name, long);
    assert_eq!(back.collections[0].hashes, ["", "x"]);
    assert_eq!(back.collections[1].name, "");
}

#[test]
fn every_fault_of_a_collection_file_is_told() {
    let end = CollectionError::Bytes(ByteError::UnexpectedEnd);
    assert_eq!(parse_collection_db(&[]).unwrap_err(), end);
    let mut bytes = Vec::new();
    write_i32(&mut bytes, 1);
    write_i32(&mut bytes, -1);
    assert_eq!(parse_collection_db(&bytes).unwrap_err(), CollectionError::NegativeCollectionCount);

    let mut head = Vec::new();
    write_i32(&mut head, 1);
    write_i32(&mut head, 1);
    let mut bytes = head.clone();
    bytes.push(5);
    assert_eq!(parse_collection_db(&bytes).unwrap_err(), CollectionError::InvalidMarker(5));

    let mut bytes = head.clone();
    write_osu_string(&mut bytes, "name");
    write_i32(&mut bytes, -2);
    assert_eq!(
        parse_collection_db(&bytes).unwrap_err(),
        CollectionError::NegativeBeatmapCount("name".to_owned())
    );

    let mut bytes = head.clone();
    bytes.extend([0x0b, 1, 0xff]);
    assert_eq!(parse_collection_db(&bytes).unwrap_err(), CollectionError::InvalidUtf8);

    let mut bytes = head.clone();
    bytes.push(0x0b);
    bytes.extend([0xff; 10]);
    bytes.push(0);
    assert_eq!(
        parse_collection_db(&bytes).unwrap_err(),
        CollectionError::LengthTooLarge
    );

    let mut bytes = head.clone();
    bytes.push(0x0b);
    write_uleb128(&mut bytes, u64::MAX);
    assert_eq!(
        parse_collection_db(&bytes).unwrap_err(),
        CollectionError::Bytes(ByteError::OffsetOverflow)
    );
}

#[test]
fn lengths_round_trip() {
    for value in [0_u64, 1, 127, 128, 300, 16384, 1 << 35, u64::MAX] {
        let mut bytes = Vec::new();
        write_uleb128(&mut bytes, value);
        let mut cursor = ByteCursor { bytes: &bytes, offset: 0 };
        assert_eq!(cursor.read_uleb128(), Ok(value));
        assert_eq!(cursor.offset, bytes.len());
    }
    // The tenth byte has one bit to give.
    let bytes = [0x80, 0x80, 0x80, 0x80, 0x80, 0x80, 0x80, 0x80, 0x80, 0x7f];
    let mut cursor = ByteCursor { bytes: &bytes, offset: 0 };
    assert_eq!(cursor.read_uleb128(), Ok(1 << 63));
    for value in [0, 1, -1, i32::MAX, i32::MIN] {
        let mut bytes = Vec::new();
        write_i32(&mut bytes, value);
        assert_eq!(bytes, value.to_le_bytes());
        let mut cursor = ByteCursor { bytes: &bytes, offset: 0 };
        assert_eq!(cursor.read_i32(), Ok(value));
    }
}

#[test]
fn errors_have_messages() {
    let texts = [
        (CollectionError::Bytes(ByteError::OffsetOverflow), "collection.db offset overflow"),
        (CollectionError::Bytes(ByteError::UnexpectedEnd), "unexpected end of collection.db"),
        (CollectionError::LengthTooLarge, "uleb128 value is too large"),
        (CollectionError::InvalidUtf8, "collection string is not valid UTF-8"),
        (CollectionError::InvalidMarker(0x7f), "invalid osu string marker 0x7f"),
        (CollectionError::NegativeCollectionCount, "negative collection count"),
        (
            CollectionError::NegativeBeatmapCount("x".to_owned()),
            "negative beatmap count for collection x",
        ),
    ];
    for (error, text) in texts {
        assert_eq!(error.message(), text);
    }
}
