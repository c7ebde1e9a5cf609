use ikv::offset_store::{KafkaOffsetStoreEntry, OffsetStore};

#[test]
pub fn offset_store_test_test_lifecycle() {
    // not valid without a file
    assert!(OffsetStore::is_valid_index(&None).is_err());

    // create new, then re-open
    let store = OffsetStore::open_or_create(None);
    let file = store.close();
    let store = OffsetStore::open_or_create(Some(file.clone()));
    let _ = store.close();

    // is valid with a file
    assert!(OffsetStore::is_valid_index(&Some(file)).is_ok());

    // delete all: the file is gone again
    assert!(OffsetStore::is_valid_index(&None).is_err());
}

#[test]
pub fn offset_store_test_empty_store() {
    let offset_store = OffsetStore::open_or_create(None);
    assert_eq!(offset_store.read_all_offsets().unwrap().len(), 0);
}

#[test]
pub fn offset_store_test_write_then_read() {
    let list = vec![
        KafkaOffsetStoreEntry {
            topic: "topic_a".to_string(),
            partition: 0,
            offset: 100,
        },
        KafkaOffsetStoreEntry {
            topic: "topic_b".to_string(),
            partition: 1,
            offset: 200,
        },
        KafkaOffsetStoreEntry {
            topic: "topic_c".to_string(),
            partition: 2,
            offset: 300,
        },
    ];

    let mut offset_store = OffsetStore::open_or_create(None);

    // write multiple times, intermediate writes have no effect
    assert!(offset_store.write_all_offsets(&list).is_ok());
    assert!(offset_store.write_all_offsets(&Vec::new()).is_ok());
    assert!(offset_store.write_all_offsets(&list).is_ok());

    // a written store is a valid index
    let file = offset_store.close();
    assert!(OffsetStore::is_valid_index(&Some(file.clone())).is_ok());
    let offset_store = OffsetStore::open_or_create(Some(file));

    // read
    let mut list = offset_store.read_all_offsets().unwrap();
    assert_eq!(list.len(), 3);

    list.sort_by(|e1, e2| e1.topic.cmp(&e2.topic));

    assert_eq!(list[0].topic, "topic_a");
    assert_eq!(list[0].partition, 0);
    assert_eq!(list[0].offset, 100);

    assert_eq!(list[1].topic, "topic_b");
    assert_eq!(list[1].partition, 1);
    assert_eq!(list[1].offset, 200);

    assert_eq!(list[2].topic, "topic_c");
    assert_eq!(list[2].partition, 2);
    assert_eq!(list[2].offset, 300);
}

#[test]
fn offset_store_corrupt_file() {
    let store = OffsetStore::open_or_create(Some(vec![9, 9]));
    let e = store.read_all_offsets().unwrap_err();
    assert!(matches!(e, ikv::error::IndexError::SystemError(_)));
}

#[test]
fn resume_offset_picks_first_match() {
    let list = vec![
        KafkaOffsetStoreEntry {
            topic: "t".to_string(),
            partition: 1,
            offset: 5,
        },
        KafkaOffsetStoreEntry {
            topic: "t".to_string(),
            partition: 0,
            offset: 42,
        },
    ];
    assert_eq!(ikv::consumer::resume_offset(&list, "t", 0), Some(42));
    assert_eq!(ikv::consumer::resume_offset(&list, "t", 7), None);
    assert_eq!(ikv::consumer::resume_offset(&list, "u", 0), None);
}
