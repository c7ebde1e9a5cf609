use ikv::ckv::{CKVIndex, PartitionDisk};
use ikv::config::IKVStoreConfig;
use ikv::consumer::{ConsumerAction, ConsumerEvent, ConsumerState, OffsetCommitter};
use ikv::document::Document;
use ikv::maps::StringMap;
use ikv::offset_store::OffsetStore;
use ikv::processor::{IKVDataEvent, WritesProcessor};
use ikv::testing::{bytes_to_field_value, i32_to_field_value, string_to_field_value};
use ikv::field::{FieldType, FieldValue};
use ikv::segment::CKVIndexSegment;

fn user_config() -> IKVStoreConfig {
    let mut cfg = IKVStoreConfig::new();
    cfg.set_string("mount_directory".to_string(), "/tmp/scenarios".to_string());
    cfg.set_string("store_name".to_string(), "users".to_string());
    cfg.set_string("primary_key_field_name".to_string(), "userid".to_string());
    cfg.set_int("partition".to_string(), 0);
    cfg
}

fn user_document() -> Document {
    let mut doc: Document = StringMap::new();
    doc.insert("userid".to_string(), string_to_field_value("id:0"));
    doc.insert("name".to_string(), string_to_field_value("name:0"));
    doc.insert("age".to_string(), i32_to_field_value(0));
    doc.insert("embedding".to_string(), bytes_to_field_value(b"embedding:0"));
    doc
}

#[test]
fn upsert_then_read() {
    let cfg = user_config();
    let mut index = CKVIndex::open_or_create(PartitionDisk::empty(), &cfg, 1).unwrap();
    let doc = user_document();
    index.upsert_field_values(&doc).unwrap();
    assert_eq!(
        index.get_field_value(b"id:0", "name").unwrap(),
        b"name:0".to_vec()
    );
    assert_eq!(
        index.get_field_value(b"id:0", "age").unwrap(),
        vec![0x00, 0x00, 0x00, 0x00]
    );
}

#[test]
fn field_delete_then_read() {
    let cfg = user_config();
    let mut index = CKVIndex::open_or_create(PartitionDisk::empty(), &cfg, 1).unwrap();
    let doc = user_document();
    index.upsert_field_values(&doc).unwrap();
    index
        .delete_field_values(&doc, &vec!["name".to_string()])
        .unwrap();
    assert!(index.get_field_value(b"id:0", "name").is_none());
    assert_eq!(
        index.get_field_value(b"id:0", "age").unwrap(),
        vec![0x00, 0x00, 0x00, 0x00]
    );
}

#[test]
fn document_delete_then_read() {
    let cfg = user_config();
    let mut index = CKVIndex::open_or_create(PartitionDisk::empty(), &cfg, 1).unwrap();
    let doc = user_document();
    index.upsert_field_values(&doc).unwrap();
    index.delete_document(&doc).unwrap();
    assert!(index.get_field_value(b"id:0", "userid").is_none());
    assert!(index.get_field_value(b"id:0", "name").is_none());
    assert!(index.get_field_value(b"id:0", "age").is_none());
    assert!(index.get_field_value(b"id:0", "embedding").is_none());
}

fn numbered_user_document(n: u32) -> Document {
    let mut doc: Document = StringMap::new();
    doc.insert(
        "userid".to_string(),
        string_to_field_value(&format!("id:{}", n)),
    );
    doc.insert(
        "name".to_string(),
        string_to_field_value(&format!("name:{}", n)),
    );
    doc.insert("age".to_string(), i32_to_field_value(n as i32));
    doc.insert(
        "embedding".to_string(),
        bytes_to_field_value(format!("embedding:{}", n).as_bytes()),
    );
    doc
}

#[test]
fn drop_field_then_drop_all() {
    let cfg = user_config();
    let mut index = CKVIndex::open_or_create(PartitionDisk::empty(), &cfg, 1).unwrap();
    for n in 0..3 {
        index.upsert_field_values(&numbered_user_document(n)).unwrap();
    }
    index
        .drop_fields(&vec!["embedding".to_string()], &vec![])
        .unwrap();
    for n in 0..3 {
        let pk = format!("id:{}", n).into_bytes();
        assert!(index.get_field_value(&pk, "embedding").is_none());
    }
    index.drop_all_documents().unwrap();
    for n in 0..3 {
        let pk = format!("id:{}", n).into_bytes();
        assert!(index.get_field_value(&pk, "userid").is_none());
        assert!(index.get_field_value(&pk, "name").is_none());
        assert!(index.get_field_value(&pk, "age").is_none());
        assert!(index.get_field_value(&pk, "embedding").is_none());
    }
    // the index is still present and valid after a drop-all
    let disk = index.close().unwrap();
    assert_eq!(CKVIndex::index_not_present(&disk), false);
    assert!(CKVIndex::is_valid_index(&disk).is_ok());

    // re-upsert of doc 0 succeeds and is readable
    let mut index = CKVIndex::open_or_create(disk, &cfg, 1).unwrap();
    index.upsert_field_values(&numbered_user_document(0)).unwrap();
    assert_eq!(
        index.get_field_value(b"id:0", "name").unwrap(),
        b"name:0".to_vec()
    );
}

#[test]
fn replay_after_reopen() {
    let cfg = user_config();
    let mut index = CKVIndex::open_or_create(PartitionDisk::empty(), &cfg, 1).unwrap();
    for n in 0..10 {
        index.upsert_field_values(&numbered_user_document(n)).unwrap();
    }
    let mut expected: Vec<(Vec<u8>, Vec<u8>, Vec<u8>, Vec<u8>)> = Vec::new();
    for n in 0..10u32 {
        let pk = format!("id:{}", n).into_bytes();
        expected.push((
            pk.clone(),
            index.get_field_value(&pk, "name").unwrap(),
            index.get_field_value(&pk, "age").unwrap(),
            index.get_field_value(&pk, "embedding").unwrap(),
        ));
    }
    let disk = index.close().unwrap();
    let index = CKVIndex::open_or_create(disk, &cfg, 1).unwrap();
    for (pk, name, age, embedding) in expected {
        assert_eq!(index.get_field_value(&pk, "name").unwrap(), name);
        assert_eq!(index.get_field_value(&pk, "age").unwrap(), age);
        assert_eq!(index.get_field_value(&pk, "embedding").unwrap(), embedding);
    }
}

#[test]
fn crash_without_flush_loses_only_unflushed_batch() {
    // writes after the last flush may be lost, but what was flushed
    // must read back after the simulated crash
    let mut seg = CKVIndexSegment::open_or_create(None).unwrap();
    let fv = |s: &str| FieldValue {
        field_type: FieldType::Str,
        value: s.as_bytes().to_vec(),
    };
    seg.upsert_document(&b"pk1".to_vec(), &vec![0u32], &vec![fv("one")])
        .unwrap();
    seg.flush_writes().unwrap();
    seg.upsert_document(&b"pk2".to_vec(), &vec![0u32], &vec![fv("two")])
        .unwrap();
    // no flush: a crash keeps only the on-disk image
    let crashed = seg.disk_snapshot();
    let reopened = CKVIndexSegment::open_or_create(Some(crashed)).unwrap();
    assert_eq!(reopened.read_field(b"pk1", 0).unwrap(), b"one".to_vec());
    assert!(reopened.read_field(b"pk2", 0).is_none());
}

#[test]
fn consumer_catch_up() {
    // a log of 1000 upserts whose last 10 documents are then deleted:
    // after catch-up the 990 survivors read back, the persisted offset
    // is the last processed event's, and a restart sees EOF at once
    let cfg = user_config();
    let index = CKVIndex::open_or_create(PartitionDisk::empty(), &cfg, 1).unwrap();
    let mut state = ConsumerState {
        processor: WritesProcessor::new(index),
        committer: OffsetCommitter::new(),
        offset_store: OffsetStore::open_or_create(None),
    };

    let mut offset: i64 = 0;
    for n in 0..1000u32 {
        let event = ConsumerEvent::Message {
            topic: "events".to_string(),
            partition: 0,
            offset,
            event: IKVDataEvent::UpsertDocumentFields {
                document: numbered_user_document(n),
            },
        };
        assert_eq!(
            state.handle_catch_up_event(event).unwrap(),
            ConsumerAction::ContinueConsuming
        );
        offset += 1;
    }
    for n in 990..1000u32 {
        let event = ConsumerEvent::Message {
            topic: "events".to_string(),
            partition: 0,
            offset,
            event: IKVDataEvent::DeleteDocument {
                document_id: numbered_user_document(n),
            },
        };
        assert_eq!(
            state.handle_catch_up_event(event).unwrap(),
            ConsumerAction::ContinueConsuming
        );
        offset += 1;
    }
    assert_eq!(
        state.handle_catch_up_event(ConsumerEvent::PartitionEof).unwrap(),
        ConsumerAction::StopCleanly
    );

    // survivors read back; deleted documents are absent
    let index = state.processor.index_ref();
    for n in 0..990u32 {
        let pk = format!("id:{}", n).into_bytes();
        assert_eq!(
            index.get_field_value(&pk, "name").unwrap(),
            format!("name:{}", n).into_bytes()
        );
    }
    for n in 990..1000u32 {
        let pk = format!("id:{}", n).into_bytes();
        assert!(index.get_field_value(&pk, "name").is_none());
    }

    // the last committed offset is that of the most recent event at a
    // batch boundary; with 1010 events and batches of 100, the counter
    // (starting at 1) commits at events 100, 200, ..., 1000: the last
    // commit carried offset 999
    let entries = state.offset_store.read_all_offsets().unwrap();
    let resumed = ikv::consumer::resume_offset(&entries, "events", 0).unwrap();
    assert_eq!(resumed, 999);

    // a restart that finds the watermarks equal does no work
    assert!(ikv::consumer::catch_up_is_empty(1010, 1010));
}
