use ikv::codec::{bytes_eq, decode_varint, encode_varint, str_eq};
use ikv::paths::{dec_string, dec_string_i64, get_index_mount_directory_fqn, get_working_mount_directory_fqn};
use ikv::testing::setup_index_cfg;
use ikv::consumer::ConsumerConfig;
use ikv::field::{Field, FieldType, IndexedValue, FieldValue};
use ikv::header_store::{CKVIndexHeader, HeaderStore};
use ikv::segment::{CKVIndexSegment, SegmentFiles};

#[test]
fn varint_round_trip() {
    for value in [0u32, 1, 127, 128, 300, 16383, 16384, 1 << 21, u32::MAX] {
        let mut out: Vec<u8> = Vec::new();
        encode_varint(&mut out, value);
        let (decoded, used) = decode_varint(out.as_slice(), 0).unwrap();
        assert_eq!(decoded, value);
        assert_eq!(used, out.len());
    }
}

#[test]
fn varint_exact_bytes() {
    let mut out: Vec<u8> = Vec::new();
    encode_varint(&mut out, 300);
    assert_eq!(out, vec![0xAC, 0x02]);
}

#[test]
fn varint_rejects_empty() {
    assert!(decode_varint(&[], 0).is_none());
}

#[test]
fn equality_helpers() {
    assert!(bytes_eq(b"abc", b"abc"));
    assert!(!bytes_eq(b"abc", b"abd"));
    assert!(!bytes_eq(b"abc", b"ab"));
    assert!(str_eq("héllo", "héllo"));
    assert!(!str_eq("héllo", "hello"));
}

#[test]
fn decimal_rendering() {
    assert_eq!(dec_string(0), "0");
    assert_eq!(dec_string(907), "907");
    assert_eq!(dec_string_i64(-45), "-45");
    assert_eq!(dec_string_i64(i64::MIN), "-9223372036854775808");
}

#[test]
fn mount_path_construction() {
    let cfg = setup_index_cfg("/data/mounts");
    assert_eq!(
        get_index_mount_directory_fqn(&cfg).unwrap(),
        "/data/mounts/ckv_test_store/0"
    );
    assert_eq!(
        get_working_mount_directory_fqn(&cfg).unwrap(),
        "/data/mounts/working_dir/ckv_test_store/0"
    );
}

#[test]
fn mount_path_requires_configs() {
    let cfg = ikv::config::IKVStoreConfig::new();
    assert!(get_index_mount_directory_fqn(&cfg).is_err());
}

#[test]
fn header_round_trip() {
    let mut store = HeaderStore::open_or_create(None, 1234).unwrap();
    assert_eq!(store.read_header().unwrap().base_index_epoch_millis, 1234);
    store
        .write_header(&CKVIndexHeader {
            base_index_epoch_millis: 98765,
        })
        .unwrap();
    let file = store.close();
    let store = HeaderStore::open_or_create(Some(file), 0).unwrap();
    assert_eq!(store.read_header().unwrap().base_index_epoch_millis, 98765);
}

#[test]
fn field_helpers() {
    let f = Field::new("age".to_string(), 3, FieldType::Int32);
    assert_eq!(f.name(), "age");
    assert_eq!(f.id(), 3);
    assert!(matches!(f.field_type(), FieldType::Int32));
    assert_eq!(f.value_len(), Some(4));
    let g = Field::new("name".to_string(), 4, FieldType::Str);
    assert_eq!(g.value_len(), None);

    let fv = FieldValue {
        field_type: FieldType::Bytes,
        value: vec![1, 2, 3],
    };
    let iv = IndexedValue::try_from_field_value(&fv).unwrap();
    assert_eq!(iv.len(), 3);
    assert_eq!(iv.serialized_ref(), &[1, 2, 3]);
    assert_eq!(iv.serialize(), vec![1, 2, 3]);
}

#[test]
fn hello() {
    assert_eq!(ikv::hello_world(), "Hello World");
}

#[test]
fn segment_rejects_corrupt_log() {
    // a frame that declares more bytes than remain is corruption
    let files = SegmentFiles {
        offset_table: vec![0xFF, 0x00, 0x00, 0x00, 1, 2],
        mmap: Vec::new(),
        metadata: 0u64.to_le_bytes().to_vec(),
    };
    assert!(CKVIndexSegment::open_or_create(Some(files)).is_err());

    // a trailing incomplete length prefix is dropped cleanly
    let files = SegmentFiles {
        offset_table: vec![0x01, 0x02],
        mmap: Vec::new(),
        metadata: 0u64.to_le_bytes().to_vec(),
    };
    assert!(CKVIndexSegment::open_or_create(Some(files)).is_ok());
}

#[test]
fn consumer_config_extraction() {
    let mut cfg = ikv::config::IKVStoreConfig::new();
    cfg.set_string("account_id".to_string(), "acct".to_string());
    cfg.set_string("account_passkey".to_string(), "key".to_string());
    cfg.set_string("kafka_bootstrap_server".to_string(), "broker:9092".to_string());
    cfg.set_string("kafka_topic".to_string(), "events".to_string());
    cfg.set_int("partition".to_string(), 3);
    let cc = ConsumerConfig::from_config(&cfg).unwrap();
    assert_eq!(cc.account_id, "acct");
    assert_eq!(cc.topic, "events");
    assert_eq!(cc.partition, 3);

    cfg.set_int("partition".to_string(), -1);
    assert!(ConsumerConfig::from_config(&cfg).is_err());
}
