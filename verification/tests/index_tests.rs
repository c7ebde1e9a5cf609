use ikv::ckv::{CKVIndex, PartitionDisk};
use ikv::testing::{bytes_to_field_value, create_document, i32_to_field_value, setup_index_cfg, string_to_field_value};
use ikv::document::Document;
use ikv::maps::StringMap;

const PRIMARY_KEY_FIELD_NAME: &str = "field0";
const DOCFIELD1: &str = "field1";
const DOCFIELD2: &str = "field2";
const DOCFIELD3: &str = "field3";

#[test]
pub fn ckv_test_test_lifecycle() {
    let mount_directory = "/tmp/ckv_test_test_lifecycle";
    let ikv_config = setup_index_cfg(&mount_directory);
    let mut disk = PartitionDisk::empty();

    // empty
    assert!(CKVIndex::index_not_present(&disk));

    // invalid index
    assert!(CKVIndex::is_valid_index(&disk).is_err());

    // create new and close
    let index = CKVIndex::open_or_create(disk, &ikv_config, 1).unwrap();
    let disk = index.close().unwrap();

    // re-open and close
    let index = CKVIndex::open_or_create(disk, &ikv_config, 1).unwrap();
    let mut disk = index.close().unwrap();

    // valid and not empty
    assert_eq!(CKVIndex::index_not_present(&disk), false);
    assert!(CKVIndex::is_valid_index(&disk).is_ok());

    // delete
    CKVIndex::delete_all(&mut disk);
    assert!(CKVIndex::is_valid_index(&disk).is_err());
}

#[test]
pub fn test_full_document_operations() {
    let mount_directory: &str = "/tmp/ckv_test_test_full_document_operations";
    let ikv_config = setup_index_cfg(&mount_directory);

    // generate documents and primary keys
    let doc0 = create_document(0);
    let pkey0 = doc0.get(PRIMARY_KEY_FIELD_NAME).unwrap().value.clone();

    let doc1 = create_document(1);
    let pkey1 = doc1.get(PRIMARY_KEY_FIELD_NAME).unwrap().value.clone();

    let doc2 = create_document(2);
    let pkey2 = doc2.get(PRIMARY_KEY_FIELD_NAME).unwrap().value.clone();

    let mut index = CKVIndex::open_or_create(PartitionDisk::empty(), &ikv_config, 1).unwrap();

    // upsert
    assert!(index.upsert_field_values(&doc0).is_ok());

    assert_eq!(
        index.get_field_value(&pkey0, PRIMARY_KEY_FIELD_NAME).unwrap(),
        doc0.get(PRIMARY_KEY_FIELD_NAME).unwrap().value.clone()
    );

    // more upserts
    assert!(index.upsert_field_values(&doc1).is_ok());
    assert!(index.upsert_field_values(&doc2).is_ok());
    assert!(index.flush_writes().is_ok());

    assert_eq!(
        index.get_field_value(&pkey1, DOCFIELD1).unwrap(),
        doc1.get(DOCFIELD1).unwrap().value.clone()
    );

    assert_eq!(
        index.get_field_value(&pkey2, DOCFIELD2).unwrap(),
        doc2.get(DOCFIELD2).unwrap().value.clone()
    );

    assert_eq!(
        index.get_field_value(&pkey2, DOCFIELD3).unwrap(),
        doc2.get(DOCFIELD3).unwrap().value.clone()
    );

    // read unknown field
    assert!(index.get_field_value(&pkey0, "foo").is_none());
    // read unknown pkey
    assert!(index.get_field_value(b"foo", DOCFIELD1).is_none());

    // delete doc1
    assert!(index.delete_document(&doc1).is_ok());
    assert!(index.get_field_value(&pkey1, PRIMARY_KEY_FIELD_NAME).is_none()); // doc1 access returns empty
    assert!(index.get_field_value(&pkey1, DOCFIELD1).is_none()); // doc1 access returns empty
    assert_eq!(
        index.get_field_value(&pkey0, PRIMARY_KEY_FIELD_NAME).unwrap(),
        doc0.get(PRIMARY_KEY_FIELD_NAME).unwrap().value.clone()
    ); // doc0 access is ok

    // delete pkey and DOCFIELD1 from doc2
    assert!(index
        .delete_field_values(
            &doc2,
            &vec![PRIMARY_KEY_FIELD_NAME.to_string(), DOCFIELD1.to_string()]
        )
        .is_ok());
    assert!(index.get_field_value(&pkey2, PRIMARY_KEY_FIELD_NAME).is_none());
    assert!(index.get_field_value(&pkey2, DOCFIELD1).is_none());
    assert_eq!(
        index.get_field_value(&pkey2, DOCFIELD2).unwrap(),
        doc2.get(DOCFIELD2).unwrap().value.clone()
    );
    assert_eq!(
        index.get_field_value(&pkey2, DOCFIELD3).unwrap(),
        doc2.get(DOCFIELD3).unwrap().value.clone()
    );

    // close previous handle and reopen
    let disk = index.close().unwrap();
    let index = CKVIndex::open_or_create(disk, &ikv_config, 1).unwrap();

    // read doc0
    assert_eq!(
        index.get_field_value(&pkey0, PRIMARY_KEY_FIELD_NAME).unwrap(),
        doc0.get(PRIMARY_KEY_FIELD_NAME).unwrap().value.clone()
    );

    let _ = index.close().unwrap();
}

#[test]
pub fn test_drop_fields() {
    let mount_directory: &str = "/tmp/ckv_test_test_drop_fields";
    let ikv_config = setup_index_cfg(&mount_directory);

    let doc0 = create_document(0);
    let pkey0 = doc0.get(PRIMARY_KEY_FIELD_NAME).unwrap().value.clone();

    let doc1 = create_document(1);
    let pkey1 = doc1.get(PRIMARY_KEY_FIELD_NAME).unwrap().value.clone();

    let doc2 = create_document(2);
    let pkey2 = doc2.get(PRIMARY_KEY_FIELD_NAME).unwrap().value.clone();

    let mut index = CKVIndex::open_or_create(PartitionDisk::empty(), &ikv_config, 1).unwrap();

    // upsert and flush
    index.upsert_field_values(&doc0).unwrap();
    index.upsert_field_values(&doc1).unwrap();
    index.upsert_field_values(&doc2).unwrap();
    index.flush_writes().unwrap();

    // fields exist -
    assert_eq!(
        index.get_field_value(&pkey0, DOCFIELD1).unwrap(),
        doc0.get(DOCFIELD1).unwrap().value.clone()
    );
    assert_eq!(
        index.get_field_value(&pkey0, DOCFIELD2).unwrap(),
        doc0.get(DOCFIELD2).unwrap().value.clone()
    );

    // drop "embedding"
    index
        .drop_fields(&vec![DOCFIELD2.to_string()], &vec![])
        .unwrap();
    assert!(index.get_field_value(&pkey0, DOCFIELD2).is_none());
    assert!(index.get_field_value(&pkey1, DOCFIELD2).is_none());
    assert!(index.get_field_value(&pkey2, DOCFIELD2).is_none());

    // drop all
    index.drop_all_documents().unwrap();
    assert!(index.get_field_value(&pkey0, PRIMARY_KEY_FIELD_NAME).is_none());
    assert!(index.get_field_value(&pkey0, DOCFIELD1).is_none());
    assert!(index.get_field_value(&pkey0, DOCFIELD2).is_none());
    assert!(index.get_field_value(&pkey0, DOCFIELD3).is_none());

    // upsert again and check
    index.upsert_field_values(&doc0).unwrap();
    assert_eq!(
        index.get_field_value(&pkey0, DOCFIELD1).unwrap(),
        doc0.get(DOCFIELD1).unwrap().value.clone()
    );

    let _ = index.close().unwrap();
}

#[test]
pub fn test_projected_document_operations() {
    let mount_directory: &str = "/tmp/ckv_test_test_projected_document_operations";
    let ikv_config = setup_index_cfg(&mount_directory);

    // create doc with userid and name
    let mut document: Document = StringMap::new();
    document.insert(
        PRIMARY_KEY_FIELD_NAME.to_string(),
        string_to_field_value("id:0"),
    );
    document.insert(DOCFIELD1.to_string(), string_to_field_value("name:0"));
    let primary_key = document.get(PRIMARY_KEY_FIELD_NAME).unwrap().value.clone();

    // open index
    let mut index = CKVIndex::open_or_create(PartitionDisk::empty(), &ikv_config, 1).unwrap();

    // upsert
    assert!(index.upsert_field_values(&document).is_ok());

    assert_eq!(
        index.get_field_value(&primary_key, PRIMARY_KEY_FIELD_NAME).unwrap(),
        document.get(PRIMARY_KEY_FIELD_NAME).unwrap().value.clone()
    );

    assert_eq!(
        index.get_field_value(&primary_key, DOCFIELD1).unwrap(),
        document.get(DOCFIELD1).unwrap().value.clone()
    );

    assert!(index.get_field_value(&primary_key, DOCFIELD2).is_none());

    // add more fields to document
    document.insert(DOCFIELD2.to_string(), bytes_to_field_value(b"embedding:0"));
    document.insert(DOCFIELD3.to_string(), i32_to_field_value(0));
    assert!(index.upsert_field_values(&document).is_ok());

    assert_eq!(
        index.get_field_value(&primary_key, DOCFIELD2).unwrap(),
        document.get(DOCFIELD2).unwrap().value.clone()
    );

    assert_eq!(
        index.get_field_value(&primary_key, DOCFIELD3).unwrap(),
        document.get(DOCFIELD3).unwrap().value.clone()
    );

    assert_eq!(
        index.get_field_value(&primary_key, DOCFIELD1).unwrap(),
        document.get(DOCFIELD1).unwrap().value.clone()
    );

    let _ = index.close().unwrap();
}

#[test]
fn batch_matches_single_reads() {
    // the batch output is byte-for-byte the concatenation of single-key
    // reads under the prescribed length prefix
    let ikv_config = setup_index_cfg("unused");
    let mut index = CKVIndex::open_or_create(PartitionDisk::empty(), &ikv_config, 1).unwrap();
    let doc0 = create_document(0);
    let doc1 = create_document(1);
    index.upsert_field_values(&doc0).unwrap();
    index.upsert_field_values(&doc1).unwrap();

    let pkey0 = doc0.get(PRIMARY_KEY_FIELD_NAME).unwrap().value.clone();
    let pkey1 = doc1.get(PRIMARY_KEY_FIELD_NAME).unwrap().value.clone();
    let keys = vec![pkey0.clone(), pkey1.clone(), b"missing".to_vec()];
    let names = vec![DOCFIELD1.to_string(), "nope".to_string(), DOCFIELD3.to_string()];

    let batch = index.batch_get_field_values(&keys, &names);

    let mut expect: Vec<u8> = Vec::new();
    for key in &keys {
        for name in &names {
            match index.get_field_value(key, name) {
                None => expect.extend_from_slice(&(-1i32).to_le_bytes()),
                Some(v) => {
                    expect.extend_from_slice(&(v.len() as i32).to_le_bytes());
                    expect.extend_from_slice(&v);
                }
            }
        }
    }
    assert_eq!(batch, expect);
}

#[test]
fn upsert_missing_primary_key_is_rejected() {
    let ikv_config = setup_index_cfg("unused");
    let mut index = CKVIndex::open_or_create(PartitionDisk::empty(), &ikv_config, 1).unwrap();
    let mut doc: Document = StringMap::new();
    doc.insert("other".to_string(), string_to_field_value("x"));
    let e = index.upsert_field_values(&doc).unwrap_err();
    assert!(matches!(e, ikv::error::IndexError::IllegalArguments(_)));
}

#[test]
fn oversized_primary_key_is_rejected() {
    let ikv_config = setup_index_cfg("unused");
    let mut index = CKVIndex::open_or_create(PartitionDisk::empty(), &ikv_config, 1).unwrap();
    let mut doc: Document = StringMap::new();
    doc.insert(
        PRIMARY_KEY_FIELD_NAME.to_string(),
        bytes_to_field_value(&vec![7u8; 70000]),
    );
    let e = index.upsert_field_values(&doc).unwrap_err();
    assert!(matches!(e, ikv::error::IndexError::IllegalArguments(_)));
}

#[test]
fn unknown_typed_values_are_filtered() {
    let ikv_config = setup_index_cfg("unused");
    let mut index = CKVIndex::open_or_create(PartitionDisk::empty(), &ikv_config, 1).unwrap();
    let mut doc: Document = StringMap::new();
    doc.insert(
        PRIMARY_KEY_FIELD_NAME.to_string(),
        string_to_field_value("id:0"),
    );
    doc.insert(
        "mystery".to_string(),
        ikv::field::FieldValue {
            field_type: ikv::field::FieldType::Unknown,
            value: Vec::new(),
        },
    );
    index.upsert_field_values(&doc).unwrap();
    let pkey = doc.get(PRIMARY_KEY_FIELD_NAME).unwrap().value.clone();
    assert!(index.get_field_value(&pkey, "mystery").is_none());
    assert_eq!(
        index.get_field_value(&pkey, PRIMARY_KEY_FIELD_NAME).unwrap(),
        b"id:0".to_vec()
    );
}

#[test]
fn long_field_names_round_trip() {
    let ikv_config = setup_index_cfg("unused");
    let mut index = CKVIndex::open_or_create(PartitionDisk::empty(), &ikv_config, 1).unwrap();

    // the registry's file format carries a u32 length prefix per name,
    // so a name well past 64 KiB is accepted and persists
    let long_name: String = "n".repeat(70_000);
    let mut document: Document = StringMap::new();
    document.insert(
        PRIMARY_KEY_FIELD_NAME.to_string(),
        string_to_field_value("id1"),
    );
    document.insert(long_name.clone(), string_to_field_value("value1"));
    index.upsert_field_values(&document).unwrap();
    assert_eq!(
        index.get_field_value("id1".as_bytes(), &long_name).unwrap(),
        "value1".as_bytes().to_vec()
    );

    let disk = index.close().unwrap();
    let index = CKVIndex::open_or_create(disk, &ikv_config, 1).unwrap();
    assert_eq!(
        index.get_field_value("id1".as_bytes(), &long_name).unwrap(),
        "value1".as_bytes().to_vec()
    );
}
