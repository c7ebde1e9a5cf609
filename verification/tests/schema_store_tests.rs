use ikv::document::Document;
use ikv::field::FieldValue;
use ikv::maps::StringMap;
use ikv::schema_store::CKVIndexSchema;
use ikv::testing::string_to_field_value;

const PRIMARY_KEY_FIELD_NAME: &str = "userid";

fn create_document(user_id: u32) -> Document {
    let mut document: Document = StringMap::new();
    document.insert(
        PRIMARY_KEY_FIELD_NAME.to_string(),
        string_to_field_value(&format!("id:{}", user_id)),
    );
    document.insert(
        "name".to_string(),
        string_to_field_value(&format!("name:{}", user_id)),
    );
    document.insert(
        "location".to_string(),
        string_to_field_value(&format!("location:{}", user_id)),
    );
    document.insert(
        "gender".to_string(),
        string_to_field_value(&format!("gender:{}", user_id)),
    );
    document
}

#[test]
pub fn schema_store_test_test_lifecycle() {
    // not present
    assert!(CKVIndexSchema::index_not_present(&None));
    // invalid
    assert!(CKVIndexSchema::is_valid_index(&None).is_err());

    // create new
    let store = CKVIndexSchema::open_or_create(None, PRIMARY_KEY_FIELD_NAME.to_string()).unwrap();
    let file = store.close();
    assert_eq!(CKVIndexSchema::index_not_present(&Some(file.clone())), false);
    assert!(CKVIndexSchema::is_valid_index(&Some(file.clone())).is_ok());
    assert!(
        CKVIndexSchema::open_or_create(Some(file), PRIMARY_KEY_FIELD_NAME.to_string()).is_ok()
    );

    // delete: the file is gone
    let no_file: Option<Vec<u8>> = None;

    // not present
    assert!(CKVIndexSchema::index_not_present(&no_file));

    // invalid
    assert!(CKVIndexSchema::is_valid_index(&no_file).is_err());
}

#[test]
pub fn schema_store_test_empty_store() {
    let index =
        CKVIndexSchema::open_or_create(None, PRIMARY_KEY_FIELD_NAME.to_string()).unwrap();
    assert_eq!(index.fetch_id_by_name(PRIMARY_KEY_FIELD_NAME).unwrap(), 0);
}

#[test]
pub fn schema_store_test_write_then_read() {
    let document0 = create_document(0);
    let document1 = create_document(1);
    let document2 = create_document(2);

    let mut index =
        CKVIndexSchema::open_or_create(None, PRIMARY_KEY_FIELD_NAME.to_string()).unwrap();
    assert!(index.upsert_schema(&document0).is_ok());
    assert!(index.upsert_schema(&document1).is_ok());

    // fetch ids by name
    assert_eq!(
        index.extract_primary_key_value(&document2).unwrap(),
        &string_to_field_value("id:2")
    );
    assert_eq!(index.fetch_id_by_name(PRIMARY_KEY_FIELD_NAME).unwrap(), 0);
    assert!(index.fetch_id_by_name("name").unwrap() > 0);
    assert!(index.fetch_id_by_name("location").unwrap() > 0);
    assert!(index.fetch_id_by_name("gender").unwrap() > 0);
    assert!(index.fetch_id_by_name("unknown").is_none());

    let file = index.close();

    // re open and read
    let index =
        CKVIndexSchema::open_or_create(Some(file.clone()), PRIMARY_KEY_FIELD_NAME.to_string())
            .unwrap();
    assert!(CKVIndexSchema::is_valid_index(&Some(file)).is_ok());

    assert_eq!(
        index.extract_primary_key_value(&document2).unwrap(),
        &string_to_field_value("id:2")
    );
    assert_eq!(index.fetch_id_by_name(PRIMARY_KEY_FIELD_NAME).unwrap(), 0);
    assert!(index.fetch_id_by_name("name").unwrap() > 0);
    assert!(index.fetch_id_by_name("location").unwrap() > 0);
    assert!(index.fetch_id_by_name("gender").unwrap() > 0);
    assert!(index.fetch_id_by_name("unknown").is_none());
}

#[test]
fn drop_fields() {
    let document0 = create_document(0);
    let mut index =
        CKVIndexSchema::open_or_create(None, PRIMARY_KEY_FIELD_NAME.to_string()).unwrap();
    assert!(index.upsert_schema(&document0).is_ok());

    // fields are indexed
    assert!(index.fetch_id_by_name(PRIMARY_KEY_FIELD_NAME).unwrap() == 0);
    assert!(index.fetch_id_by_name("name").unwrap() > 0);
    assert!(index.fetch_id_by_name("location").unwrap() > 0);
    assert!(index.fetch_id_by_name("gender").unwrap() > 0);
    let field_id_loc = index.fetch_id_by_name("location").unwrap();

    // drop fields (name, gender)
    index
        .soft_delete_fields(
            &vec![
                "name".to_string(),
                "foo".to_string(),
                PRIMARY_KEY_FIELD_NAME.to_string(),
            ],
            &vec!["gen".to_string(), "LOC".to_string()],
        )
        .unwrap();
    assert!(index.fetch_id_by_name(PRIMARY_KEY_FIELD_NAME).unwrap() == 0);
    assert!(index.fetch_id_by_name("name").is_none());
    assert!(index.fetch_id_by_name("location").unwrap() == field_id_loc);
    assert!(index.fetch_id_by_name("gender").is_none());

    // drop all fields
    index.hard_delete_all_fields().unwrap();

    assert!(index.fetch_id_by_name(PRIMARY_KEY_FIELD_NAME).unwrap() == 0);
    assert!(index.fetch_id_by_name("name").is_none());
    assert!(index.fetch_id_by_name("location").is_none());
    assert!(index.fetch_id_by_name("gender").is_none());
}

#[test]
fn schema_soft_delete_keeps_counter() {
    // a dropped name re-registers under a fresh, larger id
    let mut doc: Document = StringMap::new();
    doc.insert("pk".to_string(), string_to_field_value("id:0"));
    doc.insert("a".to_string(), string_to_field_value("x"));
    let mut index = CKVIndexSchema::open_or_create(None, "pk".to_string()).unwrap();
    index.upsert_schema(&doc).unwrap();
    let old_id = index.fetch_id_by_name("a").unwrap();
    index
        .soft_delete_fields(&vec!["a".to_string()], &vec![])
        .unwrap();
    assert!(index.fetch_id_by_name("a").is_none());
    index.upsert_schema(&doc).unwrap();
    let new_id = index.fetch_id_by_name("a").unwrap();
    assert!(new_id > old_id);
}

#[test]
fn schema_compact_renumbers_densely() {
    let mut doc: Document = StringMap::new();
    doc.insert("pk".to_string(), string_to_field_value("id:0"));
    doc.insert("a".to_string(), string_to_field_value("x"));
    doc.insert("b".to_string(), string_to_field_value("y"));
    doc.insert("c".to_string(), string_to_field_value("z"));
    let mut index = CKVIndexSchema::open_or_create(None, "pk".to_string()).unwrap();
    index.upsert_schema(&doc).unwrap();
    index
        .soft_delete_fields(&vec!["b".to_string()], &vec![])
        .unwrap();
    let ids = index.compact().unwrap();
    // three fields remain: pk and two others, ids renumbered to 0..3
    assert_eq!(ids.len(), 3);
    for w in 0..ids.len() - 1 {
        assert!(ids[w] < ids[w + 1]);
    }
    let pk_id = index.fetch_id_by_name("pk").unwrap();
    let a_id = index.fetch_id_by_name("a").unwrap();
    let c_id = index.fetch_id_by_name("c").unwrap();
    assert!(pk_id < 3 && a_id < 3 && c_id < 3);
    assert!(pk_id != a_id && a_id != c_id && pk_id != c_id);
}

#[test]
fn schema_range_exhausted() {
    // a registry whose counter already sits at the id limit refuses a
    // new field
    let mut file: Vec<u8> = Vec::new();
    file.extend_from_slice(&2u32.to_le_bytes());
    file.extend_from_slice(b"pk");
    file.extend_from_slice(&0x10000u64.to_le_bytes()); // counter at the limit
    file.extend_from_slice(&1u32.to_le_bytes()); // one entry
    file.extend_from_slice(&2u32.to_le_bytes());
    file.extend_from_slice(b"pk");
    file.extend_from_slice(&0u32.to_le_bytes());
    let mut index = CKVIndexSchema::open_or_create(Some(file), "pk".to_string()).unwrap();
    let mut doc: Document = StringMap::new();
    doc.insert("pk".to_string(), string_to_field_value("id:0"));
    doc.insert("fresh".to_string(), string_to_field_value("x"));
    let e = index.upsert_schema(&doc).unwrap_err();
    assert_eq!(e, ikv::error::SchemaError::RangeExhausted);
}

#[test]
fn schema_empty_file_is_invalid() {
    let e = CKVIndexSchema::open_or_create(Some(Vec::new()), "pk".to_string()).unwrap_err();
    assert!(matches!(e, ikv::error::IndexError::SystemError(_)));
}

#[test]
fn schema_non_ascii_names_survive_reopen() {
    let mut doc: Document = StringMap::new();
    doc.insert("pk".to_string(), string_to_field_value("id:0"));
    doc.insert("prénom".to_string(), string_to_field_value("x"));
    let mut index = CKVIndexSchema::open_or_create(None, "pk".to_string()).unwrap();
    index.upsert_schema(&doc).unwrap();
    let id = index.fetch_id_by_name("prénom").unwrap();
    let file = index.close();
    let index = CKVIndexSchema::open_or_create(Some(file), "pk".to_string()).unwrap();
    assert_eq!(index.fetch_id_by_name("prénom").unwrap(), id);
}

#[test]
fn unsupported_field_error() {
    let fv = FieldValue {
        field_type: ikv::field::FieldType::Unknown,
        value: vec![1, 2, 3],
    };
    let e = ikv::field::IndexedValue::try_from_field_value(&fv).unwrap_err();
    assert_eq!(e, ikv::error::SchemaError::UnsupportedField);
}
