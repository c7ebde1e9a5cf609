//! Builders for documents and configurations used by tests and
//! examples.

use vstd::prelude::*;
use vstd::string::{StrSliceExecFns, StringExecFns};
use crate::config::IKVStoreConfig;
use crate::document::{Document, wf_document};
use crate::field::{FieldType, FieldValue, wf_field_value};
use crate::maps::StringMap;
use crate::paths::dec_string;

verus! {

/// A string field value.
pub fn string_to_field_value(value: &str) -> (r: FieldValue)
    ensures
        r.field_type == FieldType::Str,
        r.value@ == vstd::utf8::encode_utf8(value@),
        wf_field_value(r),
{
    FieldValue { field_type: FieldType::Str, value: value.as_bytes_vec() }
}

/// A bytes field value.
pub fn bytes_to_field_value(value: &[u8]) -> (r: FieldValue)
    ensures
        r.field_type == FieldType::Bytes,
        r.value@ == value@,
        wf_field_value(r),
{
    let mut v: Vec<u8> = Vec::new();
    crate::codec::push_bytes(&mut v, value);
    FieldValue { field_type: FieldType::Bytes, value: v }
}

/// A 32-bit integer field value, little-endian.
pub fn i32_to_field_value(value: i32) -> (r: FieldValue)
    ensures
        r.field_type == FieldType::Int32,
        r.value@ == vstd::bytes::spec_u32_to_le_bytes(value as u32),
        wf_field_value(r),
{
    proof {
        crate::codec::lemma_le_roundtrips();
    }
    FieldValue { field_type: FieldType::Int32, value: vstd::bytes::u32_to_le_bytes(value as u32) }
}

/// A document with one primary key and three more fields:
/// `{"field0": "field0:<n>", "field1": "field1:<n>", "field2":
/// bytes("field2:<n>"), "field3": i32(n)}`, where `<n>` is the decimal
/// rendering of the argument.
pub fn create_document(primary_key: u32) -> (r: Document)
    ensures
        wf_document(r),
        r.seq_view().len() == 4,
        r.seq_view()[0].0 == "field0"@,
        r.seq_view()[0].1.field_type == FieldType::Str,
        r.seq_view()[0].1.value@ == vstd::utf8::encode_utf8(
            "field0:"@ + crate::paths::spec_dec_chars(primary_key as int),
        ),
        r.seq_view()[1].0 == "field1"@,
        r.seq_view()[1].1.field_type == FieldType::Str,
        r.seq_view()[1].1.value@ == vstd::utf8::encode_utf8(
            "field1:"@ + crate::paths::spec_dec_chars(primary_key as int),
        ),
        r.seq_view()[2].0 == "field2"@,
        r.seq_view()[2].1.field_type == FieldType::Bytes,
        r.seq_view()[2].1.value@ == vstd::utf8::encode_utf8(
            "field2:"@ + crate::paths::spec_dec_chars(primary_key as int),
        ),
        r.seq_view()[3].0 == "field3"@,
        r.seq_view()[3].1.field_type == FieldType::Int32,
        r.seq_view()[3].1.value@ == vstd::bytes::spec_u32_to_le_bytes(primary_key),
{
    proof {
        reveal_strlit("field0");
        reveal_strlit("field1");
        reveal_strlit("field2");
        reveal_strlit("field3");
        lemma_field_names_distinct();
    }
    let suffix = dec_string(primary_key as u64);
    let mut document: Document = StringMap::new();
    let ghost s0 = document.seq_view();

    let mut name0 = String::from_str("field0:");
    name0.append(suffix.as_str());
    let fv0 = string_to_field_value(name0.as_str());
    let ghost e0 = ("field0"@, fv0);
    document.insert(String::from_str("field0"), fv0);
    proof {
        assert(document.seq_view() =~= seq![e0]);
    }
    let ghost s1 = document.seq_view();

    let mut name1 = String::from_str("field1:");
    name1.append(suffix.as_str());
    let fv1 = string_to_field_value(name1.as_str());
    let ghost e1 = ("field1"@, fv1);
    proof {
        assert(s1.drop_last() =~= s0);
        assert(crate::maps::key_index(s0, "field1"@) == -1);
        assert(crate::maps::key_index(s1, "field1"@) == -1);
    }
    document.insert(String::from_str("field1"), fv1);
    proof {
        assert(document.seq_view() =~= seq![e0, e1]);
    }
    let ghost s2 = document.seq_view();

    let mut name2 = String::from_str("field2:");
    name2.append(suffix.as_str());
    let fv2 = bytes_to_field_value(name2.as_str().as_bytes());
    let ghost e2 = ("field2"@, fv2);
    proof {
        assert(s2.drop_last() =~= s1);
        assert(s1.drop_last() =~= s0);
        assert(crate::maps::key_index(s0, "field2"@) == -1);
        assert(crate::maps::key_index(s1, "field2"@) == -1);
        assert(crate::maps::key_index(s2, "field2"@) == -1);
    }
    document.insert(String::from_str("field2"), fv2);
    proof {
        assert(document.seq_view() =~= seq![e0, e1, e2]);
    }
    let ghost s3 = document.seq_view();

    let fv3 = i32_to_field_value(primary_key as i32);
    let ghost e3 = ("field3"@, fv3);
    proof {
        assert(s3.drop_last() =~= s2);
        assert(s2.drop_last() =~= s1);
        assert(s1.drop_last() =~= s0);
        assert(crate::maps::key_index(s0, "field3"@) == -1);
        assert(crate::maps::key_index(s1, "field3"@) == -1);
        assert(crate::maps::key_index(s2, "field3"@) == -1);
        assert(crate::maps::key_index(s3, "field3"@) == -1);
    }
    document.insert(String::from_str("field3"), fv3);
    proof {
        assert(document.seq_view() =~= seq![e0, e1, e2, e3]);
        let pkv = primary_key;
        assert((pkv as i32) as u32 == pkv) by (bit_vector);
        lemma_field_names_short();
        assert(wf_document(document));
    }
    document
}

/// The four builder field names differ pairwise.
proof fn lemma_field_names_distinct()
    ensures
        "field0"@ != "field1"@,
        "field0"@ != "field2"@,
        "field0"@ != "field3"@,
        "field1"@ != "field2"@,
        "field1"@ != "field3"@,
        "field2"@ != "field3"@,
{
    reveal_strlit("field0");
    reveal_strlit("field1");
    reveal_strlit("field2");
    reveal_strlit("field3");
    assert(("field0"@)[5] != ("field1"@)[5]);
    assert(("field0"@)[5] != ("field2"@)[5]);
    assert(("field0"@)[5] != ("field3"@)[5]);
    assert(("field1"@)[5] != ("field2"@)[5]);
    assert(("field1"@)[5] != ("field3"@)[5]);
    assert(("field2"@)[5] != ("field3"@)[5]);
}

/// The four builder field names fit the registry's file format.
proof fn lemma_field_names_short()
    ensures
        vstd::utf8::encode_utf8("field0"@).len() <= u32::MAX,
        vstd::utf8::encode_utf8("field1"@).len() <= u32::MAX,
        vstd::utf8::encode_utf8("field2"@).len() <= u32::MAX,
        vstd::utf8::encode_utf8("field3"@).len() <= u32::MAX,
{
    reveal_strlit("field0");
    reveal_strlit("field1");
    reveal_strlit("field2");
    reveal_strlit("field3");
    lemma_ascii_name("field0"@);
    lemma_ascii_name("field1"@);
    lemma_ascii_name("field2"@);
    lemma_ascii_name("field3"@);
}

proof fn lemma_ascii_name(s: Seq<char>)
    requires
        s.len() <= 16,
        vstd::utf8::is_ascii_chars(s),
    ensures
        vstd::utf8::encode_utf8(s).len() <= u32::MAX,
{
    vstd::utf8::is_ascii_chars_encode_utf8(s);
}

/// A configuration for a local test store at `mount_dir`, partition 0,
/// with `field0` as the primary key.
pub fn setup_index_cfg(mount_dir: &str) -> (r: IKVStoreConfig)
    ensures
        r.wf(),
        r.string_configs@.contains_key("mount_directory"@),
        r.string_configs@["mount_directory"@]@ == mount_dir@,
        r.string_configs@.contains_key("store_name"@),
        r.string_configs@["store_name"@]@ == "ckv_test_store"@,
        r.string_configs@.contains_key("primary_key_field_name"@),
        r.string_configs@["primary_key_field_name"@]@ == "field0"@,
        r.int_configs@.contains_key("partition"@),
        r.int_configs@["partition"@] == 0,
{
    let mut cfg = IKVStoreConfig::new();
    cfg.set_string(String::from_str("mount_directory"), String::from_str(mount_dir));
    cfg.set_string(String::from_str("store_name"), String::from_str("ckv_test_store"));
    cfg.set_string(String::from_str("primary_key_field_name"), String::from_str("field0"));
    cfg.set_int(String::from_str("partition"), 0);
    proof {
        reveal_strlit("mount_directory");
        reveal_strlit("store_name");
        reveal_strlit("primary_key_field_name");
        reveal_strlit("partition");
        reveal_strlit("ckv_test_store");
        reveal_strlit("field0");
        assert(("mount_directory"@).len() != ("store_name"@).len());
        assert(("mount_directory"@).len() != ("primary_key_field_name"@).len());
        assert(("store_name"@).len() != ("primary_key_field_name"@).len());
    }
    cfg
}

} // verus!
