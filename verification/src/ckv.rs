//! The index facade: sixteen shards, one schema registry, one header
//! store, and the consumed-offset file, all under one partition's mount.

use vstd::prelude::*;
use vstd::bytes::spec_u64_from_le_bytes;
use crate::codec::copy_bytes;
use crate::config::IKVStoreConfig;
use crate::document::{Document, wf_document, spec_doc_names};
use crate::error::{IndexError, SchemaError};
use crate::field::{FieldType, FieldValue, FieldId, FIELD_ID_LIMIT, spec_encodable, wf_field_value, spec_value_at};
use crate::hashing::{segment_of, spec_segment_of};
use crate::header_store::{HeaderStore, CKVIndexHeader};
use crate::maps::lemma_seq_to_map;
use crate::oplog::{LogRecord, spec_apply_record, spec_recover_log, spec_replay, zip_pairs, MAX_RECORD_FIELDS};
use crate::schema_store::{CKVIndexSchema, spec_assign, spec_should_drop, spec_schema_file_ok, spec_parse_schema, spec_present_ids, lemma_distinct_bounded_len};
use crate::segment::{
    CKVIndexSegment, SegmentFiles, spec_open_ok, spec_read_at, spec_entries_bytes,
    spec_upsert_offsets, spec_sizes_prefix, spec_grown_len, spec_has_unknown,
    spec_seg_any_unknown, lemma_has_unknown_any, spec_copy_fits,
};
use crate::stats::CompactionStats;

verus! {

/// The number of shards of one partition.
pub const NUM_SEGMENTS: usize = 16;

/// The on-disk tree beneath a partition's mount directory. `None` in a
/// slot means that file or directory is absent.
pub struct PartitionDisk {
    pub index_present: bool,
    pub segments: Vec<Option<SegmentFiles>>,
    pub schema: Option<Vec<u8>>,
    pub header: Option<Vec<u8>>,
    pub kafka_offsets: Option<Vec<u8>>,
}

impl PartitionDisk {
    /// One slot per shard.
    pub open spec fn wf(self) -> bool {
        self.segments@.len() == NUM_SEGMENTS
    }

    /// An empty mount: nothing on disk yet.
    pub fn empty() -> (r: PartitionDisk)
        ensures
            r.wf(),
            !r.index_present,
            forall|i: int| 0 <= i < NUM_SEGMENTS ==> (#[trigger] r.segments@[i]) is None,
            r.schema is None,
            r.header is None,
            r.kafka_offsets is None,
    {
        let mut segments: Vec<Option<SegmentFiles>> = Vec::new();
        let mut i: usize = 0;
        while i < NUM_SEGMENTS
            invariant
                i <= NUM_SEGMENTS,
                segments@.len() == i,
                forall|q: int| 0 <= q < i ==> (#[trigger] segments@[q]) is None,
            decreases NUM_SEGMENTS - i,
        {
            segments.push(None);
            i = i + 1;
        }
        PartitionDisk {
            index_present: false,
            segments,
            schema: None,
            header: None,
            kafka_offsets: None,
        }
    }
}

/// Can every component of this on-disk tree be opened?
pub open spec fn spec_disk_ok(d: PartitionDisk) -> bool {
    &&& forall|i: int|
        0 <= i < NUM_SEGMENTS ==> match #[trigger] d.segments@[i] {
            Option::None => true,
            Option::Some(f) => spec_open_ok(f),
        }
    &&& match d.schema {
        Option::None => true,
        Option::Some(b) => spec_schema_file_ok(b@),
    }
    &&& match d.header {
        Option::None => true,
        Option::Some(b) => b@.len() == 8,
    }
}

/// A shard opened from a disk slot holds exactly what the slot replays
/// to; a missing slot opens fresh.
pub open spec fn spec_segment_matches(seg: CKVIndexSegment, f: Option<SegmentFiles>) -> bool {
    match f {
        Option::None => seg.fresh(),
        Option::Some(files) => {
            &&& seg.log_records() == spec_recover_log(files.offset_table@)->Some_0
            &&& seg.table() == spec_replay(seg.log_records())
            &&& seg.arena() == files.mmap@
            &&& seg.write_off() == spec_u64_from_le_bytes(files.metadata@) as int
        },
    }
}

/// Memory-mapped row-oriented key-value index for one partition.
pub struct CKVIndex {
    segments: Vec<CKVIndexSegment>,
    schema: CKVIndexSchema,
    header_store: HeaderStore,
    kafka_offsets: Vec<u8>,
}

impl CKVIndex {
    /// Shard `i`.
    pub closed spec fn seg(self, i: int) -> CKVIndexSegment {
        self.segments@[i]
    }

    /// The schema registry.
    pub closed spec fn schema(self) -> CKVIndexSchema {
        self.schema
    }

    /// The header store.
    pub closed spec fn header(self) -> HeaderStore {
        self.header_store
    }

    /// The consumed-offset file carried through open and close.
    pub closed spec fn offsets_file(self) -> Seq<u8> {
        self.kafka_offsets@
    }

    pub open spec fn wf(self) -> bool {
        &&& self.seg_count() == NUM_SEGMENTS
        &&& forall|i: int| 0 <= i < NUM_SEGMENTS ==> (#[trigger] self.seg(i)).wf()
        &&& self.schema().wf()
        &&& self.header().wf()
    }

    pub closed spec fn seg_count(self) -> int {
        self.segments@.len() as int
    }

    /// What a read of `(pk, name)` returns from this index: the shard is
    /// picked by the key's hash, the field by the registry.
    pub open spec fn spec_get(self, pk: Seq<u8>, name: Seq<char>) -> Option<Seq<u8>> {
        if self.schema().map().contains_key(name) {
            spec_read_at(
                self.seg(spec_segment_of(pk, NUM_SEGMENTS as int)).table(),
                self.seg(spec_segment_of(pk, NUM_SEGMENTS as int)).arena(),
                pk,
                self.schema().map()[name],
            )
        } else {
            None
        }
    }

    /// Open the partition from its on-disk tree, creating whatever is
    /// absent. `now_millis` stamps a freshly created header.
    pub fn open_or_create(disk: PartitionDisk, config: &IKVStoreConfig, now_millis: u64) -> (r:
        Result<CKVIndex, IndexError>)
        requires
            disk.wf(),
            config.wf(),
            config.string_configs@.contains_key("primary_key_field_name"@) ==> vstd::utf8::encode_utf8(
                config.string_configs@["primary_key_field_name"@]@,
            ).len() <= u32::MAX,
        ensures
            match r {
                Ok(ix) => {
                    &&& ix.wf()
                    &&& config.string_configs@.contains_key("primary_key_field_name"@)
                    &&& spec_disk_ok(disk)
                    &&& forall|i: int|
                        0 <= i < NUM_SEGMENTS ==> spec_segment_matches(
                            #[trigger] ix.seg(i),
                            disk.segments@[i],
                        )
                    &&& match disk.schema {
                        Option::None => ix.schema().pk_name()
                            == config.string_configs@["primary_key_field_name"@]@
                            && ix.schema().entries() == seq![
                            (config.string_configs@["primary_key_field_name"@]@, 0u32),
                        ] && ix.schema().counter() == 1,
                        Option::Some(b) => ix.schema().pk_name() == spec_parse_schema(
                            b@,
                        )->Some_0.0 && ix.schema().entries() == spec_parse_schema(b@)->Some_0.1
                            && ix.schema().counter_u64() == spec_parse_schema(b@)->Some_0.2,
                    }
                    &&& match disk.kafka_offsets {
                        Option::None => ix.offsets_file() == Seq::<u8>::empty(),
                        Option::Some(b) => ix.offsets_file() == b@,
                    }
                },
                Err(e) => !spec_disk_ok(disk) || !config.string_configs@.contains_key(
                    "primary_key_field_name"@,
                ),
            },
    {
        let primary_key = match config.get_string("primary_key_field_name") {
            None => {
                return Err(
                    IndexError::IllegalArguments(
                        String::from_str("primary_key is a required client-specified config"),
                    ),
                );
            },
            Some(p) => String::from_str(p.as_str()),
        };
        let PartitionDisk { index_present, mut segments, schema, header, kafka_offsets } = disk;
        let ghost disk0 = disk;
        let schema = match CKVIndexSchema::open_or_create(schema, primary_key) {
            Err(e) => {
                proof {
                    assert(!spec_disk_ok(disk0));
                }
                return Err(e);
            },
            Ok(sc) => sc,
        };
        let mut opened: Vec<CKVIndexSegment> = Vec::new();
        let ghost disk_segments = segments@;
        let mut i: usize = 0;
        while i < NUM_SEGMENTS
            invariant
                i <= NUM_SEGMENTS,
                segments@.len() == NUM_SEGMENTS - i,
                disk_segments.len() == NUM_SEGMENTS,
                disk_segments == disk0.segments@,
                disk0 == disk,
                segments@ == disk_segments.skip(i as int),
                opened@.len() == i,
                forall|q: int| 0 <= q < i ==> (#[trigger] opened@[q]).wf(),
                forall|q: int|
                    0 <= q < i ==> spec_segment_matches(
                        #[trigger] opened@[q],
                        disk_segments[q],
                    ),
                forall|q: int|
                    0 <= q < i ==> match #[trigger] disk_segments[q] {
                        Option::None => true,
                        Option::Some(f) => spec_open_ok(f),
                    },
            decreases NUM_SEGMENTS - i,
        {
            let slot = segments.remove(0);
            proof {
                assert(segments@ =~= disk_segments.skip(i + 1int));
                assert(disk_segments.skip(i as int)[0] == disk_segments[i as int]);
            }
            let seg = match CKVIndexSegment::open_or_create(slot) {
                Err(e) => {
                    proof {
                        assert(!spec_disk_ok(disk)) by {
                            assert(disk.segments@[i as int] matches Some(f) && !spec_open_ok(f));
                        }
                    }
                    return Err(e);
                },
                Ok(sg) => sg,
            };
            opened.push(seg);
            i = i + 1;
        }
        let header_store = match HeaderStore::open_or_create(header, now_millis) {
            Err(e) => {
                proof {
                    assert(!spec_disk_ok(disk0));
                }
                return Err(e);
            },
            Ok(h) => h,
        };
        let kafka_offsets = match kafka_offsets {
            None => Vec::new(),
            Some(b) => b,
        };
        Ok(CKVIndex { segments: opened, schema, header_store, kafka_offsets })
    }

    /// Does the partition's on-disk tree lack any required part?
    pub fn index_not_present(disk: &PartitionDisk) -> (r: bool)
        requires
            disk.wf(),
        ensures
            r == (!disk.index_present || disk.schema is None || disk.kafka_offsets is None
                || disk.header is None),
    {
        !disk.index_present || disk.schema.is_none() || disk.kafka_offsets.is_none()
            || disk.header.is_none()
    }

    /// Every required file must be present for the tree to be a valid
    /// index.
    pub fn is_valid_index(disk: &PartitionDisk) -> (r: Result<(), IndexError>)
        requires
            disk.wf(),
        ensures
            r is Ok <==> (disk.index_present && (forall|i: int|
                0 <= i < NUM_SEGMENTS ==> (#[trigger] disk.segments@[i]) is Some)
                && disk.schema is Some && disk.kafka_offsets is Some && disk.header is Some),
    {
        if !disk.index_present {
            return Err(
                IndexError::SystemError(String::from_str("index root path does not exist")),
            );
        }
        let mut i: usize = 0;
        while i < NUM_SEGMENTS
            invariant
                i <= NUM_SEGMENTS,
                disk.wf(),
                forall|q: int| 0 <= q < i ==> (#[trigger] disk.segments@[q]) is Some,
            decreases NUM_SEGMENTS - i,
        {
            if disk.segments[i].is_none() {
                return Err(
                    IndexError::SystemError(String::from_str("index segment is missing a file")),
                );
            }
            i = i + 1;
        }
        if disk.schema.is_none() {
            return Err(IndexError::SystemError(String::from_str("schema index not present")));
        }
        if disk.kafka_offsets.is_none() {
            return Err(
                IndexError::SystemError(String::from_str("offset store index not present")),
            );
        }
        if disk.header.is_none() {
            return Err(IndexError::SystemError(String::from_str("index header not present")));
        }
        Ok(())
    }

    /// Clear out the partition's on-disk tree.
    pub fn delete_all(disk: &mut PartitionDisk)
        requires
            old(disk).wf(),
        ensures
            final(disk).wf(),
            !final(disk).index_present,
            forall|i: int| 0 <= i < NUM_SEGMENTS ==> (#[trigger] final(disk).segments@[i]) is None,
            final(disk).schema is None,
            final(disk).header is None,
            final(disk).kafka_offsets is None,
    {
        let fresh = PartitionDisk::empty();
        *disk = fresh;
    }

    /// Fetch a field's stored bytes for a primary key.
    pub fn get_field_value(&self, primary_key: &[u8], field_name: &str) -> (r: Option<Vec<u8>>)
        requires
            self.wf(),
        ensures
            match r {
                Some(v) => self.spec_get(primary_key@, field_name@) == Some(v@),
                None => self.spec_get(primary_key@, field_name@) is None,
            },
    {
        let field_id = match self.schema.fetch_id_by_name(field_name) {
            None => {
                return None;
            },
            Some(id) => id,
        };
        let idx = segment_of(primary_key, NUM_SEGMENTS);
        proof {
            assert(self.seg(idx as int).wf());
        }
        self.segments[idx].read_field(primary_key, field_id)
    }

    /// The batch read: for each primary key, for each requested field
    /// name, one length-prefixed entry, all concatenated in order. The
    /// length reads `-1` for an absent or unknown field.
    pub fn batch_get_field_values(&self, primary_keys: &Vec<Vec<u8>>, field_names: &Vec<String>)
        -> (r: Vec<u8>)
        requires
            self.wf(),
        ensures
            r@ == spec_batch_bytes(*self, primary_keys@.map(|i: int, p: Vec<u8>| p@), self.spec_resolve_ids(field_names@)),
    {
        let mut field_ids: Vec<Option<FieldId>> = Vec::new();
        let n_names = field_names.len();
        let mut i: usize = 0;
        while i < n_names
            invariant
                i <= n_names,
                n_names == field_names@.len(),
                self.wf(),
                field_ids@.len() == i,
                forall|q: int|
                    0 <= q < i ==> #[trigger] field_ids@[q] == (if self.schema().map().contains_key(
                        field_names@[q]@,
                    ) {
                        Some(self.schema().map()[field_names@[q]@])
                    } else {
                        None::<FieldId>
                    }),
            decreases n_names - i,
        {
            field_ids.push(self.schema.fetch_id_by_name(field_names[i].as_str()));
            i = i + 1;
        }
        proof {
            assert(field_ids@ =~= self.spec_resolve_ids(field_names@));
        }
        let mut result: Vec<u8> = Vec::new();
        let n_keys = primary_keys.len();
        let ghost pks = primary_keys@.map(|q: int, p: Vec<u8>| p@);
        let mut k: usize = 0;
        proof {
            assert(pks.take(0int) =~= Seq::<Seq<u8>>::empty());
        }
        while k < n_keys
            invariant
                k <= n_keys,
                n_keys == primary_keys@.len(),
                self.wf(),
                pks == primary_keys@.map(|q: int, p: Vec<u8>| p@),
                field_ids@ == self.spec_resolve_ids(field_names@),
                result@ == spec_batch_bytes(*self, pks.take(k as int), field_ids@),
            decreases n_keys - k,
        {
            let idx = segment_of(primary_keys[k].as_slice(), NUM_SEGMENTS);
            proof {
                assert(self.seg(idx as int).wf());
            }
            self.segments[idx].read_fields(primary_keys[k].as_slice(), &field_ids, &mut result);
            proof {
                assert(pks.take(k + 1int) =~= pks.take(k as int).push(pks[k as int]));
                lemma_batch_bytes_push(*self, pks.take(k as int), pks[k as int], field_ids@);
                assert(result@ =~= spec_batch_bytes(*self, pks.take(k + 1int), field_ids@));
            }
            k = k + 1;
        }
        proof {
            assert(pks.take(n_keys as int) =~= pks);
        }
        result
    }

    /// The requested names resolved against the registry, in order.
    pub open spec fn spec_resolve_ids(self, names: Seq<String>) -> Seq<Option<u32>> {
        Seq::new(
            names.len(),
            |q: int|
                if self.schema().map().contains_key(names[q]@) {
                    Some(self.schema().map()[names[q]@])
                } else {
                    None
                },
        )
    }

    /// Flush every shard to its on-disk image.
    pub fn flush_writes(&mut self) -> (r: Result<(), IndexError>)
        requires
            old(self).wf(),
        ensures
            r is Ok,
            final(self).wf(),
            final(self).schema() == old(self).schema(),
            final(self).header() == old(self).header(),
            final(self).offsets_file() == old(self).offsets_file(),
            forall|i: int|
                0 <= i < NUM_SEGMENTS ==> {
                    &&& (#[trigger] final(self).seg(i)).flushed()
                    &&& final(self).seg(i).table() == old(self).seg(i).table()
                    &&& final(self).seg(i).arena() == old(self).seg(i).arena()
                    &&& final(self).seg(i).write_off() == old(self).seg(i).write_off()
                    &&& final(self).seg(i).log_records() == old(self).seg(i).log_records()
                },
    {
        let ghost segs0 = self.segments@;
        let mut flushed: Vec<CKVIndexSegment> = Vec::new();
        let mut i: usize = 0;
        proof {
            assert forall|q: int| 0 <= q < NUM_SEGMENTS implies (#[trigger] segs0[q]).wf() by {
                assert(self.seg(q) == segs0[q]);
            }
        }
        while i < NUM_SEGMENTS
            invariant
                i <= NUM_SEGMENTS,
                self.segments@.len() == NUM_SEGMENTS - i,
                segs0.len() == NUM_SEGMENTS,
                self.segments@ == segs0.skip(i as int),
                self.schema == old(self).schema,
                self.header_store == old(self).header_store,
                self.kafka_offsets == old(self).kafka_offsets,
                old(self).wf(),
                forall|q: int| 0 <= q < NUM_SEGMENTS ==> (#[trigger] segs0[q]).wf(),
                flushed@.len() == i,
                forall|q: int|
                    0 <= q < i ==> {
                        &&& (#[trigger] flushed@[q]).wf()
                        &&& flushed@[q].flushed()
                        &&& flushed@[q].table() == segs0[q].table()
                        &&& flushed@[q].arena() == segs0[q].arena()
                        &&& flushed@[q].write_off() == segs0[q].write_off()
                        &&& flushed@[q].log_records() == segs0[q].log_records()
                    },
            decreases NUM_SEGMENTS - i,
        {
            let mut seg = self.segments.remove(0);
            proof {
                assert(self.segments@ =~= segs0.skip(i + 1int));
                assert(segs0.skip(i as int)[0] == segs0[i as int]);
            }
            let _ = seg.flush_writes();
            flushed.push(seg);
            i = i + 1;
        }
        self.segments = flushed;
        proof {
            assert forall|q: int| 0 <= q < NUM_SEGMENTS implies (#[trigger] self.seg(q)).wf() by {
                assert(self.seg(q) == flushed@[q]);
            }
            assert forall|q: int| 0 <= q < NUM_SEGMENTS implies old(self).seg(q) == segs0[q] by {}
        }
        Ok(())
    }

    /// Flush everything and hand back the partition's on-disk tree; each
    /// part of it reopens to the state it was closed with.
    pub fn close(self) -> (r: Result<PartitionDisk, IndexError>)
        requires
            self.wf(),
        ensures
            match r {
                Ok(d) => {
                    &&& d.wf()
                    &&& d.index_present
                    &&& spec_disk_ok(d)
                    &&& forall|i: int|
                        0 <= i < NUM_SEGMENTS ==> match #[trigger] d.segments@[i] {
                            Option::None => false,
                            Option::Some(f) => spec_replay(
                                spec_recover_log(f.offset_table@)->Some_0,
                            ) == self.seg(i).table() && f.mmap@ == self.seg(i).arena(),
                        }
                    &&& d.schema matches Some(b) && b@ == self.schema().file_bytes()
                    &&& spec_parse_schema(self.schema().file_bytes()) == Some(
                        (self.schema().pk_name(), self.schema().entries(), self.schema().counter_u64()),
                    )
                    &&& d.header matches Some(b) && b@ == self.header().file_bytes()
                    &&& d.kafka_offsets matches Some(b) && b@ == self.offsets_file()
                },
                Err(e) => false,
            },
    {
        let CKVIndex { mut segments, schema, header_store, kafka_offsets } = self;
        let mut slots: Vec<Option<SegmentFiles>> = Vec::new();
        let ghost segs0 = segments@;
        proof {
            assert(schema.wf());
            assert forall|q: int| 0 <= q < NUM_SEGMENTS implies (#[trigger] segs0[q]).wf() by {
                assert(self.seg(q).wf());
            }
        }
        let mut i: usize = 0;
        while i < NUM_SEGMENTS
            invariant
                i <= NUM_SEGMENTS,
                segments@.len() == NUM_SEGMENTS - i,
                segs0.len() == NUM_SEGMENTS,
                segments@ == segs0.skip(i as int),
                forall|q: int| 0 <= q < NUM_SEGMENTS ==> (#[trigger] segs0[q]).wf(),
                schema == self.schema(),
                schema.wf(),
                header_store == self.header(),
                header_store.wf(),
                kafka_offsets@ == self.offsets_file(),
                slots@.len() == i,
                forall|q: int|
                    0 <= q < i ==> match #[trigger] slots@[q] {
                        Option::None => false,
                        Option::Some(f) => spec_open_ok(f) && spec_replay(
                            spec_recover_log(f.offset_table@)->Some_0,
                        ) == segs0[q].table() && f.mmap@ == segs0[q].arena(),
                    },
            decreases NUM_SEGMENTS - i,
        {
            let seg = segments.remove(0);
            proof {
                assert(segments@ =~= segs0.skip(i + 1int));
                assert(segs0.skip(i as int)[0] == segs0[i as int]);
            }
            let files = seg.close();
            slots.push(Some(files));
            i = i + 1;
        }
        proof {
            crate::codec::lemma_le_roundtrips();
            assert forall|q: int|
                0 <= q < schema.entries().len() implies (#[trigger] schema.entries()[q]).1
                < schema.counter() && (schema.entries()[q]).1 < FIELD_ID_LIMIT by {
                crate::maps::lemma_key_index_self(schema.entries(), q);
                crate::maps::lemma_seq_to_map(schema.entries());
                assert(schema.map().contains_key(schema.entries()[q].0));
            }
            assert forall|q1: int, q2: int|
                0 <= q1 < q2 < schema.entries().len() implies (#[trigger] schema.entries()[q1]).1
                != (#[trigger] schema.entries()[q2]).1 by {
                crate::maps::lemma_key_index_self(schema.entries(), q1);
                crate::maps::lemma_key_index_self(schema.entries(), q2);
                crate::maps::lemma_seq_to_map(schema.entries());
                assert(schema.map().contains_key(schema.entries()[q1].0));
                assert(schema.map().contains_key(schema.entries()[q2].0));
                assert(schema.entries()[q1].0 != schema.entries()[q2].0);
            }
            crate::schema_store::lemma_parse_schema_roundtrip(
                schema.pk_name(),
                schema.entries(),
                schema.counter_u64(),
            );
            assert(schema.file_bytes().len() >= 4) by {
                assert(schema.file_bytes() == crate::schema_store::spec_encode_schema(
                    schema.pk_name(),
                    schema.entries(),
                    schema.counter_u64(),
                ));
            }
            let t = spec_parse_schema(schema.file_bytes())->Some_0;
            assert(t.1 == schema.entries());
            assert(t.2 == schema.counter_u64());
            assert(crate::maps::distinct_keys(t.1));
            assert(forall|q1: int, q2: int|
                0 <= q1 < q2 < t.1.len() ==> (#[trigger] t.1[q1]).1 != (#[trigger] t.1[q2]).1);
            assert(forall|q: int| 0 <= q < t.1.len() ==> (#[trigger] t.1[q]).1 < t.2);
            assert(t.2 <= FIELD_ID_LIMIT);
            assert(t.1.len() <= t.2);
            crate::maps::lemma_seq_to_map(schema.entries());
            crate::maps::lemma_key_index(schema.entries(), schema.pk_name());
            assert(crate::maps::key_index(schema.entries(), schema.pk_name()) >= 0);
            assert(schema.entries()[crate::maps::key_index(schema.entries(), schema.pk_name())].1
                == 0) by {
                assert(schema.map()[schema.pk_name()] == 0);
            }
            assert(spec_schema_file_ok(schema.file_bytes()));
        }
        let schema_file = schema.close();
        let header_file = header_store.close();
        Ok(
            PartitionDisk {
                index_present: true,
                segments: slots,
                schema: Some(schema_file),
                header: Some(header_file),
                kafka_offsets: Some(kafka_offsets),
            },
        )
    }

    /// Write the index-level header.
    pub fn write_index_header(&mut self, header: &CKVIndexHeader) -> (r: Result<(), IndexError>)
        requires
            old(self).wf(),
        ensures
            r is Ok,
            final(self).wf(),
            final(self).header().spec_header() == header.base_index_epoch_millis,
            forall|i: int| 0 <= i < NUM_SEGMENTS ==> #[trigger] final(self).seg(i) == old(self).seg(i),
            final(self).schema() == old(self).schema(),
            final(self).offsets_file() == old(self).offsets_file(),
    {
        let r = self.header_store.write_header(header);
        proof {
            assert forall|q: int|
                0 <= q < NUM_SEGMENTS implies (#[trigger] self.seg(q)).wf() by {
                assert(self.seg(q) == old(self).seg(q));
            }
            assert(self.wf());
        }
        r
    }

    /// Read the index-level header.
    pub fn read_index_header(&self) -> (r: Result<CKVIndexHeader, IndexError>)
        requires
            self.wf(),
        ensures
            r matches Ok(h) && h.base_index_epoch_millis == self.header().spec_header(),
    {
        self.header_store.read_header()
    }

    /// The consumed-offset file as carried by this index.
    pub fn kafka_offsets_file(&self) -> (r: &Vec<u8>)
        ensures
            r@ == self.offsets_file(),
    {
        &self.kafka_offsets
    }

    /// Replace the consumed-offset file.
    pub fn set_kafka_offsets_file(&mut self, file: Vec<u8>)
        requires
            old(self).wf(),
        ensures
            final(self).wf(),
            final(self).offsets_file() == file@,
            forall|i: int| 0 <= i < NUM_SEGMENTS ==> #[trigger] final(self).seg(i) == old(self).seg(i),
            final(self).schema() == old(self).schema(),
            final(self).header() == old(self).header(),
    {
        self.kafka_offsets = file;
        proof {
            assert forall|q: int|
                0 <= q < NUM_SEGMENTS implies (#[trigger] self.seg(q)).wf() by {
                assert(self.seg(q) == old(self).seg(q));
            }
            assert(self.wf());
        }
    }
}

/// The batch output: one block per primary key, each the concatenation
/// of its per-field entries.
pub open spec fn spec_batch_bytes(ix: CKVIndex, pks: Seq<Seq<u8>>, fids: Seq<Option<u32>>) -> Seq<
    u8,
>
    decreases pks.len(),
{
    if pks.len() == 0 {
        Seq::empty()
    } else {
        spec_batch_bytes(ix, pks.drop_last(), fids) + spec_entries_bytes(
            ix.seg(spec_segment_of(pks.last(), NUM_SEGMENTS as int)).table(),
            ix.seg(spec_segment_of(pks.last(), NUM_SEGMENTS as int)).arena(),
            pks.last(),
            fids,
        )
    }
}

/// One more key appends one more block: the batch output is exactly the
/// concatenation of single-key reads.
pub proof fn lemma_batch_bytes_push(ix: CKVIndex, pks: Seq<Seq<u8>>, pk: Seq<u8>, fids: Seq<Option<u32>>)
    ensures
        spec_batch_bytes(ix, pks.push(pk), fids) == spec_batch_bytes(ix, pks, fids)
            + spec_entries_bytes(
            ix.seg(spec_segment_of(pk, NUM_SEGMENTS as int)).table(),
            ix.seg(spec_segment_of(pk, NUM_SEGMENTS as int)).arena(),
            pk,
            fids,
        ),
{
    assert(pks.push(pk).drop_last() =~= pks);
    assert(pks.push(pk).last() == pk);
}


/// The ids of a document's fields that carry a known type, in document
/// order, resolved in `m`.
pub open spec fn spec_doc_fids(m: Map<Seq<char>, u32>, entries: Seq<(Seq<char>, FieldValue)>) -> Seq<u32>
    decreases entries.len(),
{
    if entries.len() == 0 {
        Seq::empty()
    } else {
        let rest = spec_doc_fids(m, entries.drop_first());
        if entries[0].1.field_type is Unknown {
            rest
        } else {
            seq![m[entries[0].0]] + rest
        }
    }
}

/// The values of a document's fields that carry a known type, in
/// document order.
pub open spec fn spec_doc_vals(entries: Seq<(Seq<char>, FieldValue)>) -> Seq<FieldValue>
    decreases entries.len(),
{
    if entries.len() == 0 {
        Seq::empty()
    } else {
        let rest = spec_doc_vals(entries.drop_first());
        if entries[0].1.field_type is Unknown {
            rest
        } else {
            seq![entries[0].1] + rest
        }
    }
}

impl CKVIndex {
    /// The primary key a document carries, as the store extracts it:
    /// the serialized bytes of its primary-key field.
    pub open spec fn spec_doc_pk(self, d: Document) -> Option<Seq<u8>> {
        if d@.contains_key(self.schema().pk_name()) {
            if d@[self.schema().pk_name()].field_type is Unknown {
                None
            } else {
                Some(d@[self.schema().pk_name()].value@)
            }
        } else {
            None
        }
    }

    /// Extract and validate a document's primary key, without changing
    /// anything.
    fn extract_primary_key(&self, document: &Document) -> (r: Result<Vec<u8>, IndexError>)
        requires
            self.wf(),
            document.wf(),
        ensures
            match r {
                Ok(pk) => self.spec_doc_pk(*document) == Some(pk@) && pk@.len() <= u16::MAX,
                Err(e) => self.spec_doc_pk(*document) is None || self.spec_doc_pk(
                    *document,
                )->Some_0.len() > u16::MAX,
            },
    {
        let fv = match self.schema.extract_primary_key_value(document) {
            None => {
                return Err(
                    IndexError::IllegalArguments(
                        String::from_str("cannot write with missing primary-key"),
                    ),
                );
            },
            Some(fv) => fv,
        };
        if let FieldType::Unknown = fv.field_type {
            return Err(
                IndexError::IllegalArguments(String::from_str("unsupported primary key type")),
            );
        }
        if fv.value.len() > u16::MAX as usize {
            return Err(
                IndexError::IllegalArguments(
                    String::from_str("primary_key larger than 64KB is unsupported"),
                ),
            );
        }
        Ok(copy_bytes(&fv.value))
    }

    /// Upsert a document: register any new field names, then append the
    /// document's known-typed values to its shard. An empty document is
    /// a no-op. The upsert fails, and fails only, when the registry's id
    /// space would overflow, the primary key is missing, unknown-typed
    /// or over-long, or the owning shard cannot hold the values; the
    /// schema upsert happens first, so a primary-key rejection can leave
    /// the registry grown but never touches a shard.
    #[verifier::rlimit(100)]
    pub fn upsert_field_values(&mut self, document: &Document) -> (r: Result<(), IndexError>)
        requires
            old(self).wf(),
            wf_document(*document),
        ensures
            final(self).wf(),
            final(self).header() == old(self).header(),
            final(self).offsets_file() == old(self).offsets_file(),
            final(self).schema().pk_name() == old(self).schema().pk_name(),
            document.seq_view().len() == 0 ==> (*final(self) == *old(self) && r is Ok),
            document.seq_view().len() > 0 ==> (r is Err <==> spec_upsert_fail(
                *old(self),
                *document,
            )),
            r is Ok && document.seq_view().len() > 0 ==> spec_upsert_effect(
                *old(self),
                *final(self),
                *document,
            ),
            r is Err ==> forall|j: int|
                0 <= j < NUM_SEGMENTS ==> #[trigger] final(self).seg(j) == old(self).seg(j),
    {
        let n = document.len();
        if n == 0 {
            return Ok(());
        }
        let ghost st0 = (self.schema().map(), self.schema().counter());
        let ghost names = spec_doc_names(*document);
        let ghost st2 = spec_assign(st0, names);
        match self.schema.upsert_schema(document) {
            Err(e) => {
                proof {
                    assert forall|q: int|
                        0 <= q < NUM_SEGMENTS implies (#[trigger] self.seg(q)).wf() && self.seg(
                        q,
                    ) == old(self).seg(q) by {
                        assert(self.seg(q) == old(self).seg(q));
                    }
                    assert(self.wf());
                }
                return Err(IndexError::from_schema_error(e));
            },
            Ok(u) => {},
        }
        proof {
            assert forall|q: int|
                0 <= q < NUM_SEGMENTS implies (#[trigger] self.seg(q)).wf() by {
                assert(self.seg(q) == old(self).seg(q));
            }
            assert(self.wf());
        }
        let pk = match self.extract_primary_key(document) {
            Err(e) => {
                proof {
                    assert(self.spec_doc_pk(*document) == old(self).spec_doc_pk(*document));
                    assert(spec_pk_fail(*old(self), *document));
                    assert forall|j: int|
                        0 <= j < NUM_SEGMENTS implies #[trigger] self.seg(j) == old(self).seg(
                        j,
                    ) by {}
                }
                return Err(e);
            },
            Ok(pk) => pk,
        };

        // Gather the known-typed values and their registered ids, in
        // document order.
        let ghost entries = document.seq_view();
        let mut field_ids: Vec<u32> = Vec::new();
        let mut values: Vec<FieldValue> = Vec::new();
        let m = document.len();
        let mut i: usize = m;
        let ghost snap = *self;
        proof {
            crate::schema_store::lemma_assign_wf(st0, names);
            assert(entries.skip(m as int) =~= Seq::<(Seq<char>, FieldValue)>::empty());
        }
        while i > 0
            invariant
                i <= m,
                m == entries.len(),
                entries == document.seq_view(),
                document.wf(),
                wf_document(*document),
                self.wf(),
                *self == snap,
                forall|k: Seq<char>|
                    spec_doc_names(*document).contains(k) ==> #[trigger] self.schema().map().contains_key(k),
                field_ids@ == spec_doc_fids(self.schema().map(), entries.skip(i as int)),
                crate::field::fv_views_match(values@, spec_doc_vals(entries.skip(i as int))),
            decreases i,
        {
            i = i - 1;
            let name = document.key_at(i);
            let value = document.value_at(i);
            proof {
                assert(entries.skip(i as int)[0] == entries[i as int]);
                assert(entries.skip(i as int).drop_first() =~= entries.skip(i + 1int));
                assert(spec_doc_names(*document)[i as int] == entries[i as int].0);
                assert(spec_doc_names(*document).contains(entries[i as int].0));
            }
            let is_unknown = if let FieldType::Unknown = value.field_type {
                true
            } else {
                false
            };
            if !is_unknown {
                let id = match self.schema.fetch_id_by_name(name.as_str()) {
                    None => {
                        // the schema upsert registered every name of
                        // this document
                        proof {
                            assert(false);
                        }
                        return Err(
                            IndexError::SystemError(
                                String::from_str("schema lost a registered field"),
                            ),
                        );
                    },
                    Some(id) => id,
                };
                let mut fi2: Vec<u32> = Vec::new();
                fi2.push(id);
                let mut va2: Vec<FieldValue> = Vec::new();
                va2.push(FieldValue {
                    field_type: value.field_type,
                    value: copy_bytes(&value.value),
                });
                fi2.append(&mut field_ids);
                va2.append(&mut values);
                field_ids = fi2;
                values = va2;
                proof {
                    assert(field_ids@ =~= spec_doc_fids(
                        self.schema().map(),
                        entries.skip(i as int),
                    ));
                    let ghost dv = spec_doc_vals(entries.skip(i as int));
                    assert(dv[0] == entries[i as int].1);
                    assert forall|t: int|
                        0 <= t < values@.len() implies (#[trigger] values@[t]).field_type
                        == dv[t].field_type && values@[t].value@ == dv[t].value@ by {
                        if t > 0 {
                            assert(dv[t] == spec_doc_vals(entries.skip(i + 1int))[t - 1]);
                        }
                    }
                }
            }
        }
        let ghost dv = spec_doc_vals(entries);
        let ghost m2 = self.schema().map();
        proof {
            assert(entries.skip(0int) =~= entries);
            crate::field::lemma_fv_views_encode(values@, dv);
            assert(m2 == st2.0 && self.schema().counter() == st2.1);
            assert(st2.1 <= FIELD_ID_LIMIT);
            assert(!spec_pk_fail(*old(self), *document));
        }
        if field_ids.len() == 0 {
            proof {
                assert(!spec_upsert_fail(*old(self), *document));
            }
            return Ok(());
        }
        let idx = segment_of(pk.as_slice(), NUM_SEGMENTS);
        proof {
            assert(self.seg(idx as int).wf());
            assert forall|q: int|
                0 <= q < entries.len() implies self.schema().map().contains_key(
                (#[trigger] entries[q]).0,
            ) by {
                assert(spec_doc_names(*document)[q] == entries[q].0);
                assert(spec_doc_names(*document).contains(entries[q].0));
            }
            lemma_doc_fids_bounds(self.schema(), entries);
            let ghost ids = Seq::new(
                entries.len(),
                |q: int| self.schema().map()[entries[q].0],
            );
            assert forall|q: int| 0 <= q < ids.len() implies 0 <= #[trigger] ids[q]
                < FIELD_ID_LIMIT as int by {}
            assert forall|q1: int, q2: int|
                0 <= q1 < q2 < ids.len() implies #[trigger] ids[q1] != #[trigger] ids[q2] by {
                assert((entries[q1]).0 != (entries[q2]).0);
            }
            lemma_distinct_bounded_len(ids, FIELD_ID_LIMIT as int);
            assert(entries.len() <= FIELD_ID_LIMIT);
        }
        let ghost w0 = self.seg(idx as int).write_off();
        let ghost t1 = self.seg(idx as int).table();
        let ghost arena1 = self.seg(idx as int).arena();
        let ghost before = self.segments@;
        let mut seg = self.segments.remove(idx);
        let upsert_result = seg.upsert_document(&pk, &field_ids, &values);
        let ghost gseg = seg;
        self.segments.insert(idx, seg);
        proof {
            assert(self.segments@ =~= before.update(idx as int, gseg));
            assert forall|q: int|
                0 <= q < NUM_SEGMENTS implies (#[trigger] self.seg(q)).wf() by {
                if q != idx {
                    assert(self.seg(q) == before[q]);
                    assert(before[q] == old(self).seg(q));
                } else {
                    assert(self.seg(q) == gseg);
                }
            }
            assert forall|j: int|
                0 <= j < NUM_SEGMENTS && j != idx as int implies #[trigger] self.seg(j) == old(self).seg(j) by {
                assert(self.seg(j) == before[j]);
            }
            crate::segment::lemma_fv_views_offsets(values@, dv, w0);
        }
        match upsert_result {
            Err(e) => {
                proof {
                    assert(self.seg(idx as int) == old(self).seg(idx as int));
                    assert(spec_upsert_fail(*old(self), *document)) by {
                        if exists|q: int|
                            0 <= q < values@.len() && !spec_encodable(#[trigger] values@[q]) {
                            let q = choose|q: int|
                                0 <= q < values@.len() && !spec_encodable(
                                    #[trigger] values@[q],
                                );
                            assert(!spec_encodable(dv[q]));
                        }
                    }
                }
                Err(e)
            },
            Ok(u) => {
                proof {
                    upsert_read_proof(*old(self), *self, *document, pk@, idx as int, field_ids@, values@);
                    assert(!spec_upsert_fail(*old(self), *document)) by {
                        if exists|q: int| 0 <= q < dv.len() && !spec_encodable(#[trigger] dv[q]) {
                            let q = choose|q: int|
                                0 <= q < dv.len() && !spec_encodable(#[trigger] dv[q]);
                            assert(!spec_encodable(values@[q]));
                        }
                    }
                    assert(spec_upsert_effect(*old(self), *self, *document));
                }
                Ok(())
            },
        }
    }

    /// Set the named fields of a document back to absent in its shard;
    /// names the registry does not know are ignored, and the schema is
    /// not grown. With a non-empty document and name list, the delete
    /// fails exactly when the primary key is missing, unknown-typed or
    /// over-long, and then changes nothing.
    pub fn delete_field_values(&mut self, document: &Document, field_names: &Vec<String>) -> (r:
        Result<(), IndexError>)
        requires
            old(self).wf(),
            wf_document(*document),
            field_names@.len() <= MAX_RECORD_FIELDS,
        ensures
            final(self).wf(),
            final(self).schema() == old(self).schema(),
            final(self).header() == old(self).header(),
            final(self).offsets_file() == old(self).offsets_file(),
            (document.seq_view().len() == 0 || field_names@.len() == 0) ==> (*final(self) == *old(
                self,
            ) && r is Ok),
            r is Err ==> *final(self) == *old(self),
            document.seq_view().len() > 0 && field_names@.len() > 0 ==> (r is Err
                <==> spec_pk_fail(*old(self), *document)),
            r is Ok && document.seq_view().len() > 0 && field_names@.len() > 0
                ==> spec_delete_fields_effect(*old(self), *final(self), *document, field_names@),
    {
        let n = document.len();
        if n == 0 || field_names.len() == 0 {
            return Ok(());
        }
        let pk = match self.extract_primary_key(document) {
            Err(e) => {
                return Err(e);
            },
            Ok(pk) => pk,
        };
        let mut field_ids: Vec<u32> = Vec::new();
        let nn = field_names.len();
        let mut i: usize = nn;
        proof {
            assert(field_names@.skip(nn as int) =~= Seq::<String>::empty());
        }
        while i > 0
            invariant
                i <= nn,
                nn == field_names@.len(),
                self.wf(),
                *self == *old(self),
                field_ids@ == spec_resolve_present(
                    self.schema().map(),
                    field_names@.skip(i as int),
                ),
            decreases i,
        {
            i = i - 1;
            proof {
                assert(field_names@.skip(i as int)[0] == field_names@[i as int]);
                assert(field_names@.skip(i as int).drop_first() =~= field_names@.skip(i + 1int));
            }
            match self.schema.fetch_id_by_name(field_names[i].as_str()) {
                None => {},
                Some(id) => {
                    let mut fi2: Vec<u32> = Vec::new();
                    fi2.push(id);
                    fi2.append(&mut field_ids);
                    field_ids = fi2;
                },
            }
            proof {
                assert(field_ids@ =~= spec_resolve_present(
                    self.schema().map(),
                    field_names@.skip(i as int),
                ));
            }
        }
        proof {
            assert(field_names@.skip(0int) =~= field_names@);
            lemma_resolve_present_bounds(self.schema(), field_names@);
        }
        let idx = segment_of(pk.as_slice(), NUM_SEGMENTS);
        proof {
            assert(self.seg(idx as int).wf());
        }
        let ghost t1 = self.seg(idx as int).table();
        let ghost arena1 = self.seg(idx as int).arena();
        let ghost before = self.segments@;
        let mut seg = self.segments.remove(idx);
        let _ = seg.delete_field_values(&pk, &field_ids);
        let ghost gseg = seg;
        self.segments.insert(idx, seg);
        proof {
            assert(self.segments@ =~= before.update(idx as int, gseg));
            assert forall|q: int|
                0 <= q < NUM_SEGMENTS implies (#[trigger] self.seg(q)).wf() by {
                if q != idx {
                    assert(self.seg(q) == before[q]);
                    assert(before[q] == old(self).seg(q));
                } else {
                    assert(self.seg(q) == gseg);
                }
            }
            assert forall|j: int|
                0 <= j < NUM_SEGMENTS && j != idx as int implies #[trigger] self.seg(j) == old(self).seg(j) by {
                assert(self.seg(j) == before[j]);
            }
            delete_fields_read_proof(
                *old(self),
                *self,
                *document,
                field_names@,
                pk@,
                idx as int,
            );
        }
        Ok(())
    }

    /// Delete a document from its shard, given its primary key. With a
    /// non-empty document, the delete fails exactly when the primary key
    /// is missing, unknown-typed or over-long, and then changes nothing.
    pub fn delete_document(&mut self, document: &Document) -> (r: Result<(), IndexError>)
        requires
            old(self).wf(),
            wf_document(*document),
        ensures
            final(self).wf(),
            final(self).schema() == old(self).schema(),
            final(self).header() == old(self).header(),
            final(self).offsets_file() == old(self).offsets_file(),
            document.seq_view().len() == 0 ==> (*final(self) == *old(self) && r is Ok),
            r is Err ==> *final(self) == *old(self),
            document.seq_view().len() > 0 ==> (r is Err <==> spec_pk_fail(
                *old(self),
                *document,
            )),
            r is Ok && document.seq_view().len() > 0 ==> spec_delete_doc_effect(
                *old(self),
                *final(self),
                *document,
            ),
    {
        let n = document.len();
        if n == 0 {
            return Ok(());
        }
        let pk = match self.extract_primary_key(document) {
            Err(e) => {
                return Err(e);
            },
            Ok(pk) => pk,
        };
        let idx = segment_of(pk.as_slice(), NUM_SEGMENTS);
        proof {
            assert(self.seg(idx as int).wf());
        }
        let ghost before = self.segments@;
        let mut seg = self.segments.remove(idx);
        let _ = seg.delete_document(&pk);
        let ghost gseg = seg;
        self.segments.insert(idx, seg);
        proof {
            assert(self.segments@ =~= before.update(idx as int, gseg));
            assert forall|q: int|
                0 <= q < NUM_SEGMENTS implies (#[trigger] self.seg(q)).wf() by {
                if q != idx {
                    assert(self.seg(q) == before[q]);
                    assert(before[q] == old(self).seg(q));
                } else {
                    assert(self.seg(q) == gseg);
                }
            }
            assert forall|j: int|
                0 <= j < NUM_SEGMENTS && j != idx as int implies #[trigger] self.seg(j) == old(self).seg(j) by {
                assert(self.seg(j) == before[j]);
            }
            if pk@.len() > 0 {
                let rec = LogRecord::DeleteDoc { pk: pk@ };
                assert forall|g: Seq<char>|
                    #[trigger] old(self).schema().map().contains_key(g) implies self.spec_get(
                    pk@,
                    g,
                ) is None by {
                    crate::segment::lemma_read_after_delete_doc(
                        old(self).seg(idx as int).table(),
                        self.seg(idx as int).arena(),
                        self.seg(idx as int).table(),
                        pk@,
                        old(self).schema().map()[g],
                        pk@,
                    );
                }
                assert forall|qk: Seq<u8>, g: u32| qk != pk@ implies #[trigger] spec_read_at(
                    self.seg(idx as int).table(),
                    self.seg(idx as int).arena(),
                    qk,
                    g,
                ) == spec_read_at(
                    old(self).seg(idx as int).table(),
                    old(self).seg(idx as int).arena(),
                    qk,
                    g,
                ) by {
                    crate::segment::lemma_read_after_delete_doc(
                        old(self).seg(idx as int).table(),
                        self.seg(idx as int).arena(),
                        self.seg(idx as int).table(),
                        pk@,
                        g,
                        qk,
                    );
                }
            }
            assert(spec_delete_doc_effect(*old(self), *self, *document));
        }
        Ok(())
    }

    /// Drop the named fields and every field carrying one of the name
    /// prefixes from the registry; the primary key is never dropped, and
    /// stored bytes wait for compaction. With nothing to drop this is a
    /// no-op.
    pub fn drop_fields(&mut self, field_names: &Vec<String>, field_name_prefixes: &Vec<String>)
        -> (r: Result<(), IndexError>)
        requires
            old(self).wf(),
        ensures
            r is Ok,
            final(self).wf(),
            final(self).header() == old(self).header(),
            final(self).offsets_file() == old(self).offsets_file(),
            forall|j: int| 0 <= j < NUM_SEGMENTS ==> #[trigger] final(self).seg(j) == old(self).seg(j),
            final(self).schema().pk_name() == old(self).schema().pk_name(),
            final(self).schema().counter() == old(self).schema().counter(),
            (field_names@.len() == 0 && field_name_prefixes@.len() == 0) ==> final(self).schema()
                == old(self).schema(),
            (field_names@.len() > 0 || field_name_prefixes@.len() > 0) ==> {
                &&& forall|k: Seq<char>|
                    #[trigger] final(self).schema().map().contains_key(k) <==> (old(self).schema().map().contains_key(k) && !spec_should_drop(
                        k,
                        old(self).schema().pk_name(),
                        field_names@,
                        field_name_prefixes@,
                    ))
                &&& forall|k: Seq<char>|
                    #[trigger] final(self).schema().map().contains_key(k) ==> final(self).schema().map()[k] == old(self).schema().map()[k]
            },
    {
        if field_names.len() == 0 && field_name_prefixes.len() == 0 {
            return Ok(());
        }
        let r = self.schema.soft_delete_fields(field_names, field_name_prefixes);
        proof {
            assert forall|q: int|
                0 <= q < NUM_SEGMENTS implies (#[trigger] self.seg(q)).wf() by {
                assert(self.seg(q) == old(self).seg(q));
            }
        }
        Ok(())
    }

    /// Drop all indexed data: truncate every shard and reset the
    /// registry to the primary key alone.
    pub fn drop_all_documents(&mut self) -> (r: Result<(), IndexError>)
        requires
            old(self).wf(),
        ensures
            r is Ok,
            final(self).wf(),
            final(self).header() == old(self).header(),
            final(self).offsets_file() == old(self).offsets_file(),
            forall|j: int| 0 <= j < NUM_SEGMENTS ==> (#[trigger] final(self).seg(j)).fresh(),
            final(self).schema().pk_name() == old(self).schema().pk_name(),
            final(self).schema().counter() == 1,
            final(self).schema().map() == Map::<Seq<char>, u32>::empty().insert(
                old(self).schema().pk_name(),
                0u32,
            ),
    {
        let ghost segs0 = self.segments@;
        let mut cleared: Vec<CKVIndexSegment> = Vec::new();
        let mut i: usize = 0;
        proof {
            assert forall|q: int| 0 <= q < NUM_SEGMENTS implies (#[trigger] segs0[q]).wf() by {
                assert(self.seg(q) == segs0[q]);
            }
        }
        while i < NUM_SEGMENTS
            invariant
                i <= NUM_SEGMENTS,
                self.segments@.len() == NUM_SEGMENTS - i,
                segs0.len() == NUM_SEGMENTS,
                self.segments@ == segs0.skip(i as int),
                self.schema == old(self).schema,
                self.header_store == old(self).header_store,
                self.kafka_offsets == old(self).kafka_offsets,
                old(self).wf(),
                forall|q: int| 0 <= q < NUM_SEGMENTS ==> (#[trigger] segs0[q]).wf(),
                cleared@.len() == i,
                forall|q: int|
                    0 <= q < i ==> (#[trigger] cleared@[q]).wf() && cleared@[q].fresh(),
            decreases NUM_SEGMENTS - i,
        {
            let mut seg = self.segments.remove(0);
            proof {
                assert(self.segments@ =~= segs0.skip(i + 1int));
                assert(segs0.skip(i as int)[0] == segs0[i as int]);
            }
            let _ = seg.delete_all_documents();
            cleared.push(seg);
            i = i + 1;
        }
        self.segments = cleared;
        let _ = self.schema.hard_delete_all_fields();
        proof {
            assert forall|q: int| 0 <= q < NUM_SEGMENTS implies (#[trigger] self.seg(q)).wf()
                && self.seg(q).fresh() by {
                assert(self.seg(q) == cleared@[q]);
            }
        }
        Ok(())
    }
}

/// The registered ids among the given names, in order.
pub open spec fn spec_resolve_present(m: Map<Seq<char>, u32>, names: Seq<String>) -> Seq<u32>
    decreases names.len(),
{
    if names.len() == 0 {
        Seq::empty()
    } else {
        let rest = spec_resolve_present(m, names.drop_first());
        if m.contains_key(names[0]@) {
            seq![m[names[0]@]] + rest
        } else {
            rest
        }
    }
}

/// Resolved ids come from the registry: there are no more of them than
/// names, and each is a registered id.
proof fn lemma_resolve_present_bounds(sc: CKVIndexSchema, names: Seq<String>)
    requires
        sc.wf(),
    ensures
        spec_resolve_present(sc.map(), names).len() <= names.len(),
        forall|j: int|
            0 <= j < spec_resolve_present(sc.map(), names).len() ==> #[trigger] spec_resolve_present(
                sc.map(),
                names,
            )[j] < FIELD_ID_LIMIT,
    decreases names.len(),
{
    if names.len() > 0 {
        lemma_resolve_present_bounds(sc, names.drop_first());
        let rest = spec_resolve_present(sc.map(), names.drop_first());
        if sc.map().contains_key(names[0]@) {
            assert forall|j: int|
                0 <= j < spec_resolve_present(sc.map(), names).len() implies #[trigger] spec_resolve_present(
                sc.map(),
                names,
            )[j] < FIELD_ID_LIMIT by {
                if j > 0 {
                    assert(spec_resolve_present(sc.map(), names)[j] == rest[j - 1]);
                }
            }
        }
    }
}

/// The gathered ids of a document's known-typed fields: no more than
/// the document has fields, each registered, and as many as the values.
proof fn lemma_doc_fids_bounds(sc: CKVIndexSchema, entries: Seq<(Seq<char>, FieldValue)>)
    requires
        sc.wf(),
        forall|i: int|
            0 <= i < entries.len() ==> sc.map().contains_key((#[trigger] entries[i]).0),
    ensures
        spec_doc_fids(sc.map(), entries).len() == spec_doc_vals(entries).len(),
        spec_doc_fids(sc.map(), entries).len() <= entries.len(),
        forall|j: int|
            0 <= j < spec_doc_fids(sc.map(), entries).len() ==> #[trigger] spec_doc_fids(
                sc.map(),
                entries,
            )[j] < FIELD_ID_LIMIT,
        forall|j: int|
            0 <= j < spec_doc_vals(entries).len() ==> wf_field_value(
                #[trigger] spec_doc_vals(entries)[j],
            ) || !(forall|i: int|
                0 <= i < entries.len() ==> wf_field_value((#[trigger] entries[i]).1)),
    decreases entries.len(),
{
    if entries.len() > 0 {
        assert(forall|i: int|
            0 <= i < entries.drop_first().len() ==> sc.map().contains_key(
                (#[trigger] entries.drop_first()[i]).0,
            ));
        lemma_doc_fids_bounds(sc, entries.drop_first());
        let restf = spec_doc_fids(sc.map(), entries.drop_first());
        let restv = spec_doc_vals(entries.drop_first());
        if !(entries[0].1.field_type is Unknown) {
            assert forall|j: int|
                0 <= j < spec_doc_fids(sc.map(), entries).len() implies #[trigger] spec_doc_fids(
                sc.map(),
                entries,
            )[j] < FIELD_ID_LIMIT by {
                if j > 0 {
                    assert(spec_doc_fids(sc.map(), entries)[j] == restf[j - 1]);
                }
            }
            assert forall|j: int|
                0 <= j < spec_doc_vals(entries).len() implies wf_field_value(
                #[trigger] spec_doc_vals(entries)[j],
            ) || !(forall|i: int|
                0 <= i < entries.len() ==> wf_field_value((#[trigger] entries[i]).1)) by {
                if j > 0 {
                    assert(spec_doc_vals(entries)[j] == restv[j - 1]);
                }
            }
        }
    }
}



impl CKVIndex {
    /// Compact the partition and close it: renumber the field ids
    /// densely, rewrite each shard through an id-translating copy into a
    /// fresh sibling, and hand back the swapped-in on-disk tree with the
    /// sizes seen before and after. Reads are preserved: what a field
    /// name returned before, it returns after, under its new id.
    /// Compaction aborts with `IllegalArguments` exactly when a shard
    /// holds a live unknown-typed value; the only other failure is a
    /// `SystemError` when a rewritten arena cannot grow within the
    /// machine's address space.
    pub fn compact_and_close(self) -> (r: Result<
        (CompactionStats, CompactionStats, PartitionDisk),
        IndexError,
    >)
        requires
            self.wf(),
        ensures
            r is Err ==> (r->Err_0 is IllegalArguments || r->Err_0 is SystemError),
            r is Err && r->Err_0 is IllegalArguments ==> exists|i: int|
                0 <= i < NUM_SEGMENTS && spec_seg_any_unknown(#[trigger] self.seg(i)),
            ((forall|i: int|
                0 <= i < NUM_SEGMENTS ==> !spec_seg_any_unknown(#[trigger] self.seg(i)))
                && (forall|i: int|
                0 <= i < NUM_SEGMENTS ==> spec_copy_fits(
                    #[trigger] self.seg(i),
                    spec_present_ids(self.schema().entries(), self.schema().counter()),
                ))) ==> r is Ok,
            match r {
                Ok(out) => {
                    let d = out.2;
                    &&& out.0 == crate::stats::spec_aggregate(spec_pre_compaction_sizes(self))
                    &&& out.1 == crate::stats::spec_aggregate(spec_post_compaction_sizes(d))
                    &&& d.wf()
                    &&& d.index_present
                    &&& spec_disk_ok(d)
                    &&& (forall|i: int| 0 <= i < NUM_SEGMENTS ==> (#[trigger] d.segments@[i]) is Some)
                    &&& d.schema matches Some(b) && spec_parse_schema(b@) is Some
                    &&& ({
                        let newmap = crate::maps::seq_to_map(
                            spec_parse_schema(d.schema->Some_0@)->Some_0.1,
                        );
                        &&& (forall|k: Seq<char>|
                            #[trigger] newmap.contains_key(k) <==> self.schema().map().contains_key(
                                k,
                            ))
                        &&& forall|i: int, pk: Seq<u8>, k: Seq<char>|
                            #![trigger spec_read_at(spec_replay(spec_recover_log(d.segments@[i]->Some_0.offset_table@)->Some_0), d.segments@[i]->Some_0.mmap@, pk, newmap[k])]
                            0 <= i < NUM_SEGMENTS && newmap.contains_key(k) ==> spec_read_at(
                                spec_replay(
                                    spec_recover_log(
                                        d.segments@[i]->Some_0.offset_table@,
                                    )->Some_0,
                                ),
                                d.segments@[i]->Some_0.mmap@,
                                pk,
                                newmap[k],
                            ) == spec_read_at(
                                self.seg(i).table(),
                                self.seg(i).arena(),
                                pk,
                                self.schema().map()[k],
                            )
                    })
                },
                Err(e) => true,
            },
    {
        let CKVIndex { mut segments, mut schema, header_store, kafka_offsets } = self;
        proof {
            assert(schema.wf());
            assert forall|q: int|
                0 <= q < NUM_SEGMENTS implies (#[trigger] self.seg(q)).wf() && segments@[q]
                == self.seg(q) by {}
        }
        let ghost schema0 = schema;
        proof {
            assert(schema0 == self.schema());
        }
        let new_fid_to_old_fid = match schema.compact() {
            Err(e) => {
                return Err(e);
            },
            Ok(ids) => ids,
        };
        proof {
            assert(new_fid_to_old_fid@ == spec_present_ids(
                self.schema().entries(),
                self.schema().counter(),
            ));
        }
        let ghost segs0 = segments@;
        proof {
            assert forall|q: int| 0 <= q < NUM_SEGMENTS implies (#[trigger] segs0[q]).wf()
                && segs0[q] == self.seg(q) by {
                assert(segs0[q] == self.seg(q));
            }
        }
        let mut pre_stats_vec: Vec<CompactionStats> = Vec::new();
        let mut post_stats_vec: Vec<CompactionStats> = Vec::new();
        let mut slots: Vec<Option<SegmentFiles>> = Vec::new();
        let mut i: usize = 0;
        while i < NUM_SEGMENTS
            invariant
                i <= NUM_SEGMENTS,
                segments@.len() == NUM_SEGMENTS - i,
                segs0.len() == NUM_SEGMENTS,
                segments@ == segs0.skip(i as int),
                forall|q: int| 0 <= q < NUM_SEGMENTS ==> (#[trigger] segs0[q]).wf(),
                forall|q: int| 0 <= q < NUM_SEGMENTS ==> #[trigger] segs0[q] == self.seg(q),
                new_fid_to_old_fid@.len() <= FIELD_ID_LIMIT,
                new_fid_to_old_fid@ == spec_present_ids(
                    self.schema().entries(),
                    self.schema().counter(),
                ),
                pre_stats_vec@.len() == i,
                post_stats_vec@.len() == i,
                slots@.len() == i,
                forall|q: int|
                    0 <= q < i ==> #[trigger] pre_stats_vec@[q] == (CompactionStats {
                        offset_table_size_bytes: (segs0[q].disk_log().len()
                            + segs0[q].pending().len()) as u64,
                        mmap_file_size_bytes: segs0[q].write_off() as u64,
                    }),
                forall|q: int|
                    0 <= q < i ==> #[trigger] post_stats_vec@[q] == (CompactionStats {
                        offset_table_size_bytes: slots@[q]->Some_0.offset_table@.len() as u64,
                        mmap_file_size_bytes: vstd::bytes::spec_u64_from_le_bytes(
                            slots@[q]->Some_0.metadata@,
                        ),
                    }),
                forall|q: int|
                    0 <= q < i ==> match #[trigger] slots@[q] {
                        Option::None => false,
                        Option::Some(f) => spec_open_ok(f) && (forall|pk: Seq<u8>, fd: u32|
                            #![trigger spec_read_at(spec_replay(spec_recover_log(f.offset_table@)->Some_0), f.mmap@, pk, fd)]
                            spec_read_at(
                                spec_replay(spec_recover_log(f.offset_table@)->Some_0),
                                f.mmap@,
                                pk,
                                fd,
                            ) == (if fd < new_fid_to_old_fid@.len() {
                                spec_read_at(
                                    segs0[q].table(),
                                    segs0[q].arena(),
                                    pk,
                                    new_fid_to_old_fid@[fd as int],
                                )
                            } else {
                                None
                            })),
                    },
            decreases NUM_SEGMENTS - i,
        {
            let mut seg = segments.remove(0);
            proof {
                assert(segments@ =~= segs0.skip(i + 1int));
                assert(segs0.skip(i as int)[0] == segs0[i as int]);
            }
            let _ = seg.flush_writes();
            pre_stats_vec.push(seg.compaction_stats());
            let mut dest = match CKVIndexSegment::open_or_create(None) {
                Err(e) => {
                    // opening a fresh shard cannot fail
                    proof {
                        assert(false);
                    }
                    return Err(e);
                },
                Ok(d) => d,
            };
            let ghost flushed = seg;
            match seg.copy_to_compact(&mut dest, &new_fid_to_old_fid) {
                Err(e) => {
                    proof {
                        if e is IllegalArguments {
                            lemma_has_unknown_any(segs0[i as int], new_fid_to_old_fid@);
                            assert(spec_seg_any_unknown(self.seg(i as int)));
                        }
                        if (forall|q: int|
                            0 <= q < NUM_SEGMENTS ==> !spec_seg_any_unknown(
                                #[trigger] self.seg(q),
                            )) && (forall|q: int|
                            0 <= q < NUM_SEGMENTS ==> spec_copy_fits(
                                #[trigger] self.seg(q),
                                spec_present_ids(self.schema().entries(), self.schema().counter()),
                            )) {
                            assert(new_fid_to_old_fid@ == spec_present_ids(
                                self.schema().entries(),
                                self.schema().counter(),
                            ));
                            assert(flushed.table() == segs0[i as int].table());
                            assert(flushed.arena() == segs0[i as int].arena());
                            assert(flushed.table_entries() == segs0[i as int].table_entries());
                            if spec_has_unknown(
                                flushed.table(),
                                flushed.arena(),
                                new_fid_to_old_fid@,
                            ) {
                                lemma_has_unknown_any(segs0[i as int], new_fid_to_old_fid@);
                                assert(spec_seg_any_unknown(self.seg(i as int)));
                            } else {
                                assert(spec_copy_fits(self.seg(i as int), new_fid_to_old_fid@));
                                assert(spec_copy_fits(flushed, new_fid_to_old_fid@));
                            }
                            assert(false);
                        }
                    }
                    return Err(e);
                },
                Ok(u) => {},
            }
            post_stats_vec.push(dest.compaction_stats());
            proof {
                assert(dest.pending() =~= Seq::<u8>::empty()) by {
                    assert(dest.log_records().skip(dest.spec_flushed_count()) =~= Seq::<
                        crate::oplog::LogRecord,
                    >::empty());
                    assert(crate::oplog::spec_encode_log(Seq::<crate::oplog::LogRecord>::empty())
                        =~= Seq::<u8>::empty());
                }
            }
            let files = dest.close();
            slots.push(Some(files));
            i = i + 1;
        }
        let pre_stats = CompactionStats::aggregate(&pre_stats_vec);
        let post_stats = CompactionStats::aggregate(&post_stats_vec);
        proof {
            assert(pre_stats_vec@ =~= spec_pre_compaction_sizes(self)) by {
                assert forall|q: int|
                    0 <= q < NUM_SEGMENTS implies #[trigger] pre_stats_vec@[q]
                    == spec_pre_compaction_sizes(self)[q] by {
                    assert(segs0[q] == self.seg(q));
                }
            }
            crate::codec::lemma_le_roundtrips();
            assert forall|q: int|
                0 <= q < schema.entries().len() implies (#[trigger] schema.entries()[q]).1
                < schema.counter() && (schema.entries()[q]).1 < FIELD_ID_LIMIT by {
                crate::maps::lemma_key_index_self(schema.entries(), q);
                crate::maps::lemma_seq_to_map(schema.entries());
                assert(schema.map().contains_key(schema.entries()[q].0));
            }
            assert forall|q1: int, q2: int|
                0 <= q1 < q2 < schema.entries().len() implies (#[trigger] schema.entries()[q1]).1
                != (#[trigger] schema.entries()[q2]).1 by {
                crate::maps::lemma_key_index_self(schema.entries(), q1);
                crate::maps::lemma_key_index_self(schema.entries(), q2);
                crate::maps::lemma_seq_to_map(schema.entries());
                assert(schema.map().contains_key(schema.entries()[q1].0));
                assert(schema.map().contains_key(schema.entries()[q2].0));
                assert(schema.entries()[q1].0 != schema.entries()[q2].0);
            }
            crate::schema_store::lemma_parse_schema_roundtrip(
                schema.pk_name(),
                schema.entries(),
                schema.counter_u64(),
            );
            assert(schema.file_bytes().len() >= 4) by {
                assert(schema.file_bytes() == crate::schema_store::spec_encode_schema(
                    schema.pk_name(),
                    schema.entries(),
                    schema.counter_u64(),
                ));
            }
        }
        let schema_file = schema.close();
        let header_file = header_store.close();
        let disk = PartitionDisk {
            index_present: true,
            segments: slots,
            schema: Some(schema_file),
            header: Some(header_file),
            kafka_offsets: Some(kafka_offsets),
        };
        proof {
            assert(post_stats_vec@ =~= spec_post_compaction_sizes(disk));
            let newmap = crate::maps::seq_to_map(
                spec_parse_schema(disk.schema->Some_0@)->Some_0.1,
            );
            crate::maps::lemma_seq_to_map(schema.entries());
            assert(newmap == schema.map());
            assert forall|k: Seq<char>|
                #[trigger] newmap.contains_key(k) implies self.schema().map().contains_key(
                k,
            ) by {}
            assert forall|i2: int, pk: Seq<u8>, k: Seq<char>|
                #![trigger spec_read_at(spec_replay(spec_recover_log(disk.segments@[i2]->Some_0.offset_table@)->Some_0), disk.segments@[i2]->Some_0.mmap@, pk, newmap[k])]
                0 <= i2 < NUM_SEGMENTS && newmap.contains_key(k) implies spec_read_at(
                spec_replay(spec_recover_log(disk.segments@[i2]->Some_0.offset_table@)->Some_0),
                disk.segments@[i2]->Some_0.mmap@,
                pk,
                newmap[k],
            ) == spec_read_at(
                self.seg(i2).table(),
                self.seg(i2).arena(),
                pk,
                self.schema().map()[k],
            ) by {
                let f = disk.segments@[i2]->Some_0;
                assert(newmap[k] < new_fid_to_old_fid@.len());
                assert(new_fid_to_old_fid@[newmap[k] as int] == self.schema().map()[k]);
            }
        }
        Ok((pre_stats, post_stats, disk))
    }
}




/// The two shards agree on everything a flush preserves: the table, the
/// arena, the write offset, and the logged records.
pub open spec fn spec_seg_core_eq(a: CKVIndexSegment, b: CKVIndexSegment) -> bool {
    &&& a.table() == b.table()
    &&& a.arena() == b.arena()
    &&& a.write_off() == b.write_off()
    &&& a.log_records() == b.log_records()
}

/// The registry and every shard's flush-invariant state are as they
/// were.
pub open spec fn spec_index_core_unchanged(pre: CKVIndex, post: CKVIndex) -> bool {
    &&& post.schema() == pre.schema()
    &&& forall|j: int|
        0 <= j < NUM_SEGMENTS ==> spec_seg_core_eq(#[trigger] post.seg(j), pre.seg(j))
}

/// Why a write that needs the document's primary key fails: the field
/// is absent, carries the unknown type, or its value exceeds 64 KiB.
pub open spec fn spec_pk_fail(pre: CKVIndex, doc: Document) -> bool {
    pre.spec_doc_pk(doc) is None || pre.spec_doc_pk(doc)->Some_0.len() > u16::MAX
}

/// Why an upsert of a non-empty document fails: the registry's id space
/// would pass its limit, the primary key is invalid, or the owning
/// shard cannot hold the values (one is over-long for the arena format,
/// or the arena cannot grow within the address space).
pub open spec fn spec_upsert_fail(pre: CKVIndex, doc: Document) -> bool {
    let st2 = spec_assign((pre.schema().map(), pre.schema().counter()), spec_doc_names(doc));
    let fids = spec_doc_fids(st2.0, doc.seq_view());
    let vals = spec_doc_vals(doc.seq_view());
    ||| st2.1 > FIELD_ID_LIMIT
    ||| spec_pk_fail(pre, doc)
    ||| ({
        let pk = pre.spec_doc_pk(doc)->Some_0;
        let idx = spec_segment_of(pk, NUM_SEGMENTS as int);
        &&& fids.len() > 0
        &&& pk.len() > 0
        &&& ((exists|i: int| 0 <= i < vals.len() && !spec_encodable(#[trigger] vals[i]))
            || spec_grown_len(
            pre.seg(idx).arena().len() as int,
            pre.seg(idx).write_off() + spec_sizes_prefix(vals, vals.len() as int),
        ) > usize::MAX)
    })
}

/// What a successful upsert of a non-empty document does: the registry
/// registers the new names, the owning shard logs one update record and
/// installs the new offsets, each written arena record decodes back to
/// its value, every known-typed field of the document reads back as its
/// value, other documents of the shard read as before, and every other
/// shard is untouched.
pub open spec fn spec_upsert_effect(pre: CKVIndex, post: CKVIndex, doc: Document) -> bool {
    let st2 = spec_assign((pre.schema().map(), pre.schema().counter()), spec_doc_names(doc));
    let pk = pre.spec_doc_pk(doc)->Some_0;
    let idx = spec_segment_of(pk, NUM_SEGMENTS as int);
    let fids = spec_doc_fids(st2.0, doc.seq_view());
    let vals = spec_doc_vals(doc.seq_view());
    let offs = spec_upsert_offsets(pre.seg(idx).write_off(), vals);
    &&& pre.spec_doc_pk(doc) is Some
    &&& post.schema().map() == st2.0
    &&& post.schema().counter() == st2.1
    &&& post.schema().pk_name() == pre.schema().pk_name()
    &&& (forall|j: int|
        0 <= j < NUM_SEGMENTS && j != idx ==> spec_seg_core_eq(#[trigger] post.seg(j), pre.seg(j)))
    &&& (fids.len() == 0 || pk.len() == 0 ==> spec_seg_core_eq(post.seg(idx), pre.seg(idx)))
    &&& (fids.len() > 0 && pk.len() > 0 ==> ({
        let rec = LogRecord::Update { pk, pairs: zip_pairs(fids, offs) };
        &&& post.seg(idx).log_records() == pre.seg(idx).log_records().push(rec)
        &&& post.seg(idx).table() == spec_apply_record(pre.seg(idx).table(), rec)
        &&& post.seg(idx).write_off() == pre.seg(idx).write_off() + spec_sizes_prefix(
            vals,
            vals.len() as int,
        )
        &&& post.seg(idx).arena().len() == spec_grown_len(
            pre.seg(idx).arena().len() as int,
            post.seg(idx).write_off(),
        )
        &&& post.seg(idx).arena().take(pre.seg(idx).write_off()) == pre.seg(idx).arena().take(
            pre.seg(idx).write_off(),
        )
        &&& (forall|i: int|
            0 <= i < vals.len() ==> spec_value_at(post.seg(idx).arena(), offs[i] as int) == Some(
                (
                    crate::field::spec_stored_of(#[trigger] vals[i]),
                    crate::field::spec_encode_value(vals[i]).len() as int,
                ),
            ))
        &&& (forall|t: int|
            0 <= t < doc.seq_view().len() && !((#[trigger] doc.seq_view()[t]).1.field_type
                is Unknown) ==> post.spec_get(pk, doc.seq_view()[t].0) == Some(
                doc.seq_view()[t].1.value@,
            ))
        &&& (forall|qk: Seq<u8>, g: u32|
            qk != pk ==> #[trigger] spec_read_at(post.seg(idx).table(), post.seg(idx).arena(), qk, g)
                == spec_read_at(pre.seg(idx).table(), pre.seg(idx).arena(), qk, g))
    }))
}

/// What a successful field delete does: the owning shard logs one
/// delete record, its arena is untouched, the named fields of the
/// document read absent, its other fields and every other document read
/// as before, and the registry and the other shards are untouched.
pub open spec fn spec_delete_fields_effect(
    pre: CKVIndex,
    post: CKVIndex,
    doc: Document,
    names: Seq<String>,
) -> bool {
    let pk = pre.spec_doc_pk(doc)->Some_0;
    let idx = spec_segment_of(pk, NUM_SEGMENTS as int);
    let fids = spec_resolve_present(pre.schema().map(), names);
    &&& pre.spec_doc_pk(doc) is Some
    &&& post.schema() == pre.schema()
    &&& (forall|j: int|
        0 <= j < NUM_SEGMENTS && j != idx ==> spec_seg_core_eq(#[trigger] post.seg(j), pre.seg(j)))
    &&& post.seg(idx).arena() == pre.seg(idx).arena()
    &&& post.seg(idx).write_off() == pre.seg(idx).write_off()
    &&& (fids.len() == 0 || pk.len() == 0 ==> spec_seg_core_eq(post.seg(idx), pre.seg(idx)))
    &&& (fids.len() > 0 && pk.len() > 0 ==> ({
        let rec = LogRecord::DeleteFields { pk, fids };
        &&& post.seg(idx).log_records() == pre.seg(idx).log_records().push(rec)
        &&& post.seg(idx).table() == spec_apply_record(pre.seg(idx).table(), rec)
        &&& (forall|g: Seq<char>|
            (#[trigger] pre.schema().map().contains_key(g)) && (exists|q: int|
                0 <= q < names.len() && (#[trigger] names[q])@ == g) ==> post.spec_get(pk, g)
                is None)
        &&& (forall|g: Seq<char>|
            (#[trigger] pre.schema().map().contains_key(g)) && !(exists|q: int|
                0 <= q < names.len() && (#[trigger] names[q])@ == g) ==> post.spec_get(pk, g)
                == pre.spec_get(pk, g))
        &&& (forall|qk: Seq<u8>, g: u32|
            qk != pk ==> #[trigger] spec_read_at(post.seg(idx).table(), post.seg(idx).arena(), qk, g)
                == spec_read_at(pre.seg(idx).table(), pre.seg(idx).arena(), qk, g))
    }))
}

/// What a successful document delete does: the owning shard logs one
/// delete record and drops the document's row; every read of the
/// document is then absent, every other document reads as before, and
/// the registry and the other shards are untouched.
pub open spec fn spec_delete_doc_effect(pre: CKVIndex, post: CKVIndex, doc: Document) -> bool {
    let pk = pre.spec_doc_pk(doc)->Some_0;
    let idx = spec_segment_of(pk, NUM_SEGMENTS as int);
    &&& pre.spec_doc_pk(doc) is Some
    &&& post.schema() == pre.schema()
    &&& (forall|j: int|
        0 <= j < NUM_SEGMENTS && j != idx ==> spec_seg_core_eq(#[trigger] post.seg(j), pre.seg(j)))
    &&& post.seg(idx).arena() == pre.seg(idx).arena()
    &&& post.seg(idx).write_off() == pre.seg(idx).write_off()
    &&& (pk.len() == 0 ==> spec_seg_core_eq(post.seg(idx), pre.seg(idx)))
    &&& (pk.len() > 0 ==> ({
        let rec = LogRecord::DeleteDoc { pk };
        &&& post.seg(idx).log_records() == pre.seg(idx).log_records().push(rec)
        &&& post.seg(idx).table() == spec_apply_record(pre.seg(idx).table(), rec)
        &&& (forall|g: Seq<char>|
            #[trigger] pre.schema().map().contains_key(g) ==> post.spec_get(pk, g) is None)
        &&& (forall|qk: Seq<u8>, g: u32|
            qk != pk ==> #[trigger] spec_read_at(post.seg(idx).table(), post.seg(idx).arena(), qk, g)
                == spec_read_at(pre.seg(idx).table(), pre.seg(idx).arena(), qk, g))
    }))
}

/// The position among the gathered values where document entry `t`
/// lands: the number of known-typed entries before it.
pub open spec fn spec_doc_pos(entries: Seq<(Seq<char>, FieldValue)>, t: int) -> int
    decreases entries.len(),
{
    if t <= 0 || entries.len() == 0 {
        0int
    } else {
        (if entries[0].1.field_type is Unknown {
            0int
        } else {
            1int
        }) + spec_doc_pos(entries.drop_first(), t - 1)
    }
}

/// The document entry that gathered value `k` came from: the index of
/// the `k`-th known-typed entry.
pub open spec fn spec_doc_src(entries: Seq<(Seq<char>, FieldValue)>, k: int) -> int
    decreases entries.len(),
{
    if entries.len() == 0 {
        0int
    } else if entries[0].1.field_type is Unknown {
        1int + spec_doc_src(entries.drop_first(), k)
    } else if k <= 0 {
        0int
    } else {
        1int + spec_doc_src(entries.drop_first(), k - 1)
    }
}

/// Which document entry the `k`-th gathered id and value came from.
pub proof fn lemma_doc_src_facts(m: Map<Seq<char>, u32>, entries: Seq<(Seq<char>, FieldValue)>, k: int)
    requires
        0 <= k < spec_doc_fids(m, entries).len(),
    ensures
        ({
            let t = spec_doc_src(entries, k);
            &&& 0 <= t < entries.len()
            &&& !(entries[t].1.field_type is Unknown)
            &&& spec_doc_fids(m, entries)[k] == m[entries[t].0]
            &&& spec_doc_vals(entries)[k] == entries[t].1
        }),
    decreases entries.len(),
{
    lemma_doc_counts(m, entries);
    let rest = entries.drop_first();
    if entries[0].1.field_type is Unknown {
        lemma_doc_src_facts(m, rest, k);
        assert(entries[1 + spec_doc_src(rest, k)] == rest[spec_doc_src(rest, k)]);
    } else if k > 0 {
        lemma_doc_src_facts(m, rest, k - 1);
        assert(entries[1 + spec_doc_src(rest, k - 1)] == rest[spec_doc_src(rest, k - 1)]);
        assert(spec_doc_fids(m, entries)[k] == spec_doc_fids(m, rest)[k - 1]);
        assert(spec_doc_vals(entries)[k] == spec_doc_vals(rest)[k - 1]);
    }
}

/// Where document entry `t` lands among the gathered ids and values.
pub proof fn lemma_doc_pos_facts(m: Map<Seq<char>, u32>, entries: Seq<(Seq<char>, FieldValue)>, t: int)
    requires
        0 <= t < entries.len(),
        !(entries[t].1.field_type is Unknown),
    ensures
        ({
            let k = spec_doc_pos(entries, t);
            &&& 0 <= k < spec_doc_fids(m, entries).len()
            &&& spec_doc_fids(m, entries)[k] == m[entries[t].0]
            &&& spec_doc_vals(entries)[k] == entries[t].1
        }),
    decreases entries.len(),
{
    lemma_doc_counts(m, entries);
    let rest = entries.drop_first();
    if t > 0 {
        assert(rest[t - 1] == entries[t]);
        lemma_doc_pos_facts(m, rest, t - 1);
        let kr = spec_doc_pos(rest, t - 1);
        if entries[0].1.field_type is Unknown {
            assert(spec_doc_fids(m, entries)[kr] == spec_doc_fids(m, rest)[kr]);
            assert(spec_doc_vals(entries)[kr] == spec_doc_vals(rest)[kr]);
        } else {
            assert(spec_doc_fids(m, entries)[1 + kr] == spec_doc_fids(m, rest)[kr]);
            assert(spec_doc_vals(entries)[1 + kr] == spec_doc_vals(rest)[kr]);
        }
    }
}

/// Gathered values keep the document's order.
pub proof fn lemma_doc_src_mono(
    m: Map<Seq<char>, u32>,
    entries: Seq<(Seq<char>, FieldValue)>,
    k1: int,
    k2: int,
)
    requires
        0 <= k1 < k2 < spec_doc_fids(m, entries).len(),
    ensures
        spec_doc_src(entries, k1) < spec_doc_src(entries, k2),
    decreases entries.len(),
{
    lemma_doc_counts(m, entries);
    let rest = entries.drop_first();
    if entries[0].1.field_type is Unknown {
        lemma_doc_src_mono(m, rest, k1, k2);
    } else if k1 > 0 {
        lemma_doc_src_mono(m, rest, k1 - 1, k2 - 1);
    } else {
        lemma_doc_src_nonneg(entries, k2);
        assert(spec_doc_src(entries, k2) == 1 + spec_doc_src(rest, k2 - 1));
        lemma_doc_src_nonneg(rest, k2 - 1);
    }
}

proof fn lemma_doc_src_nonneg(entries: Seq<(Seq<char>, FieldValue)>, k: int)
    ensures
        spec_doc_src(entries, k) >= 0,
    decreases entries.len(),
{
    if entries.len() > 0 {
        lemma_doc_src_nonneg(entries.drop_first(), k);
        lemma_doc_src_nonneg(entries.drop_first(), k - 1);
    }
}

/// As many gathered ids as values, at most one per field.
pub proof fn lemma_doc_counts(m: Map<Seq<char>, u32>, entries: Seq<(Seq<char>, FieldValue)>)
    ensures
        spec_doc_fids(m, entries).len() == spec_doc_vals(entries).len(),
        spec_doc_fids(m, entries).len() <= entries.len(),
    decreases entries.len(),
{
    if entries.len() > 0 {
        lemma_doc_counts(m, entries.drop_first());
    }
}

/// Distinct field names gather distinct ids.
pub proof fn lemma_doc_fids_distinct(
    m: Map<Seq<char>, u32>,
    entries: Seq<(Seq<char>, FieldValue)>,
    k1: int,
    k2: int,
)
    requires
        forall|i: int| 0 <= i < entries.len() ==> m.contains_key((#[trigger] entries[i]).0),
        crate::maps::distinct_keys(entries),
        forall|n1: Seq<char>, n2: Seq<char>|
            m.contains_key(n1) && m.contains_key(n2) && n1 != n2 ==> #[trigger] m[n1]
                != #[trigger] m[n2],
        0 <= k1 < k2 < spec_doc_fids(m, entries).len(),
    ensures
        spec_doc_fids(m, entries)[k1] != spec_doc_fids(m, entries)[k2],
{
    lemma_doc_src_facts(m, entries, k1);
    lemma_doc_src_facts(m, entries, k2);
    lemma_doc_src_mono(m, entries, k1, k2);
    let t1 = spec_doc_src(entries, k1);
    let t2 = spec_doc_src(entries, k2);
    assert(entries[t1].0 != entries[t2].0);
}

/// Which ids the resolution of a name list carries: exactly the ids of
/// its registered names.
pub proof fn lemma_resolve_present_char(m: Map<Seq<char>, u32>, names: Seq<String>)
    ensures
        forall|x: int|
            #![trigger crate::oplog::fid_in(spec_resolve_present(m, names), x)]
            crate::oplog::fid_in(spec_resolve_present(m, names), x) <==> exists|q: int|
                0 <= q < names.len() && m.contains_key((#[trigger] names[q])@) && m[names[q]@] as int
                    == x,
    decreases names.len(),
{
    let cur = spec_resolve_present(m, names);
    if names.len() == 0 {
        assert forall|x: int| !(#[trigger] crate::oplog::fid_in(cur, x)) by {
            if crate::oplog::fid_in(cur, x) {
                let j = choose|j: int| 0 <= j < cur.len() && (#[trigger] cur[j]) as int == x;
            }
        }
    } else {
        let rest = names.drop_first();
        lemma_resolve_present_char(m, rest);
        let restr = spec_resolve_present(m, rest);
        let head = m.contains_key(names[0]@);
        assert forall|x: int|
            #![trigger crate::oplog::fid_in(cur, x)]
            crate::oplog::fid_in(cur, x) <==> exists|q: int|
                0 <= q < names.len() && m.contains_key((#[trigger] names[q])@) && m[names[q]@] as int
                    == x by {
            if crate::oplog::fid_in(cur, x) {
                let j = choose|j: int| 0 <= j < cur.len() && (#[trigger] cur[j]) as int == x;
                if head && j == 0 {
                    assert(m.contains_key((names[0int])@) && m[names[0int]@] as int == x);
                } else {
                    let jr = if head {
                        j - 1
                    } else {
                        j
                    };
                    assert(restr[jr] as int == x);
                    assert(crate::oplog::fid_in(restr, x));
                    let q0 = choose|q: int|
                        0 <= q < rest.len() && m.contains_key((#[trigger] rest[q])@) && m[
                        rest[q]@] as int == x;
                    assert(names[q0 + 1] == rest[q0]);
                    assert(m.contains_key((names[q0 + 1])@) && m[names[q0 + 1]@] as int == x);
                }
            }
            if exists|q: int|
                0 <= q < names.len() && m.contains_key((#[trigger] names[q])@) && m[names[q]@] as int
                    == x {
                let q = choose|q: int|
                    0 <= q < names.len() && m.contains_key((#[trigger] names[q])@) && m[
                    names[q]@] as int == x;
                if q == 0 {
                    assert(cur[0] as int == x);
                    assert(crate::oplog::fid_in(cur, x));
                } else {
                    assert(rest[q - 1] == names[q]);
                    assert(crate::oplog::fid_in(restr, x));
                    let j0 = choose|j: int|
                        0 <= j < restr.len() && (#[trigger] restr[j]) as int == x;
                    let js = if head {
                        j0 + 1
                    } else {
                        j0
                    };
                    assert(cur[js] as int == x);
                    assert(crate::oplog::fid_in(cur, x));
                }
            }
        }
    }
}



/// The read-level consequences of one shard upsert, lifted to the
/// facade's effect statement.
#[verifier::rlimit(100)]
proof fn upsert_read_proof(
    pre: CKVIndex,
    post: CKVIndex,
    doc: Document,
    pkv: Seq<u8>,
    idx: int,
    fids: Seq<u32>,
    values: Seq<FieldValue>,
)
    requires
        pre.wf(),
        post.wf(),
        wf_document(doc),
        doc.seq_view().len() > 0,
        ({
            let st2 = spec_assign(
                (pre.schema().map(), pre.schema().counter()),
                spec_doc_names(doc),
            );
            &&& post.schema().map() == st2.0
            &&& post.schema().counter() == st2.1
            &&& post.schema().pk_name() == pre.schema().pk_name()
        }),
        pre.spec_doc_pk(doc) == Some(pkv),
        idx == spec_segment_of(pkv, NUM_SEGMENTS as int),
        0 <= idx < NUM_SEGMENTS,
        fids == spec_doc_fids(post.schema().map(), doc.seq_view()),
        fids.len() > 0,
        crate::field::fv_views_match(values, spec_doc_vals(doc.seq_view())),
        forall|k: Seq<char>|
            spec_doc_names(doc).contains(k) ==> #[trigger] post.schema().map().contains_key(k),
        forall|j: int|
            0 <= j < NUM_SEGMENTS && j != idx ==> #[trigger] post.seg(j) == pre.seg(j),
        pkv.len() == 0 ==> post.seg(idx) == pre.seg(idx),
        pkv.len() > 0 ==> ({
            let offs = spec_upsert_offsets(pre.seg(idx).write_off(), values);
            let rec = LogRecord::Update { pk: pkv, pairs: zip_pairs(fids, offs) };
            &&& post.seg(idx).log_records() == pre.seg(idx).log_records().push(rec)
            &&& post.seg(idx).table() == spec_apply_record(pre.seg(idx).table(), rec)
            &&& post.seg(idx).write_off() == pre.seg(idx).write_off() + spec_sizes_prefix(
                values,
                values.len() as int,
            )
            &&& post.seg(idx).arena().len() == spec_grown_len(
                pre.seg(idx).arena().len() as int,
                post.seg(idx).write_off(),
            )
            &&& post.seg(idx).arena().take(pre.seg(idx).write_off()) == pre.seg(
                idx,
            ).arena().take(pre.seg(idx).write_off())
            &&& (forall|i: int|
                0 <= i < values.len() ==> spec_value_at(post.seg(idx).arena(), offs[i] as int)
                    == Some(
                    (
                        crate::field::spec_stored_of(#[trigger] values[i]),
                        crate::field::spec_encode_value(values[i]).len() as int,
                    ),
                ))
        }),
    ensures
        spec_upsert_effect(pre, post, doc),
{
    let entries = doc.seq_view();
    let dv = spec_doc_vals(entries);
    let m2 = post.schema().map();
    let w0 = pre.seg(idx).write_off();
    lemma_doc_counts(m2, entries);
    crate::segment::lemma_fv_views_offsets(values, dv, w0);
    crate::field::lemma_fv_views_encode(values, dv);
    assert forall|q: int| 0 <= q < entries.len() implies m2.contains_key(
        (#[trigger] entries[q]).0,
    ) by {
        assert(spec_doc_names(doc)[q] == entries[q].0);
        assert(spec_doc_names(doc).contains(entries[q].0));
    }
    if pkv.len() > 0 {
        let offs = spec_upsert_offsets(w0, dv);
        let pairs = zip_pairs(fids, offs);
        let stored = Seq::new(dv.len(), |i: int| crate::field::spec_stored_of(dv[i]));
        let t1 = pre.seg(idx).table();
        let arena1 = pre.seg(idx).arena();
        let t2 = post.seg(idx).table();
        let arena2 = post.seg(idx).arena();
        assert(zip_pairs(fids, spec_upsert_offsets(w0, values)) =~= pairs);
        assert forall|i: int|
            0 <= i < dv.len() implies spec_value_at(arena2, offs[i] as int) == Some(
            (crate::field::spec_stored_of(#[trigger] dv[i]), crate::field::spec_encode_value(
                dv[i],
            ).len() as int),
        ) by {
            assert(spec_value_at(arena2, offs[i] as int) == Some(
                (crate::field::spec_stored_of(values[i]), crate::field::spec_encode_value(
                    values[i],
                ).len() as int),
            ));
        }
        assert forall|i: int| 0 <= i < pairs.len() implies (#[trigger] pairs[i]).1
            != crate::oplog::ABSENT by {
            assert(pairs[i].1 == offs[i]);
            assert(offs[i] == (w0 + spec_sizes_prefix(dv, i)) as u64);
            crate::segment::lemma_sizes_prefix_mono(dv, i + 1, dv.len() as int);
            crate::segment::lemma_sizes_prefix_mono(dv, 0, i);
            crate::field::lemma_encode_value_min(dv[i]);
            assert(w0 + spec_sizes_prefix(dv, i) + 2 <= w0 + spec_sizes_prefix(
                dv,
                dv.len() as int,
            ));
            assert(w0 + spec_sizes_prefix(dv, dv.len() as int) == post.seg(idx).write_off());
            assert(post.seg(idx).write_off() <= u64::MAX);
        }
        assert forall|i: int|
            0 <= i < pairs.len() implies (spec_value_at(arena2, (#[trigger] pairs[i]).1 as int)
            matches Some(p) && p.0 == stored[i]) by {
            assert(stored[i] == crate::field::spec_stored_of(dv[i]));
            assert(pairs[i].1 == offs[i]);
            assert(spec_value_at(arena2, offs[i] as int) == Some(
                (crate::field::spec_stored_of(dv[i]), crate::field::spec_encode_value(
                    dv[i],
                ).len() as int),
            ));
        }
        assert(w0 <= arena2.len()) by {
            crate::segment::lemma_grown_ge(
                pre.seg(idx).arena().len() as int,
                post.seg(idx).write_off(),
            );
            crate::segment::lemma_sizes_prefix_mono(dv, 0, dv.len() as int);
            assert(pre.seg(idx).wf());
        }
        assert(pre.seg(idx).wf());
        assert(post.schema().wf());
        assert forall|t: int|
            0 <= t < entries.len() && !((#[trigger] entries[t]).1.field_type is Unknown) implies post.spec_get(
            pkv,
            entries[t].0,
        ) == Some(entries[t].1.value@) by {
            lemma_doc_pos_facts(m2, entries, t);
            let k = spec_doc_pos(entries, t);
            let f = m2[entries[t].0];
            assert(spec_doc_names(doc)[t] == entries[t].0);
            assert(spec_doc_names(doc).contains(entries[t].0));
            assert(m2.contains_key(entries[t].0));
            assert(fids[k] == f && dv[k] == entries[t].1);
            crate::segment::lemma_read_after_upsert(
                t1,
                arena1,
                w0,
                t2,
                arena2,
                pkv,
                pairs,
                stored,
                f,
                pkv,
            );
            crate::oplog::lemma_last_pair(pairs, f);
            let lp = crate::oplog::last_pair(pairs, f);
            assert(pairs[k].0 == fids[k]);
            assert(lp >= 0);
            assert(pairs[lp].0 == fids[lp]);
            if lp != k {
                if lp < k {
                    lemma_doc_fids_distinct(m2, entries, lp, k);
                } else {
                    lemma_doc_fids_distinct(m2, entries, k, lp);
                }
            }
            assert(stored[k] == crate::field::spec_stored_of(dv[k]));
            assert(!(stored[k].field_type is Unknown));
            assert(spec_read_at(t2, arena2, pkv, f) == Some(entries[t].1.value@));
        }
        assert forall|qk: Seq<u8>, g: u32| qk != pkv implies #[trigger] spec_read_at(
            t2,
            arena2,
            qk,
            g,
        ) == spec_read_at(t1, arena1, qk, g) by {
            crate::segment::lemma_read_after_upsert(
                t1,
                arena1,
                w0,
                t2,
                arena2,
                pkv,
                pairs,
                stored,
                g,
                qk,
            );
        }
    }
}



/// The read-level consequences of one shard field delete, lifted to the
/// facade's effect statement.
proof fn delete_fields_read_proof(
    pre: CKVIndex,
    post: CKVIndex,
    doc: Document,
    names: Seq<String>,
    pkv: Seq<u8>,
    idx: int,
)
    requires
        pre.wf(),
        post.wf(),
        pre.spec_doc_pk(doc) == Some(pkv),
        idx == spec_segment_of(pkv, NUM_SEGMENTS as int),
        0 <= idx < NUM_SEGMENTS,
        post.schema() == pre.schema(),
        forall|j: int|
            0 <= j < NUM_SEGMENTS && j != idx ==> #[trigger] post.seg(j) == pre.seg(j),
        post.seg(idx).arena() == pre.seg(idx).arena(),
        post.seg(idx).write_off() == pre.seg(idx).write_off(),
        ({
            let fids = spec_resolve_present(pre.schema().map(), names);
            &&& (fids.len() == 0 || pkv.len() == 0 ==> post.seg(idx) == pre.seg(idx))
            &&& (fids.len() > 0 && pkv.len() > 0 ==> ({
                let rec = LogRecord::DeleteFields { pk: pkv, fids };
                &&& post.seg(idx).log_records() == pre.seg(idx).log_records().push(rec)
                &&& post.seg(idx).table() == spec_apply_record(pre.seg(idx).table(), rec)
            }))
        }),
    ensures
        spec_delete_fields_effect(pre, post, doc, names),
{
    let m = pre.schema().map();
    let fids = spec_resolve_present(m, names);
    let t1 = pre.seg(idx).table();
    let t2 = post.seg(idx).table();
    let arena = pre.seg(idx).arena();
    lemma_resolve_present_char(m, names);
    if fids.len() > 0 && pkv.len() > 0 {
        assert forall|g: Seq<char>|
            (#[trigger] m.contains_key(g)) && (exists|q: int|
                0 <= q < names.len() && (#[trigger] names[q])@ == g) implies post.spec_get(
            pkv,
            g,
        ) is None by {
            let f = m[g];
            let q = choose|q: int| 0 <= q < names.len() && (#[trigger] names[q])@ == g;
            assert(m.contains_key(names[q]@) && m[names[q]@] as int == f as int);
            assert(crate::oplog::fid_in(fids, f as int));
            crate::segment::lemma_read_after_delete_fields(t1, arena, t2, pkv, fids, f, pkv);
        }
        assert forall|g: Seq<char>|
            (#[trigger] m.contains_key(g)) && !(exists|q: int|
                0 <= q < names.len() && (#[trigger] names[q])@ == g) implies post.spec_get(
            pkv,
            g,
        ) == pre.spec_get(pkv, g) by {
            let f = m[g];
            assert(!crate::oplog::fid_in(fids, f as int)) by {
                if crate::oplog::fid_in(fids, f as int) {
                    let q = choose|q: int|
                        0 <= q < names.len() && m.contains_key((#[trigger] names[q])@) && m[
                        names[q]@] as int == f as int;
                    assert(names[q]@ == g);
                }
            }
            crate::segment::lemma_read_after_delete_fields(t1, arena, t2, pkv, fids, f, pkv);
        }
        assert forall|qk: Seq<u8>, g: u32| qk != pkv implies #[trigger] spec_read_at(
            t2,
            post.seg(idx).arena(),
            qk,
            g,
        ) == spec_read_at(t1, arena, qk, g) by {
            crate::segment::lemma_read_after_delete_fields(t1, arena, t2, pkv, fids, g, qk);
        }
    }
}



/// The sizes reported before compaction: per shard, the full operation
/// log (flushed and buffered) and the arena bytes in use.
pub open spec fn spec_pre_compaction_sizes(ix: CKVIndex) -> Seq<CompactionStats> {
    Seq::new(
        NUM_SEGMENTS as nat,
        |i: int|
            CompactionStats {
                offset_table_size_bytes: (ix.seg(i).disk_log().len() + ix.seg(
                    i,
                ).pending().len()) as u64,
                mmap_file_size_bytes: ix.seg(i).write_off() as u64,
            },
    )
}

/// The sizes reported after compaction: per rewritten shard on the
/// returned disk, its log file's length and its persisted write offset.
pub open spec fn spec_post_compaction_sizes(d: PartitionDisk) -> Seq<CompactionStats> {
    Seq::new(
        NUM_SEGMENTS as nat,
        |i: int|
            CompactionStats {
                offset_table_size_bytes: d.segments@[i]->Some_0.offset_table@.len() as u64,
                mmap_file_size_bytes: vstd::bytes::spec_u64_from_le_bytes(
                    d.segments@[i]->Some_0.metadata@,
                ),
            },
    )
}


} // verus!
