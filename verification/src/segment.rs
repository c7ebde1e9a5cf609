//! One shard of the store: an append-only value arena, the in-memory
//! offset table, and the operation log that is the table's source of
//! truth.
//!
//! The three on-disk files of a shard are held as byte images. The arena
//! image plays the part of the shard's memory map: value writes land in
//! it directly. Log records are buffered and reach the log image on
//! `flush_writes`, after the arena and the metadata, so that a flushed
//! image always reopens to the same table.

use vstd::prelude::*;
use vstd::bytes::{spec_u64_to_le_bytes, spec_u64_from_le_bytes, spec_u32_to_le_bytes, u64_to_le_bytes};
use crate::codec::{read_u64_le, push_bytes, copy_bytes, push_u32_le, lemma_le_roundtrips};
use crate::error::IndexError;
use crate::field::{
    FieldType, FieldValue, spec_value_at, read_value_at, spec_stored_of, spec_encode_value,
    spec_encodable, wf_field_value, encoded_value_len, encode_value, FIELD_ID_LIMIT,
    lemma_value_at_min_size, lemma_value_at_agree, lemma_value_at_roundtrip, StoredValue,
};
use crate::maps::{OffsetTable, lemma_seq_to_map, lemma_key_index, lemma_key_index_self};
use crate::oplog::{
    LogRecord, LogOp, wf_record, wf_op, spec_encode_log, spec_frame_record, spec_recover_log,
    spec_recover_consumed, spec_replay, spec_replay_from, spec_apply_record, spec_row_set,
    spec_row_upsert, spec_row_delete, zip_pairs, rows_bounded, replay_log, apply_op, append_frame,
    lemma_replay_push, lemma_encode_log_push, lemma_recover_exact, lemma_recover_encode_log,
    lemma_encode_log_concat, ABSENT, MAX_RECORD_FIELDS,
};

verus! {

/// The arena's backing file grows in chunks of this many zero bytes.
pub const CHUNK_SIZE: usize = 0x800000;

/// The on-disk image of one shard: its operation log, its arena backing
/// file, and its small metadata file.
#[derive(Debug)]
pub struct SegmentFiles {
    pub offset_table: Vec<u8>,
    pub mmap: Vec<u8>,
    pub metadata: Vec<u8>,
}

impl SegmentFiles {
    /// Copy the image, byte for byte.
    pub fn duplicate(&self) -> (r: SegmentFiles)
        ensures
            r.offset_table@ == self.offset_table@,
            r.mmap@ == self.mmap@,
            r.metadata@ == self.metadata@,
    {
        SegmentFiles {
            offset_table: copy_bytes(&self.offset_table),
            mmap: copy_bytes(&self.mmap),
            metadata: copy_bytes(&self.metadata),
        }
    }
}

/// Every live offset of the table points at a record that decodes within
/// the first `w` bytes of the arena.
pub open spec fn map_table_valid(t: Map<Seq<u8>, Seq<u64>>, arena: Seq<u8>, w: int) -> bool {
    forall|pk: Seq<u8>, j: int|
        t.contains_key(pk) && 0 <= j < t[pk].len() && t[pk][j] != ABSENT ==> ((
        #[trigger] spec_value_at(arena, t[pk][j] as int)) matches Some(p) && t[pk][j] + p.1 <= w)
}

/// What a read of `(pk, fid)` returns against a table and an arena: the
/// payload bytes of the record the table points at, absent when the
/// document, the field, or the offset is absent or the stored type is
/// unknown.
pub open spec fn spec_read_at(
    t: Map<Seq<u8>, Seq<u64>>,
    arena: Seq<u8>,
    pk: Seq<u8>,
    fid: u32,
) -> Option<Seq<u8>> {
    if t.contains_key(pk) && fid < t[pk].len() && t[pk][fid as int] != ABSENT {
        match spec_value_at(arena, t[pk][fid as int] as int) {
            Some(p) => if p.0.field_type is Unknown {
                None
            } else {
                Some(p.0.bytes)
            },
            None => None,
        }
    } else {
        None
    }
}

/// One batch-read entry: a 32-bit little-endian length then the bytes;
/// the length reads `-1` for an absent value.
pub open spec fn spec_entry_bytes(o: Option<Seq<u8>>) -> Seq<u8> {
    match o {
        None => spec_u32_to_le_bytes(0xFFFFFFFFu32),
        Some(b) => spec_u32_to_le_bytes(b.len() as u32) + b,
    }
}

/// The batch-read block for one document: one entry per requested field,
/// in order.
pub open spec fn spec_entries_bytes(
    t: Map<Seq<u8>, Seq<u64>>,
    arena: Seq<u8>,
    pk: Seq<u8>,
    fids: Seq<Option<u32>>,
) -> Seq<u8>
    decreases fids.len(),
{
    if fids.len() == 0 {
        Seq::empty()
    } else {
        spec_entry_bytes(
            match fids[0] {
                None => None,
                Some(f) => spec_read_at(t, arena, pk, f),
            },
        ) + spec_entries_bytes(t, arena, pk, fids.drop_first())
    }
}

/// One more requested field appends one more entry.
pub proof fn lemma_entries_bytes_push(
    t: Map<Seq<u8>, Seq<u64>>,
    arena: Seq<u8>,
    pk: Seq<u8>,
    fids: Seq<Option<u32>>,
    f: Option<u32>,
)
    ensures
        spec_entries_bytes(t, arena, pk, fids.push(f)) == spec_entries_bytes(t, arena, pk, fids)
            + spec_entry_bytes(
            match f {
                None => None,
                Some(ff) => spec_read_at(t, arena, pk, ff),
            },
        ),
    decreases fids.len(),
{
    lemma_le_roundtrips();
    if fids.len() == 0 {
        assert(fids.push(f)[0] == f);
        assert(fids.push(f).drop_first() =~= Seq::<Option<u32>>::empty());
        assert(spec_entries_bytes(t, arena, pk, fids.push(f).drop_first()) =~= Seq::<u8>::empty());
        assert(spec_entries_bytes(t, arena, pk, fids) =~= Seq::<u8>::empty());
        assert(spec_entries_bytes(t, arena, pk, fids.push(f)) =~= spec_entries_bytes(
            t,
            arena,
            pk,
            fids,
        ) + spec_entry_bytes(
            match f {
                None => None,
                Some(ff) => spec_read_at(t, arena, pk, ff),
            },
        ));
    } else {
        assert(fids.push(f)[0] == fids[0]);
        assert(fids.push(f).drop_first() =~= fids.drop_first().push(f));
        lemma_entries_bytes_push(t, arena, pk, fids.drop_first(), f);
        assert(spec_entries_bytes(t, arena, pk, fids.push(f)) =~= spec_entries_bytes(
            t,
            arena,
            pk,
            fids,
        ) + spec_entry_bytes(
            match f {
                None => None,
                Some(ff) => spec_read_at(t, arena, pk, ff),
            },
        ));
    }
}

/// A stored payload is never longer than 32 bits can say.
pub proof fn lemma_stored_len(arena: Seq<u8>, off: int)
    requires
        spec_value_at(arena, off) is Some,
    ensures
        spec_value_at(arena, off)->Some_0.0.bytes.len() <= u32::MAX,
{
    let code = vstd::bytes::spec_u16_from_le_bytes(arena.subrange(off, off + 2));
    match crate::field::spec_type_from_code(code) {
        None => {},
        Some(ft) => {
            if !(ft is Unknown) && crate::field::spec_fixed_width(ft) is None {
                crate::codec::lemma_varint_decode_k_bound(arena.skip(off + 2), 5);
            }
        },
    }
}

/// Can the on-disk image of a shard be opened? The log must recover, the
/// metadata must hold a write offset within the arena file, and every
/// offset the recovered table holds must point at a record that decodes
/// below that write offset.
pub open spec fn spec_open_ok(f: SegmentFiles) -> bool {
    &&& spec_recover_log(f.offset_table@) is Some
    &&& f.metadata@.len() == 8
    &&& spec_u64_from_le_bytes(f.metadata@) <= f.mmap@.len()
    &&& map_table_valid(
        spec_replay(spec_recover_log(f.offset_table@)->Some_0),
        f.mmap@,
        spec_u64_from_le_bytes(f.metadata@) as int,
    )
}

/// One shard of the index.
pub struct CKVIndexSegment {
    files: SegmentFiles,
    pending_log: Vec<u8>,
    offset_table: OffsetTable,
    write_offset: usize,
    records: Ghost<Seq<LogRecord>>,
    flushed_count: Ghost<int>,
}

impl CKVIndexSegment {
    /// The shard's on-disk image as it stands: what a crash would leave.
    pub closed spec fn disk(self) -> SegmentFiles {
        self.files
    }

    /// The on-disk operation log (flushed records only).
    pub open spec fn disk_log(self) -> Seq<u8> {
        self.disk().offset_table@
    }

    /// Buffered log records not yet flushed.
    pub closed spec fn pending(self) -> Seq<u8> {
        self.pending_log@
    }

    /// The on-disk metadata bytes.
    pub open spec fn metadata_bytes(self) -> Seq<u8> {
        self.disk().metadata@
    }

    /// The arena: the memory-mapped value file.
    pub open spec fn arena(self) -> Seq<u8> {
        self.disk().mmap@
    }

    /// The in-memory offset table.
    pub closed spec fn table(self) -> Map<Seq<u8>, Seq<u64>> {
        self.offset_table@
    }

    /// The table's entries, in their stored order: the order the
    /// compaction copy walks.
    pub closed spec fn table_entries(self) -> Seq<(Seq<u8>, Seq<u64>)> {
        self.offset_table.seq_view()
    }

    /// The next free byte of the arena.
    pub closed spec fn write_off(self) -> int {
        self.write_offset as int
    }

    /// Every record ever appended to this shard's log, oldest first.
    pub closed spec fn log_records(self) -> Seq<LogRecord> {
        self.records@
    }

    /// How many of the records have reached the on-disk log.
    pub closed spec fn spec_flushed_count(self) -> int {
        self.flushed_count@
    }

    /// What a read of `(pk, fid)` returns from this shard.
    pub open spec fn spec_read(self, pk: Seq<u8>, fid: u32) -> Option<Seq<u8>> {
        spec_read_at(self.table(), self.arena(), pk, fid)
    }

    /// The shard's invariant: the table is the replay of the records, the
    /// disk log and the pending buffer carry exactly those records, and
    /// every table offset decodes below the write offset.
    pub open spec fn wf(self) -> bool {
        &&& self.offset_table_wf()
        &&& self.table() == crate::maps::seq_to_map(self.table_entries())
        &&& rows_bounded(self.table())
        &&& crate::oplog::keys_bounded(self.table())
        &&& 0 <= self.spec_flushed_count() <= self.log_records().len()
        &&& forall|i: int|
            0 <= i < self.log_records().len() ==> wf_record(#[trigger] self.log_records()[i])
        &&& self.disk_log() == spec_encode_log(
            self.log_records().take(self.spec_flushed_count()),
        )
        &&& self.pending() == spec_encode_log(self.log_records().skip(self.spec_flushed_count()))
        &&& self.table() == spec_replay(self.log_records())
        &&& self.metadata_bytes().len() == 8
        &&& 0 <= self.write_off() <= self.arena().len()
        &&& self.write_off() <= usize::MAX
        &&& map_table_valid(self.table(), self.arena(), self.write_off())
    }

    /// The underlying table representation is well formed.
    pub closed spec fn offset_table_wf(self) -> bool {
        self.offset_table.wf()
    }

    /// Nothing is buffered and the metadata carries the current write
    /// offset: the on-disk image is current.
    pub open spec fn flushed(self) -> bool {
        &&& self.spec_flushed_count() == self.log_records().len()
        &&& self.metadata_bytes() == spec_u64_to_le_bytes(self.write_off() as u64)
    }

    /// A shard with nothing in it yet.
    pub open spec fn fresh(self) -> bool {
        &&& self.table() == Map::<Seq<u8>, Seq<u64>>::empty()
        &&& self.log_records() == Seq::<LogRecord>::empty()
        &&& self.arena() == Seq::<u8>::empty()
        &&& self.write_off() == 0
    }

    /// Open a shard from its on-disk image, or create an empty one where
    /// no directory existed yet. Replays the operation log under the
    /// recovery policy (a trailing incomplete length prefix is dropped
    /// from the file; anything else that does not parse is corruption)
    /// and validates every recovered offset.
    pub fn open_or_create(files: Option<SegmentFiles>) -> (r: Result<CKVIndexSegment, IndexError>)
        ensures
            match r {
                Ok(seg) => {
                    &&& seg.wf()
                    &&& seg.flushed()
                    &&& match files {
                        None => seg.fresh(),
                        Some(f) => {
                            &&& spec_open_ok(f)
                            &&& seg.log_records() == spec_recover_log(f.offset_table@)->Some_0
                            &&& seg.table() == spec_replay(seg.log_records())
                            &&& seg.arena() == f.mmap@
                            &&& seg.write_off() == spec_u64_from_le_bytes(f.metadata@) as int
                        },
                    }
                },
                Err(e) => {
                    &&& files matches Some(f) && !spec_open_ok(f)
                    &&& e is SystemError
                },
            },
    {
        proof {
            lemma_le_roundtrips();
        }
        match files {
            None => {
                let metadata = u64_to_le_bytes(0u64);
                let seg = CKVIndexSegment {
                    files: SegmentFiles { offset_table: Vec::new(), mmap: Vec::new(), metadata },
                    pending_log: Vec::new(),
                    offset_table: OffsetTable::new(),
                    write_offset: 0,
                    records: Ghost(Seq::empty()),
                    flushed_count: Ghost(0int),
                };
                proof {
                    assert(seg.log_records().take(0int) =~= Seq::<LogRecord>::empty());
                    assert(seg.log_records().skip(0int) =~= Seq::<LogRecord>::empty());
                    assert(spec_encode_log(Seq::<LogRecord>::empty()) =~= Seq::<u8>::empty());
                }
                Ok(seg)
            },
            Some(mut f) => {
                let replayed = replay_log(&f.offset_table);
                match replayed {
                    None => Err(
                        IndexError::SystemError(
                            String::from_str("shard operation log does not parse"),
                        ),
                    ),
                    Some((table, consumed)) => {
                        let ghost rs = spec_recover_log(f.offset_table@)->Some_0;
                        proof {
                            lemma_recover_exact(f.offset_table@);
                        }
                        if f.metadata.len() != 8 {
                            return Err(
                                IndexError::SystemError(
                                    String::from_str("shard metadata does not parse"),
                                ),
                            );
                        }
                        let w64 = read_u64_le(f.metadata.as_slice(), 0);
                        proof {
                            assert(f.metadata@.subrange(0int, 8int) =~= f.metadata@);
                        }
                        if w64 > f.mmap.len() as u64 {
                            return Err(
                                IndexError::SystemError(
                                    String::from_str("shard write offset exceeds the arena"),
                                ),
                            );
                        }
                        let w = w64 as usize;
                        if !check_table(&table, &f.mmap, w) {
                            return Err(
                                IndexError::SystemError(
                                    String::from_str("shard offset table points outside its arena"),
                                ),
                            );
                        }
                        let ghost old_log = f.offset_table@;
                        f.offset_table.truncate(consumed);
                        let seg = CKVIndexSegment {
                            files: f,
                            pending_log: Vec::new(),
                            offset_table: table,
                            write_offset: w,
                            records: Ghost(rs),
                            flushed_count: Ghost(rs.len() as int),
                        };
                        proof {
                            assert(seg.log_records().take(rs.len() as int) =~= rs);
                            assert(seg.log_records().skip(rs.len() as int) =~= Seq::<
                                LogRecord,
                            >::empty());
                            assert(spec_encode_log(Seq::<LogRecord>::empty())
                                =~= Seq::<u8>::empty());
                            assert(seg.disk_log() == spec_encode_log(rs));
                            assert(seg.metadata_bytes() =~= spec_u64_to_le_bytes(w64));
                        }
                        Ok(seg)
                    },
                }
            },
        }
    }

    /// Read a field's payload bytes for a primary key; a copy of the
    /// stored value with the type tag stripped, absent when the document,
    /// the field id, or the offset is absent or the stored type is
    /// unknown.
    pub fn read_field(&self, primary_key: &[u8], field_id: u32) -> (r: Option<Vec<u8>>)
        requires
            self.wf(),
        ensures
            match r {
                Some(v) => self.spec_read(primary_key@, field_id) == Some(v@),
                None => self.spec_read(primary_key@, field_id) is None,
            },
    {
        let row = match self.offset_table.get(primary_key) {
            None => {
                return None;
            },
            Some(row) => row,
        };
        if (field_id as usize) >= row.len() {
            return None;
        }
        let off = row[field_id as usize];
        if off == ABSENT {
            return None;
        }
        proof {
            assert(spec_value_at(self.arena(), self.table()[primary_key@][field_id as int] as int)
                is Some);
            lemma_value_at_min_size(self.arena(), off as int);
        }
        match read_value_at(&self.files.mmap, off as usize) {
            None => None,
            Some((ft, bytes, _)) => {
                if let FieldType::Unknown = ft {
                    None
                } else {
                    Some(bytes)
                }
            },
        }
    }

    /// Append one batch-read entry per requested field id onto `dest`:
    /// a 32-bit little-endian length (reading `-1` for an absent value)
    /// and then the payload bytes.
    pub fn read_fields(&self, primary_key: &[u8], field_ids: &Vec<Option<u32>>, dest: &mut Vec<u8>)
        requires
            self.wf(),
        ensures
            final(dest)@ == old(dest)@ + spec_entries_bytes(
                self.table(),
                self.arena(),
                primary_key@,
                field_ids@,
            ),
    {
        let n = field_ids.len();
        let mut i: usize = 0;
        proof {
            assert(field_ids@.take(0int) =~= Seq::<Option<u32>>::empty());
            assert(spec_entries_bytes(self.table(), self.arena(), primary_key@, field_ids@.take(0int))
                =~= Seq::<u8>::empty());
            assert(dest@ =~= old(dest)@ + spec_entries_bytes(
                self.table(),
                self.arena(),
                primary_key@,
                field_ids@.take(0int),
            ));
        }
        while i < n
            invariant
                i <= n,
                n == field_ids@.len(),
                self.wf(),
                dest@ == old(dest)@ + spec_entries_bytes(
                    self.table(),
                    self.arena(),
                    primary_key@,
                    field_ids@.take(i as int),
                ),
            decreases n - i,
        {
            let entry_read: Option<Vec<u8>> = match field_ids[i] {
                None => None,
                Some(f) => self.read_field(primary_key, f),
            };
            match entry_read {
                None => {
                    push_u32_le(dest, 0xFFFFFFFFu32);
                },
                Some(v) => {
                    proof {
                        match field_ids@[i as int] {
                            None => {},
                            Some(f) => {
                                if self.table().contains_key(primary_key@) && f < self.table()[
                                    primary_key@].len() && self.table()[primary_key@][f as int]
                                    != ABSENT {
                                    lemma_stored_len(
                                        self.arena(),
                                        self.table()[primary_key@][f as int] as int,
                                    );
                                }
                            },
                        }
                    }
                    push_u32_le(dest, v.len() as u32);
                    push_bytes(dest, v.as_slice());
                },
            }
            proof {
                assert(field_ids@.take(i + 1int) =~= field_ids@.take(i as int).push(
                    field_ids@[i as int],
                ));
                lemma_entries_bytes_push(
                    self.table(),
                    self.arena(),
                    primary_key@,
                    field_ids@.take(i as int),
                    field_ids@[i as int],
                );
                assert(dest@ =~= old(dest)@ + spec_entries_bytes(
                    self.table(),
                    self.arena(),
                    primary_key@,
                    field_ids@.take(i + 1int),
                ));
            }
            i = i + 1;
        }
        proof {
            assert(field_ids@.take(n as int) =~= field_ids@);
        }
    }
}

/// Check that every live offset of `t` decodes within the first `w`
/// bytes of `arena`.
fn check_table(t: &OffsetTable, arena: &Vec<u8>, w: usize) -> (b: bool)
    requires
        t.wf(),
    ensures
        b == map_table_valid(t@, arena@, w as int),
{
    let alen = arena.len();
    let n = t.len();
    let mut i: usize = 0;
    while i < n
        invariant
            i <= n,
            n == t.seq_view().len(),
            alen == arena@.len(),
            t.wf(),
            forall|a: int, j: int|
                0 <= a < i && 0 <= j < t.seq_view()[a].1.len() && t.seq_view()[a].1[j] != ABSENT
                    ==> ((#[trigger] spec_value_at(arena@, t.seq_view()[a].1[j] as int)) matches Some(
                p) && t.seq_view()[a].1[j] + p.1 <= w),
        decreases n - i,
    {
        let row = t.row_at(i);
        let m = row.len();
        let mut j: usize = 0;
        while j < m
            invariant
                j <= m,
                i < n,
                n == t.seq_view().len(),
                alen == arena@.len(),
                t.wf(),
                m == t.seq_view()[i as int].1.len(),
                row@ == t.seq_view()[i as int].1,
                forall|jj: int|
                    0 <= jj < j && row@[jj] != ABSENT ==> ((#[trigger] spec_value_at(
                        arena@,
                        row@[jj] as int,
                    )) matches Some(p) && row@[jj] + p.1 <= w),
            decreases m - j,
        {
            let off = row[j];
            if off != ABSENT {
                if off > usize::MAX as u64 {
                    proof {
                        assert(arena@.len() <= usize::MAX);
                        assert(spec_value_at(arena@, off as int) is None);
                        lemma_table_entry_invalid(t@, t.seq_view(), i as int, j as int, arena@, w as int);
                    }
                    return false;
                }
                match read_value_at(arena, off as usize) {
                    None => {
                        proof {
                            lemma_table_entry_invalid(t@, t.seq_view(), i as int, j as int, arena@, w as int);
                        }
                        return false;
                    },
                    Some((_, _, sz)) => {
                        if off > (w as u64) || (sz as u64) > (w as u64) - off {
                            proof {
                                lemma_table_entry_invalid(t@, t.seq_view(), i as int, j as int, arena@, w as int);
                            }
                            return false;
                        }
                    },
                }
            }
            j = j + 1;
        }
        i = i + 1;
    }
    proof {
        lemma_seq_to_map(t.seq_view());
        assert forall|pk: Seq<u8>, j: int|
            t@.contains_key(pk) && 0 <= j < t@[pk].len() && t@[pk][j] != ABSENT implies ((
        #[trigger] spec_value_at(arena@, t@[pk][j] as int)) matches Some(p) && t@[pk][j] + p.1
            <= w as int) by {
            let a = crate::maps::key_index(t.seq_view(), pk);
            lemma_key_index(t.seq_view(), pk);
        }
    }
    true
}

/// If one table entry fails validation, the table as a map is invalid.
proof fn lemma_table_entry_invalid(
    m: Map<Seq<u8>, Seq<u64>>,
    s: Seq<(Seq<u8>, Seq<u64>)>,
    i: int,
    j: int,
    arena: Seq<u8>,
    w: int,
)
    requires
        crate::maps::distinct_keys(s),
        m == crate::maps::seq_to_map(s),
        0 <= i < s.len(),
        0 <= j < s[i].1.len(),
        s[i].1[j] != ABSENT,
        !(spec_value_at(arena, s[i].1[j] as int) matches Some(p) && s[i].1[j] + p.1 <= w),
    ensures
        !map_table_valid(m, arena, w),
{
    lemma_seq_to_map(s);
    lemma_key_index_self(s, i);
    assert(m.contains_key(s[i].0));
    assert(m[s[i].0] == s[i].1);
}


/// Total encoded width of the first `i` values.
pub open spec fn spec_sizes_prefix(vals: Seq<FieldValue>, i: int) -> int
    decreases i,
{
    if i <= 0 {
        0
    } else {
        spec_sizes_prefix(vals, i - 1) + spec_encode_value(vals[i - 1]).len()
    }
}

/// Prefix sums of encoded widths never shrink.
pub proof fn lemma_sizes_prefix_mono(vals: Seq<FieldValue>, i: int, j: int)
    requires
        0 <= i <= j,
    ensures
        spec_sizes_prefix(vals, i) <= spec_sizes_prefix(vals, j),
    decreases j - i,
{
    if i < j {
        lemma_sizes_prefix_mono(vals, i, j - 1);
    }
}

/// The arena offsets an upsert of `vals` starting at `w0` assigns.
pub open spec fn spec_upsert_offsets(w0: int, vals: Seq<FieldValue>) -> Seq<u64> {
    Seq::new(vals.len(), |i: int| (w0 + spec_sizes_prefix(vals, i)) as u64)
}

/// The arena file's length after zero-extension in whole chunks so that
/// `end` fits.
pub open spec fn spec_grown_len(len: int, end: int) -> int {
    if end <= len {
        len
    } else {
        len + ((end - len) / (CHUNK_SIZE as int) + 1) * (CHUNK_SIZE as int)
    }
}

/// The grown arena always reaches `end` and never shrinks.
pub proof fn lemma_grown_ge(len: int, end: int)
    requires
        0 <= len,
        0 <= end,
    ensures
        spec_grown_len(len, end) >= end,
        spec_grown_len(len, end) >= len,
{
    if end > len {
        let c = CHUNK_SIZE as int;
        let need = end - len;
        assert(need / c * c + c >= need) by (nonlinear_arith)
            requires
                need >= 0,
                c == 0x800000,
        ;
    }
}

/// Overwrite `data@.len()` bytes of `arena` at `pos`.
fn splice_bytes(arena: &mut Vec<u8>, pos: usize, data: &[u8])
    requires
        pos + data@.len() <= old(arena)@.len(),
    ensures
        final(arena)@.len() == old(arena)@.len(),
        final(arena)@ == old(arena)@.take(pos as int) + data@ + old(arena)@.skip(
            pos + data@.len(),
        ),
{
    let alen = arena.len();
    let n = data.len();
    let mut i: usize = 0;
    while i < n
        invariant
            i <= n,
            n == data@.len(),
            pos + n <= alen,
            alen == arena@.len(),
            arena@.len() == old(arena)@.len(),
            arena@ == old(arena)@.take(pos as int) + data@.take(i as int) + old(arena)@.skip(
                pos + i,
            ),
        decreases n - i,
    {
        proof {
            assert(arena@ =~= old(arena)@.take(pos as int) + data@.take(i as int) + old(
                arena,
            )@.skip(pos + i));
        }
        arena.set(pos + i, data[i]);
        i = i + 1;
        proof {
            assert(arena@ =~= old(arena)@.take(pos as int) + data@.take(i as int) + old(
                arena,
            )@.skip(pos + i));
        }
    }
    proof {
        assert(data@.take(n as int) =~= data@);
    }
}

impl CKVIndexSegment {
    /// Upsert field values for a document: append each encoded value to
    /// the arena, log one update record pairing the field ids with the
    /// new offsets, and install those offsets in the table. An empty
    /// primary key or an empty field list is a no-op. An over-long value
    /// is rejected before anything changes; so is an arena that can no
    /// longer grow.
    #[verifier::rlimit(100)]
    pub fn upsert_document(
        &mut self,
        primary_key: &Vec<u8>,
        field_ids: &Vec<u32>,
        field_values: &Vec<FieldValue>,
    ) -> (r: Result<(), IndexError>)
        requires
            old(self).wf(),
            primary_key@.len() <= u16::MAX,
            field_ids@.len() == field_values@.len(),
            field_ids@.len() <= MAX_RECORD_FIELDS,
            forall|i: int| 0 <= i < field_ids@.len() ==> #[trigger] field_ids@[i] < FIELD_ID_LIMIT,
            forall|i: int| 0 <= i < field_values@.len() ==> wf_field_value(
                #[trigger] field_values@[i],
            ),
        ensures
            final(self).wf(),
            final(self).disk_log() == old(self).disk_log(),
            final(self).metadata_bytes() == old(self).metadata_bytes(),
            final(self).spec_flushed_count() == old(self).spec_flushed_count(),
            r is Ok ==> (if primary_key@.len() == 0 || field_ids@.len() == 0 {
                *final(self) == *old(self)
            } else {
                let offs = spec_upsert_offsets(old(self).write_off(), field_values@);
                let rec = LogRecord::Update {
                    pk: primary_key@,
                    pairs: zip_pairs(field_ids@, offs),
                };
                &&& forall|i: int|
                    0 <= i < field_values@.len() ==> spec_encodable(#[trigger] field_values@[i])
                &&& final(self).log_records() == old(self).log_records().push(rec)
                &&& final(self).table() == spec_apply_record(old(self).table(), rec)
                &&& final(self).write_off() == old(self).write_off() + spec_sizes_prefix(
                    field_values@,
                    field_values@.len() as int,
                )
                &&& final(self).arena().len() == spec_grown_len(
                    old(self).arena().len() as int,
                    final(self).write_off(),
                )
                &&& spec_grown_len(old(self).arena().len() as int, final(self).write_off())
                    <= usize::MAX
                &&& final(self).arena().take(old(self).write_off()) == old(self).arena().take(
                    old(self).write_off(),
                )
                &&& (forall|q: int|
                    old(self).arena().len() <= q < final(self).arena().len() && final(self).write_off() <= q ==> #[trigger] final(self).arena()[q] == 0u8)
                &&& forall|i: int|
                    0 <= i < field_values@.len() ==> spec_value_at(
                        final(self).arena(),
                        offs[i] as int,
                    ) == Some(
                        (
                            spec_stored_of(#[trigger] field_values@[i]),
                            spec_encode_value(field_values@[i]).len() as int,
                        ),
                    )
            }),
            r is Err ==> {
                &&& *final(self) == *old(self)
                &&& primary_key@.len() > 0 && field_ids@.len() > 0
                &&& ((exists|i: int|
                    0 <= i < field_values@.len() && !spec_encodable(
                        #[trigger] field_values@[i],
                    )) || spec_grown_len(
                    old(self).arena().len() as int,
                    old(self).write_off() + spec_sizes_prefix(
                        field_values@,
                        field_values@.len() as int,
                    ),
                ) > usize::MAX)
            },
    {
        if primary_key.len() == 0 || field_ids.len() == 0 {
            return Ok(());
        }
        let n = field_ids.len();
        let ghost vals = field_values@;

        // First pass: per-value widths, and the total, rejecting
        // over-long values before anything changes.
        let mut sizes: Vec<usize> = Vec::new();
        let mut total: usize = 0;
        let mut i: usize = 0;
        while i < n
            invariant
                *self == *old(self),
                old(self).wf(),
                primary_key@.len() > 0,
                n > 0,
                i <= n,
                n == vals.len(),
                field_ids@.len() == n,
                field_values@ == vals,
                forall|k: int| 0 <= k < vals.len() ==> wf_field_value(#[trigger] vals[k]),
                sizes@.len() == i,
                forall|k: int|
                    0 <= k < i ==> #[trigger] sizes@[k] == spec_encode_value(vals[k]).len(),
                total == spec_sizes_prefix(vals, i as int),
                forall|k: int| 0 <= k < i ==> spec_encodable(#[trigger] vals[k]),
            decreases n - i,
        {
            match encoded_value_len(&field_values[i]) {
                None => {
                    proof {
                        if spec_encodable(vals[i as int]) {
                            lemma_sizes_prefix_mono(vals, 0, i as int);
                            lemma_sizes_prefix_mono(vals, i + 1int, vals.len() as int);
                            lemma_grown_ge(
                                old(self).arena().len() as int,
                                old(self).write_off() + spec_sizes_prefix(
                                    vals,
                                    vals.len() as int,
                                ),
                            );
                        } else {
                            assert(!spec_encodable(field_values@[i as int]));
                        }
                        assert((exists|q: int|
                            0 <= q < field_values@.len() && !spec_encodable(
                                #[trigger] field_values@[q],
                            )) || spec_grown_len(
                            old(self).arena().len() as int,
                            old(self).write_off() + spec_sizes_prefix(
                                field_values@,
                                field_values@.len() as int,
                            ),
                        ) > usize::MAX);
                    }
                    return Err(
                        IndexError::IllegalArguments(
                            String::from_str("size of value cannot exceed what the arena can say"),
                        ),
                    );
                },
                Some(sz) => {
                    match total.checked_add(sz) {
                        None => {
                            proof {
                                lemma_sizes_prefix_mono(vals, 0, i as int);
                                lemma_sizes_prefix_mono(vals, i + 1int, vals.len() as int);
                                lemma_grown_ge(
                                    old(self).arena().len() as int,
                                    old(self).write_off() + spec_sizes_prefix(
                                        vals,
                                        vals.len() as int,
                                    ),
                                );
                                assert(spec_grown_len(
                                    old(self).arena().len() as int,
                                    old(self).write_off() + spec_sizes_prefix(
                                        vals,
                                        vals.len() as int,
                                    ),
                                ) > usize::MAX);
                                assert(spec_grown_len(
                                    old(self).arena().len() as int,
                                    old(self).write_off() + spec_sizes_prefix(
                                        field_values@,
                                        field_values@.len() as int,
                                    ),
                                ) > usize::MAX);
                            }
                            return Err(
                                IndexError::SystemError(
                                    String::from_str("arena cannot hold the document"),
                                ),
                            );
                        },
                        Some(t2) => {
                            sizes.push(sz);
                            total = t2;
                        },
                    }
                },
            }
            i = i + 1;
        }
        let ghost total_size = spec_sizes_prefix(vals, vals.len() as int);
        let end = match self.write_offset.checked_add(total) {
            None => {
                proof {
                    lemma_grown_ge(
                        old(self).arena().len() as int,
                        old(self).write_off() + total_size,
                    );
                    assert(spec_grown_len(
                        old(self).arena().len() as int,
                        old(self).write_off() + total_size,
                    ) > usize::MAX);
                }
                return Err(
                    IndexError::SystemError(String::from_str("arena cannot hold the document")),
                );
            },
            Some(e) => e,
        };

        // Grow the arena file in whole chunks, zero-filled, so the new
        // values fit.
        if self.files.mmap.len() < end {
            let len = self.files.mmap.len();
            let needed = end - len;
            let chunks = needed / CHUNK_SIZE + 1;
            let grow = match chunks.checked_mul(CHUNK_SIZE) {
                None => {
                    return Err(
                        IndexError::SystemError(
                            String::from_str("arena cannot hold the document"),
                        ),
                    );
                },
                Some(g) => g,
            };
            if grow > usize::MAX - len {
                return Err(
                    IndexError::SystemError(String::from_str("arena cannot hold the document")),
                );
            }
            crate::codec::push_zeros(&mut self.files.mmap, grow);
            proof {
                assert(self.files.mmap@.len() == spec_grown_len(
                    old(self).arena().len() as int,
                    end as int,
                ));
                assert(self.files.mmap@.take(old(self).write_off()) =~= old(self).arena().take(
                    old(self).write_off(),
                ));
                assert(forall|q: int|
                    old(self).arena().len() <= q < self.files.mmap@.len()
                        ==> #[trigger] self.files.mmap@[q] == 0u8);
            }
        }

        // Second pass: encode each value into the arena at its offset.
        let ghost offs = spec_upsert_offsets(old(self).write_off(), vals);
        let ghost arena_grown = self.files.mmap@;
        let mut offsets: Vec<u64> = Vec::new();
        let mut pos: usize = self.write_offset;
        let mut i: usize = 0;
        while i < n
            invariant
                i <= n,
                n == vals.len(),
                field_values@ == vals,
                forall|k: int| 0 <= k < vals.len() ==> spec_encodable(#[trigger] vals[k]),
                sizes@.len() == n,
                forall|k: int|
                    0 <= k < n ==> #[trigger] sizes@[k] == spec_encode_value(vals[k]).len(),
                self.offset_table == old(self).offset_table,
                self.pending_log == old(self).pending_log,
                self.files.offset_table == old(self).files.offset_table,
                self.files.metadata == old(self).files.metadata,
                self.write_offset == old(self).write_offset,
                self.records == old(self).records,
                self.flushed_count == old(self).flushed_count,
                offs == spec_upsert_offsets(old(self).write_off(), vals),
                pos == old(self).write_off() + spec_sizes_prefix(vals, i as int),
                end == old(self).write_off() + spec_sizes_prefix(vals, n as int),
                pos <= end <= self.files.mmap@.len(),
                offsets@.len() == i,
                forall|k: int| 0 <= k < i ==> #[trigger] offsets@[k] == offs[k],
                self.files.mmap@.len() == arena_grown.len(),
                self.files.mmap@.take(old(self).write_off()) == old(self).arena().take(
                    old(self).write_off(),
                ),
                forall|q: int|
                    old(self).arena().len() <= q < self.files.mmap@.len() && end <= q
                        ==> #[trigger] self.files.mmap@[q] == 0u8,
                forall|k: int|
                    0 <= k < i ==> spec_value_at(self.files.mmap@, offs[k] as int) == Some(
                        (
                            spec_stored_of(#[trigger] vals[k]),
                            spec_encode_value(vals[k]).len() as int,
                        ),
                    ),
            decreases n - i,
        {
            let ghost arena_before = self.files.mmap@;
            proof {
                assert(sizes@[i as int] == spec_encode_value(vals[i as int]).len());
                lemma_sizes_prefix_mono(vals, i + 1int, n as int);
                lemma_sizes_prefix_mono(vals, 0, i as int);
            }
            let mut enc: Vec<u8> = Vec::new();
            encode_value(&mut enc, &field_values[i]);
            splice_bytes(&mut self.files.mmap, pos, enc.as_slice());
            offsets.push(pos as u64);
            proof {
                lemma_upsert_step(
                    arena_before,
                    self.files.mmap@,
                    pos as int,
                    enc@,
                    vals,
                    offs,
                    i as int,
                    old(self).write_off(),
                );
                assert(offs[i as int] == pos as u64);
                assert(self.files.mmap@.take(old(self).write_off()) == old(self).arena().take(
                    old(self).write_off(),
                ));
            }
            pos = pos + sizes[i];
            i = i + 1;
        }

        // Log the record and install the offsets in the table.
        let mut pk_copy: Vec<u8> = Vec::new();
        push_bytes(&mut pk_copy, primary_key.as_slice());
        let mut fids_copy: Vec<u32> = Vec::new();
        push_bytes_u32(&mut fids_copy, field_ids.as_slice());
        let op = LogOp::Update { pk: pk_copy, fids: fids_copy, offsets };
        proof {
            assert(zip_pairs(field_ids@, offsets@) =~= zip_pairs(field_ids@, offs));
            assert(op@ == LogRecord::Update {
                pk: primary_key@,
                pairs: zip_pairs(field_ids@, offs),
            });
            assert(wf_record(op@)) by {
                assert(zip_pairs(field_ids@, offs).len() == field_ids@.len());
                assert forall|j: int|
                    0 <= j < zip_pairs(field_ids@, offs).len() implies (#[trigger] zip_pairs(
                    field_ids@,
                    offs,
                )[j]).0 < FIELD_ID_LIMIT by {
                    assert(zip_pairs(field_ids@, offs)[j].0 == field_ids@[j]);
                }
            }
        }
        append_frame(&mut self.pending_log, &op);
        apply_op(&mut self.offset_table, &op);
        self.write_offset = end;
        proof {
            let rec = op@;
            let rs0 = self.records@;
            self.records@ = self.records@.push(rec);
            lemma_replay_push(Map::empty(), rs0, rec);
            assert(self.records@.take(self.flushed_count@) =~= rs0.take(self.flushed_count@));
            assert(self.records@.skip(self.flushed_count@) =~= rs0.skip(
                self.flushed_count@,
            ).push(rec));
            lemma_encode_log_push(rs0.skip(self.flushed_count@), rec);
            lemma_sizes_prefix_mono(vals, 0, vals.len() as int);
            upsert_wf_proof(*old(self), *self, primary_key@, field_ids@, vals);
            assert(self.wf());
        }
        Ok(())
    }
}

/// Copy a slice of field ids.
fn push_bytes_u32(out: &mut Vec<u32>, b: &[u32])
    ensures
        final(out)@ == old(out)@ + b@,
{
    let mut i: usize = 0;
    while i < b.len()
        invariant
            i <= b@.len(),
            out@ == old(out)@ + b@.subrange(0, i as int),
        decreases b@.len() - i,
    {
        out.push(b[i]);
        i = i + 1;
        proof {
            assert(out@ =~= old(out)@ + b@.subrange(0, i as int));
        }
    }
    proof {
        assert(out@ =~= old(out)@ + b@);
    }
}

/// The table and arena facts behind `upsert_document`'s invariant.
proof fn upsert_wf_proof(
    pre: CKVIndexSegment,
    post: CKVIndexSegment,
    pk: Seq<u8>,
    fids: Seq<u32>,
    vals: Seq<FieldValue>,
)
    requires
        pre.wf(),
        pk.len() <= u16::MAX,
        fids.len() == vals.len(),
        fids.len() <= MAX_RECORD_FIELDS,
        forall|i: int| 0 <= i < fids.len() ==> #[trigger] fids[i] < FIELD_ID_LIMIT,
        post.offset_table_wf(),
        post.table() == spec_apply_record(
            pre.table(),
            LogRecord::Update { pk, pairs: zip_pairs(fids, spec_upsert_offsets(pre.write_off(), vals)) },
        ),
        rows_bounded(post.table()),
        post.write_off() == pre.write_off() + spec_sizes_prefix(vals, vals.len() as int),
        post.write_off() <= post.arena().len(),
        post.arena().take(pre.write_off()) == pre.arena().take(pre.write_off()),
        forall|i: int|
            0 <= i < vals.len() ==> spec_value_at(
                post.arena(),
                spec_upsert_offsets(pre.write_off(), vals)[i] as int,
            ) == Some(
                (spec_stored_of(#[trigger] vals[i]), spec_encode_value(vals[i]).len() as int),
            ),
    ensures
        map_table_valid(post.table(), post.arena(), post.write_off()),
{
    let offs = spec_upsert_offsets(pre.write_off(), vals);
    let pairs = zip_pairs(fids, offs);
    let old_row: Seq<u64> = if pre.table().contains_key(pk) {
        pre.table()[pk]
    } else {
        Seq::empty()
    };
    let new_row = spec_row_upsert(old_row, pairs);
    crate::oplog::lemma_row_upsert_char(old_row, pairs);
    assert forall|qk: Seq<u8>, j: int|
        post.table().contains_key(qk) && 0 <= j < post.table()[qk].len() && post.table()[qk][j]
            != ABSENT implies ((#[trigger] spec_value_at(post.arena(), post.table()[qk][j] as int))
        matches Some(p) && post.table()[qk][j] + p.1 <= post.write_off()) by {
        if qk == pk {
            let f = j as u32;
            assert(post.table()[qk] == new_row);
            let lp = crate::oplog::last_pair(pairs, f);
            crate::oplog::lemma_last_pair(pairs, f);
            if lp >= 0 {
                assert(new_row[j] == pairs[lp].1);
                assert(pairs[lp] == (fids[lp], offs[lp]));
                assert(offs[lp] == (pre.write_off() + spec_sizes_prefix(vals, lp)) as u64);
                assert(spec_value_at(post.arena(), offs[lp] as int) == Some(
                    (spec_stored_of(vals[lp]), spec_encode_value(vals[lp]).len() as int),
                ));
                lemma_sizes_prefix_mono(vals, lp + 1, vals.len() as int);
                assert(0 <= spec_sizes_prefix(vals, lp)) by {
                    lemma_sizes_prefix_mono(vals, 0, lp);
                }
            } else {
                assert(new_row[j] == (if f < old_row.len() {
                    old_row[j]
                } else {
                    ABSENT
                }));
                assert(f < old_row.len() && old_row[j] != ABSENT);
                assert(pre.table().contains_key(pk));
                assert(spec_value_at(pre.arena(), old_row[j] as int) matches Some(p)
                    && old_row[j] + p.1 <= pre.write_off());
                lemma_sizes_prefix_mono(vals, 0, vals.len() as int);
                lemma_value_at_agree(
                    pre.arena(),
                    post.arena(),
                    old_row[j] as int,
                    pre.write_off(),
                );
                assert(0 <= spec_sizes_prefix(vals, vals.len() as int)) by {
                    lemma_sizes_prefix_mono(vals, 0, vals.len() as int);
                }
            }
        } else {
            assert(pre.table().contains_key(qk));
            assert(post.table()[qk] == pre.table()[qk]);
            assert(spec_value_at(pre.arena(), pre.table()[qk][j] as int) matches Some(p)
                && pre.table()[qk][j] + p.1 <= pre.write_off());
            lemma_sizes_prefix_mono(vals, 0, vals.len() as int);
            lemma_value_at_agree(
                pre.arena(),
                post.arena(),
                pre.table()[qk][j] as int,
                pre.write_off(),
            );
            assert(0 <= spec_sizes_prefix(vals, vals.len() as int)) by {
                lemma_sizes_prefix_mono(vals, 0, vals.len() as int);
            }
        }
    }
}



/// One splice of an encoded value into the arena: the new record decodes
/// at its offset, every earlier record still decodes, and everything
/// below the splice is untouched.
proof fn lemma_upsert_step(
    before: Seq<u8>,
    after: Seq<u8>,
    pos: int,
    enc: Seq<u8>,
    vals: Seq<FieldValue>,
    offs: Seq<u64>,
    i: int,
    w0: int,
)
    requires
        after.len() == before.len(),
        after == before.take(pos) + enc + before.skip(pos + enc.len()),
        0 <= i < vals.len(),
        enc == spec_encode_value(vals[i]),
        spec_encodable(vals[i]),
        0 <= w0 <= pos <= u64::MAX,
        pos + enc.len() <= after.len(),
        offs == spec_upsert_offsets(w0, vals),
        pos == w0 + spec_sizes_prefix(vals, i),
        forall|k: int|
            0 <= k < i ==> spec_value_at(before, offs[k] as int) == Some(
                (spec_stored_of(#[trigger] vals[k]), spec_encode_value(vals[k]).len() as int),
            ),
    ensures
        after.take(pos) == before.take(pos),
        forall|k: int|
            0 <= k <= i ==> spec_value_at(after, offs[k] as int) == Some(
                (spec_stored_of(#[trigger] vals[k]), spec_encode_value(vals[k]).len() as int),
            ),
        after.take(w0) == before.take(w0),
{
    assert(after.take(pos) =~= before.take(pos));
    assert(after.take(w0) =~= before.take(w0));
    assert(after.subrange(pos, pos + enc.len() as int) =~= enc) by {
        assert(forall|q: int|
            0 <= q < enc.len() ==> #[trigger] after[pos + q] == (before.take(pos) + enc
                + before.skip(pos + enc.len()))[pos + q]);
    }
    lemma_value_at_roundtrip(after, pos, vals[i]);
    assert(offs[i] == pos as u64);
    assert forall|k: int| 0 <= k <= i implies spec_value_at(after, offs[k] as int) == Some(
        (spec_stored_of(#[trigger] vals[k]), spec_encode_value(vals[k]).len() as int),
    ) by {
        if k < i {
            assert(spec_value_at(before, offs[k] as int) == Some(
                (spec_stored_of(vals[k]), spec_encode_value(vals[k]).len() as int),
            ));
            assert(offs[k] == (w0 + spec_sizes_prefix(vals, k)) as u64);
            lemma_sizes_prefix_mono(vals, 0, k);
            lemma_sizes_prefix_mono(vals, k + 1, i);
            lemma_value_at_agree(before, after, offs[k] as int, pos);
        } else {
            assert(offs[i] == (w0 + spec_sizes_prefix(vals, i)) as u64);
            assert(offs[i] as int == pos);
        }
    }
}



impl CKVIndexSegment {
    /// Log a field-delete record and set the named fields back to absent
    /// where the row reaches them. An empty primary key or an empty field
    /// list is a no-op.
    pub fn delete_field_values(
        &mut self,
        primary_key: &Vec<u8>,
        field_ids: &Vec<u32>,
    ) -> (r: Result<(), IndexError>)
        requires
            old(self).wf(),
            primary_key@.len() <= u16::MAX,
            field_ids@.len() <= MAX_RECORD_FIELDS,
            forall|i: int| 0 <= i < field_ids@.len() ==> #[trigger] field_ids@[i] < FIELD_ID_LIMIT,
        ensures
            final(self).wf(),
            r is Ok,
            final(self).disk_log() == old(self).disk_log(),
            final(self).metadata_bytes() == old(self).metadata_bytes(),
            final(self).spec_flushed_count() == old(self).spec_flushed_count(),
            final(self).arena() == old(self).arena(),
            final(self).write_off() == old(self).write_off(),
            if primary_key@.len() == 0 || field_ids@.len() == 0 {
                *final(self) == *old(self)
            } else {
                let rec = LogRecord::DeleteFields { pk: primary_key@, fids: field_ids@ };
                &&& final(self).log_records() == old(self).log_records().push(rec)
                &&& final(self).table() == spec_apply_record(old(self).table(), rec)
            },
    {
        if primary_key.len() == 0 || field_ids.len() == 0 {
            return Ok(());
        }
        let mut pk_copy: Vec<u8> = Vec::new();
        push_bytes(&mut pk_copy, primary_key.as_slice());
        let mut fids_copy: Vec<u32> = Vec::new();
        push_bytes_u32(&mut fids_copy, field_ids.as_slice());
        let op = LogOp::DeleteFields { pk: pk_copy, fids: fids_copy };
        append_frame(&mut self.pending_log, &op);
        apply_op(&mut self.offset_table, &op);
        proof {
            let rec = op@;
            let rs0 = self.records@;
            self.records@ = self.records@.push(rec);
            lemma_replay_push(Map::empty(), rs0, rec);
            assert(self.records@.take(self.flushed_count@) =~= rs0.take(self.flushed_count@));
            assert(self.records@.skip(self.flushed_count@) =~= rs0.skip(
                self.flushed_count@,
            ).push(rec));
            lemma_encode_log_push(rs0.skip(self.flushed_count@), rec);
            assert(map_table_valid(self.table(), self.arena(), self.write_off())) by {
                delete_fields_valid_proof(*old(self), *self, primary_key@, field_ids@);
            }
        }
        Ok(())
    }

    /// Log a document-delete record and drop the document from the
    /// table; its arena bytes leak until compaction. An empty primary key
    /// is a no-op.
    pub fn delete_document(&mut self, primary_key: &Vec<u8>) -> (r: Result<(), IndexError>)
        requires
            old(self).wf(),
            primary_key@.len() <= u16::MAX,
        ensures
            final(self).wf(),
            r is Ok,
            final(self).disk_log() == old(self).disk_log(),
            final(self).metadata_bytes() == old(self).metadata_bytes(),
            final(self).spec_flushed_count() == old(self).spec_flushed_count(),
            final(self).arena() == old(self).arena(),
            final(self).write_off() == old(self).write_off(),
            if primary_key@.len() == 0 {
                *final(self) == *old(self)
            } else {
                let rec = LogRecord::DeleteDoc { pk: primary_key@ };
                &&& final(self).log_records() == old(self).log_records().push(rec)
                &&& final(self).table() == spec_apply_record(old(self).table(), rec)
            },
    {
        if primary_key.len() == 0 {
            return Ok(());
        }
        let mut pk_copy: Vec<u8> = Vec::new();
        push_bytes(&mut pk_copy, primary_key.as_slice());
        let op = LogOp::DeleteDoc { pk: pk_copy };
        append_frame(&mut self.pending_log, &op);
        apply_op(&mut self.offset_table, &op);
        proof {
            let rec = op@;
            let rs0 = self.records@;
            self.records@ = self.records@.push(rec);
            lemma_replay_push(Map::empty(), rs0, rec);
            assert(self.records@.take(self.flushed_count@) =~= rs0.take(self.flushed_count@));
            assert(self.records@.skip(self.flushed_count@) =~= rs0.skip(
                self.flushed_count@,
            ).push(rec));
            lemma_encode_log_push(rs0.skip(self.flushed_count@), rec);
        }
        Ok(())
    }

    /// Push everything to the on-disk image, in order: the arena is the
    /// file already, then the metadata takes the current write offset,
    /// then the buffered log records are appended. A flushed image
    /// reopens to the very table held in memory.
    pub fn flush_writes(&mut self) -> (r: Result<(), IndexError>)
        requires
            old(self).wf(),
        ensures
            final(self).wf(),
            r is Ok,
            final(self).flushed(),
            final(self).table() == old(self).table(),
            final(self).table_entries() == old(self).table_entries(),
            final(self).arena() == old(self).arena(),
            final(self).write_off() == old(self).write_off(),
            final(self).log_records() == old(self).log_records(),
            final(self).disk_log() == old(self).disk_log() + old(self).pending(),
            final(self).pending() == Seq::<u8>::empty(),
            spec_open_ok(final(self).disk()),
            spec_recover_log(final(self).disk_log()) == Some(final(self).log_records()),
            spec_replay(spec_recover_log(final(self).disk_log())->Some_0) == final(self).table(),
    {
        proof {
            lemma_le_roundtrips();
        }
        self.files.metadata = u64_to_le_bytes(self.write_offset as u64);
        let mut pending = Vec::new();
        core::mem::swap(&mut pending, &mut self.pending_log);
        push_bytes(&mut self.files.offset_table, pending.as_slice());
        proof {
            let rs = self.records@;
            let fc = self.flushed_count@;
            lemma_encode_log_concat(rs.take(fc), rs.skip(fc));
            assert(rs.take(fc) + rs.skip(fc) =~= rs);
            self.flushed_count@ = rs.len() as int;
            assert(self.disk_log() == spec_encode_log(rs));
            assert(rs.take(rs.len() as int) =~= rs);
            assert(rs.skip(rs.len() as int) =~= Seq::<LogRecord>::empty());
            assert(spec_encode_log(Seq::<LogRecord>::empty()) =~= Seq::<u8>::empty());
            lemma_recover_encode_log(rs);
        }
        Ok(())
    }

    /// Flush and hand back the on-disk image; what it holds reopens to
    /// this shard's table.
    pub fn close(self) -> (r: SegmentFiles)
        requires
            self.wf(),
        ensures
            spec_open_ok(r),
            spec_recover_log(r.offset_table@) == Some(self.log_records()),
            spec_replay(spec_recover_log(r.offset_table@)->Some_0) == self.table(),
            r.offset_table@ == self.disk_log() + self.pending(),
            r.mmap@ == self.arena(),
            spec_u64_from_le_bytes(r.metadata@) == self.write_off(),
    {
        let mut seg = self;
        let _ = seg.flush_writes();
        proof {
            lemma_le_roundtrips();
            assert(seg.metadata_bytes() == spec_u64_to_le_bytes(seg.write_off() as u64));
        }
        seg.files
    }

    /// A copy of the on-disk image as it stands now: the state a crash
    /// at this moment would leave behind.
    pub fn disk_snapshot(&self) -> (r: SegmentFiles)
        ensures
            r.offset_table@ == self.disk().offset_table@,
            r.mmap@ == self.disk().mmap@,
            r.metadata@ == self.disk().metadata@,
    {
        self.files.duplicate()
    }

    /// Drop all indexed data: truncate all three files to empty and reset
    /// the table and the write offset.
    pub fn delete_all_documents(&mut self) -> (r: Result<(), IndexError>)
        requires
            old(self).wf(),
        ensures
            final(self).wf(),
            r is Ok,
            final(self).fresh(),
            final(self).flushed(),
            final(self).disk_log() == Seq::<u8>::empty(),
    {
        proof {
            lemma_le_roundtrips();
        }
        self.files.offset_table = Vec::new();
        self.files.mmap = Vec::new();
        self.files.metadata = u64_to_le_bytes(0u64);
        self.pending_log = Vec::new();
        self.offset_table = OffsetTable::new();
        self.write_offset = 0;
        proof {
            self.records@ = Seq::empty();
            self.flushed_count@ = 0int;
            assert(self.records@.take(0int) =~= Seq::<LogRecord>::empty());
            assert(self.records@.skip(0int) =~= Seq::<LogRecord>::empty());
            assert(spec_encode_log(Seq::<LogRecord>::empty()) =~= Seq::<u8>::empty());
        }
        Ok(())
    }

    /// The shard's sizes: the on-disk log length and the arena bytes in
    /// use.
    pub fn compaction_stats(&self) -> (r: crate::stats::CompactionStats)
        requires
            self.wf(),
        ensures
            r.offset_table_size_bytes == self.disk_log().len(),
            r.mmap_file_size_bytes == self.write_off(),
    {
        crate::stats::CompactionStats {
            offset_table_size_bytes: self.files.offset_table.len() as u64,
            mmap_file_size_bytes: self.write_offset as u64,
        }
    }
}

/// Why a field delete keeps the table valid: the new row holds a subset
/// of the old row's live offsets.
proof fn delete_fields_valid_proof(
    pre: CKVIndexSegment,
    post: CKVIndexSegment,
    pk: Seq<u8>,
    fids: Seq<u32>,
)
    requires
        pre.wf(),
        post.table() == spec_apply_record(pre.table(), LogRecord::DeleteFields { pk, fids }),
        post.arena() == pre.arena(),
        post.write_off() == pre.write_off(),
    ensures
        map_table_valid(post.table(), post.arena(), post.write_off()),
{
    if pre.table().contains_key(pk) {
        crate::oplog::lemma_row_delete_char(pre.table()[pk], fids);
    }
    assert forall|qk: Seq<u8>, j: int|
        post.table().contains_key(qk) && 0 <= j < post.table()[qk].len() && post.table()[qk][j]
            != ABSENT implies ((#[trigger] spec_value_at(post.arena(), post.table()[qk][j] as int))
        matches Some(p) && post.table()[qk][j] + p.1 <= post.write_off()) by {
        if qk == pk && pre.table().contains_key(pk) {
            assert(post.table()[qk][j] == pre.table()[pk][j]);
            assert(spec_value_at(pre.arena(), pre.table()[pk][j] as int) is Some);
        } else {
            assert(post.table()[qk] == pre.table()[qk]);
        }
    }
}



/// Does the source hold, at a position the id map reaches, a live value
/// of the unknown type? Such a value blocks compaction.
pub open spec fn spec_has_unknown(
    t: Map<Seq<u8>, Seq<u64>>,
    arena: Seq<u8>,
    mapv: Seq<u32>,
) -> bool {
    exists|pk: Seq<u8>, nf: int|
        #![trigger t[pk][mapv[nf] as int]]
        0 <= nf < mapv.len() && t.contains_key(pk) && mapv[nf] < t[pk].len()
            && t[pk][mapv[nf] as int] != ABSENT && (spec_value_at(
            arena,
            t[pk][mapv[nf] as int] as int,
        ) matches Some(p) && p.0.field_type is Unknown)
}

/// A read depends only on the arena below the validity bound.
pub proof fn lemma_read_agree(
    t: Map<Seq<u8>, Seq<u64>>,
    a1: Seq<u8>,
    w1: int,
    a2: Seq<u8>,
    pk: Seq<u8>,
    f: u32,
)
    requires
        map_table_valid(t, a1, w1),
        w1 <= a1.len(),
        w1 <= a2.len(),
        a1.take(w1) == a2.take(w1),
    ensures
        spec_read_at(t, a2, pk, f) == spec_read_at(t, a1, pk, f),
{
    if t.contains_key(pk) && f < t[pk].len() && t[pk][f as int] != ABSENT {
        assert(spec_value_at(a1, t[pk][f as int] as int) matches Some(p) && t[pk][f as int] + p.1
            <= w1);
        lemma_value_at_agree(a1, a2, t[pk][f as int] as int, w1);
    }
}

/// What one copied document reads as, after its upsert into the
/// destination: exactly the source's values under the id translation,
/// and every other document as before.
proof fn lemma_copy_doc(
    t0: Map<Seq<u8>, Seq<u64>>,
    arena0: Seq<u8>,
    pre_t: Map<Seq<u8>, Seq<u64>>,
    pre_arena: Seq<u8>,
    pre_w: int,
    post_t: Map<Seq<u8>, Seq<u64>>,
    post_arena: Seq<u8>,
    post_w: int,
    pk: Seq<u8>,
    fids: Seq<u32>,
    vals: Seq<FieldValue>,
    mapv: Seq<u32>,
)
    requires
        map_table_valid(pre_t, pre_arena, pre_w),
        0 <= pre_w <= pre_arena.len(),
        pre_w <= post_w <= post_arena.len(),
        post_arena.len() <= u64::MAX,
        !pre_t.contains_key(pk),
        fids.len() == vals.len(),
        post_t == spec_apply_record(
            pre_t,
            LogRecord::Update { pk, pairs: zip_pairs(fids, spec_upsert_offsets(pre_w, vals)) },
        ),
        post_arena.take(pre_w) == pre_arena.take(pre_w),
        forall|i: int|
            0 <= i < vals.len() ==> spec_value_at(
                post_arena,
                spec_upsert_offsets(pre_w, vals)[i] as int,
            ) == Some(
                (spec_stored_of(#[trigger] vals[i]), spec_encode_value(vals[i]).len() as int),
            ),
        forall|k: int| 0 <= k < fids.len() ==> (#[trigger] fids[k]) < mapv.len(),
        forall|k: int|
            0 <= k < fids.len() ==> spec_read_at(
                t0,
                arena0,
                pk,
                mapv[(#[trigger] fids[k]) as int],
            ) == Some(vals[k].value@) && !(vals[k].field_type is Unknown),
        forall|g: u32|
            g < mapv.len() && !crate::oplog::fid_in(fids, g as int) ==> spec_read_at(
                t0,
                arena0,
                pk,
                mapv[g as int],
            ) is None,
    ensures
        forall|f: u32|
            #![trigger spec_read_at(post_t, post_arena, pk, f)]
            spec_read_at(post_t, post_arena, pk, f) == (if f < mapv.len() {
                spec_read_at(t0, arena0, pk, mapv[f as int])
            } else {
                None
            }),
        forall|qk: Seq<u8>, f: u32|
            qk != pk ==> #[trigger] spec_read_at(post_t, post_arena, qk, f) == spec_read_at(
                pre_t,
                pre_arena,
                qk,
                f,
            ),
        forall|qk: Seq<u8>|
            #[trigger] post_t.contains_key(qk) ==> qk == pk || pre_t.contains_key(qk),
{
    let offs = spec_upsert_offsets(pre_w, vals);
    let pairs = zip_pairs(fids, offs);
    let new_row = spec_row_upsert(Seq::empty(), pairs);
    crate::oplog::lemma_row_upsert_char(Seq::empty(), pairs);
    assert(post_t[pk] == new_row);
    assert forall|f: u32|
        #![trigger spec_read_at(post_t, post_arena, pk, f)]
        spec_read_at(post_t, post_arena, pk, f) == (if f < mapv.len() {
            spec_read_at(t0, arena0, pk, mapv[f as int])
        } else {
            None
        }) by {
        let lp = crate::oplog::last_pair(pairs, f);
        crate::oplog::lemma_last_pair(pairs, f);
        if f < new_row.len() {
            if lp >= 0 {
                assert(pairs[lp] == (fids[lp], offs[lp]));
                assert(new_row[f as int] == offs[lp]);
                assert(fids[lp] == f);
                assert(spec_value_at(post_arena, offs[lp] as int) == Some(
                    (spec_stored_of(vals[lp]), spec_encode_value(vals[lp]).len() as int),
                ));
                lemma_value_at_min_size(post_arena, offs[lp] as int);
                assert(offs[lp] != ABSENT);
                assert(post_t.contains_key(pk) && f < post_t[pk].len() && post_t[pk][f as int]
                    != ABSENT);
                assert(spec_read_at(post_t, post_arena, pk, f) == Some(
                    spec_stored_of(vals[lp]).bytes,
                ));
                assert(spec_read_at(t0, arena0, pk, mapv[f as int]) == Some(vals[lp].value@));
                assert(!(vals[lp].field_type is Unknown));
                assert(spec_stored_of(vals[lp]).bytes == vals[lp].value@);
                assert(f < mapv.len());
            } else {
                assert(new_row[f as int] == ABSENT);
                assert(spec_read_at(post_t, post_arena, pk, f) is None);
                if f < mapv.len() {
                    assert(!crate::oplog::fid_in(fids, f as int)) by {
                        if crate::oplog::fid_in(fids, f as int) {
                            let j = choose|j: int|
                                0 <= j < fids.len() && fids[j] as int == f as int;
                            assert(pairs[j].0 == f);
                        }
                    }
                }
            }
        } else {
            assert(spec_read_at(post_t, post_arena, pk, f) is None);
            if f < mapv.len() {
                assert(!crate::oplog::fid_in(fids, f as int)) by {
                    if crate::oplog::fid_in(fids, f as int) {
                        let j = choose|j: int| 0 <= j < fids.len() && fids[j] as int == f as int;
                        assert(pairs[j].0 == f);
                        assert(pairs[j].0 < new_row.len());
                    }
                }
            }
        }
    }
    assert forall|qk: Seq<u8>, f: u32| qk != pk implies #[trigger] spec_read_at(
        post_t,
        post_arena,
        qk,
        f,
    ) == spec_read_at(pre_t, pre_arena, qk, f) by {
        lemma_read_agree(pre_t, pre_arena, pre_w, post_arena, qk, f);
        assert(post_t.contains_key(qk) == pre_t.contains_key(qk));
        if pre_t.contains_key(qk) {
            assert(post_t[qk] == pre_t[qk]);
        }
    }
}

impl CKVIndexSegment {
    /// Copy every live document into a fresh destination shard,
    /// translating field ids through `new_fid_to_old_fid` (the value at
    /// each new id names the old id it replaces). A live value of the
    /// unknown type aborts the copy with `IllegalArguments`: the
    /// producer is faulty. The only other failure is a `SystemError`
    /// when the destination arena cannot grow within the machine's
    /// address space. Both shards are flushed.
    #[verifier::rlimit(100)]
    pub fn copy_to_compact(
        &mut self,
        destination: &mut CKVIndexSegment,
        new_fid_to_old_fid: &Vec<u32>,
    ) -> (r: Result<(), IndexError>)
        requires
            old(self).wf(),
            old(destination).wf(),
            old(destination).fresh(),
            new_fid_to_old_fid@.len() <= FIELD_ID_LIMIT,
        ensures
            final(self).wf(),
            final(destination).wf(),
            final(self).table() == old(self).table(),
            final(self).arena() == old(self).arena(),
            final(self).write_off() == old(self).write_off(),
            final(self).log_records() == old(self).log_records(),
            final(self).flushed(),
            r is Ok ==> {
                &&& final(destination).flushed()
                &&& !spec_has_unknown(old(self).table(), old(self).arena(), new_fid_to_old_fid@)
                &&& forall|pk: Seq<u8>, f: u32|
                    #![trigger spec_read_at(final(destination).table(), final(destination).arena(), pk, f)]
                    spec_read_at(final(destination).table(), final(destination).arena(), pk, f)
                        == (if f < new_fid_to_old_fid@.len() {
                        spec_read_at(
                            old(self).table(),
                            old(self).arena(),
                            pk,
                            new_fid_to_old_fid@[f as int],
                        )
                    } else {
                        None
                    })
            },
            r is Err ==> (r->Err_0 is IllegalArguments ==> spec_has_unknown(
                old(self).table(),
                old(self).arena(),
                new_fid_to_old_fid@,
            )),
            r is Err ==> (r->Err_0 is IllegalArguments || r->Err_0 is SystemError),
            (!spec_has_unknown(old(self).table(), old(self).arena(), new_fid_to_old_fid@)
                && spec_copy_fits(*old(self), new_fid_to_old_fid@)) ==> r is Ok,
    {
        let _ = self.flush_writes();
        let ghost t0 = self.table();
        let ghost arena0 = self.arena();
        let ghost sflush = *self;
        let nmap = new_fid_to_old_fid.len();
        let n = self.offset_table.len();
        let ghost sv = self.offset_table.seq_view();
        proof {
            lemma_seq_to_map(sv);
            assert(sv == old(self).table_entries());
        }
        let mut i: usize = 0;
        while i < n
            invariant
                *self == sflush,
                self.wf(),
                self.flushed(),
                t0 == self.table(),
                arena0 == self.arena(),
                self.table() == old(self).table(),
                self.arena() == old(self).arena(),
                self.write_off() == old(self).write_off(),
                self.log_records() == old(self).log_records(),
                sv == self.offset_table.seq_view(),
                sv == old(self).table_entries(),
                n == sv.len(),
                nmap == new_fid_to_old_fid@.len(),
                nmap <= FIELD_ID_LIMIT,
                i <= n,
                destination.wf(),
                destination.write_off() == spec_copy_prefix(
                    sv,
                    arena0,
                    new_fid_to_old_fid@,
                    i as int,
                ),
                destination.arena().len() <= destination.write_off() + CHUNK_SIZE,
                forall|a: int, f: u32|
                    0 <= a < i ==> #[trigger] spec_read_at(
                        destination.table(),
                        destination.arena(),
                        sv[a].0,
                        f,
                    ) == (if f < nmap {
                        spec_read_at(t0, arena0, sv[a].0, new_fid_to_old_fid@[f as int])
                    } else {
                        None
                    }),
                forall|pk: Seq<u8>|
                    #[trigger] destination.table().contains_key(pk) ==> 0 <= crate::maps::key_index(
                        sv,
                        pk,
                    ) < i,
                forall|a: int, nf: int|
                    0 <= a < i && 0 <= nf < nmap && new_fid_to_old_fid@[nf] < sv[a].1.len() && (
                    #[trigger] sv[a].1[new_fid_to_old_fid@[nf] as int]) != ABSENT ==> !(
                    spec_value_at(arena0, sv[a].1[new_fid_to_old_fid@[nf] as int] as int)
                        matches Some(p) && p.0.field_type is Unknown),
            decreases n - i,
        {
            let pk = copy_bytes(self.offset_table.key_at(i));
            let row = self.offset_table.row_at(i);
            proof {
                lemma_seq_to_map(sv);
                lemma_key_index_self(sv, i as int);
                assert(t0.contains_key(pk@));
                assert(t0[pk@] == sv[i as int].1);
                assert(row@ == t0[pk@]);
            }
            let mut fids: Vec<u32> = Vec::new();
            let mut vals: Vec<FieldValue> = Vec::new();
            let mut nf: usize = 0;
            while nf < nmap
                invariant
                    *self == sflush,
                    self.wf(),
                    self.flushed(),
                    t0 == self.table(),
                    arena0 == self.arena(),
                    self.table() == old(self).table(),
                    self.arena() == old(self).arena(),
                    self.write_off() == old(self).write_off(),
                    self.log_records() == old(self).log_records(),
                    destination.wf(),
                    sv == self.offset_table.seq_view(),
                    i < n,
                    n == sv.len(),
                    nmap == new_fid_to_old_fid@.len(),
                    nmap <= FIELD_ID_LIMIT,
                    nf <= nmap,
                    pk@ == sv[i as int].0,
                    row@ == sv[i as int].1,
                    t0.contains_key(pk@),
                    t0[pk@] == row@,
                    fids@.len() == vals@.len(),
                    fids@.len() <= nf,
                    spec_sizes_prefix(vals@, vals@.len() as int) == spec_row_copy_size(
                        row@,
                        arena0,
                        new_fid_to_old_fid@,
                        nf as int,
                    ),
                    forall|k: int| 0 <= k < vals@.len() ==> wf_field_value(#[trigger] vals@[k]),
                    forall|k: int| 0 <= k < fids@.len() ==> (#[trigger] fids@[k]) < nf,
                    forall|k: int|
                        0 <= k < fids@.len() ==> spec_read_at(
                            t0,
                            arena0,
                            pk@,
                            new_fid_to_old_fid@[(#[trigger] fids@[k]) as int],
                        ) == Some(vals@[k].value@) && !(vals@[k].field_type is Unknown)
                            && wf_field_value(vals@[k]) && spec_encodable(vals@[k]),
                    forall|g: u32|
                        g < nf && !crate::oplog::fid_in(fids@, g as int) ==> spec_read_at(
                            t0,
                            arena0,
                            pk@,
                            new_fid_to_old_fid@[g as int],
                        ) is None,
                    forall|q: int|
                        0 <= q < nf && new_fid_to_old_fid@[q] < row@.len() && (#[trigger] row@[
                        new_fid_to_old_fid@[q] as int]) != ABSENT ==> !(spec_value_at(
                            arena0,
                            row@[new_fid_to_old_fid@[q] as int] as int,
                        ) matches Some(p) && p.0.field_type is Unknown),
                decreases nmap - nf,
            {
                let old_fid = new_fid_to_old_fid[nf];
                let ghost fids_before = fids@;
                let mut live = false;
                if (old_fid as usize) < row.len() {
                    let off = row[old_fid as usize];
                    if off != ABSENT {
                        live = true;
                        proof {
                            assert(t0[pk@][old_fid as int] != ABSENT);
                            assert(spec_value_at(arena0, t0[pk@][old_fid as int] as int) is Some);
                            lemma_value_at_min_size(arena0, off as int);
                            lemma_stored_len(arena0, off as int);
                        }
                        match read_value_at(&self.files.mmap, off as usize) {
                            None => {
                                // every live offset of a well-formed
                                // shard decodes
                                proof {
                                    assert(false);
                                }
                                return Err(
                                    IndexError::SystemError(
                                        String::from_str("shard arena does not decode"),
                                    ),
                                );
                            },
                            Some((ft, bytes, _)) => {
                                if let FieldType::Unknown = ft {
                                    proof {
                                        assert(spec_has_unknown(
                                            t0,
                                            arena0,
                                            new_fid_to_old_fid@,
                                        )) by {
                                            assert(0 <= nf < new_fid_to_old_fid@.len()
                                                && t0.contains_key(pk@)
                                                && new_fid_to_old_fid@[nf as int] < t0[pk@].len()
                                                && t0[pk@][new_fid_to_old_fid@[nf as int] as int]
                                                != ABSENT && (spec_value_at(
                                                arena0,
                                                t0[pk@][new_fid_to_old_fid@[nf as int] as int] as int,
                                            ) matches Some(p) && p.0.field_type is Unknown));
                                        }
                                    }
                                    return Err(
                                        IndexError::IllegalArguments(
                                            String::from_str(
                                                "unknown field type found during compaction",
                                            ),
                                        ),
                                    );
                                }
                                let fv = FieldValue { field_type: ft, value: bytes };
                                proof {
                                    assert(wf_field_value(fv)) by {
                                        crate::field::lemma_value_width(arena0, off as int);
                                    }
                                    assert(spec_read_at(t0, arena0, pk@, old_fid) == Some(
                                        fv.value@,
                                    ));
                                    lemma_sizes_prefix_push(vals@, fv, vals@.len() as int);
                                    crate::field::lemma_encoded_len_of(fv);
                                    assert(crate::field::spec_stored_of(fv).bytes == spec_value_at(
                                        arena0,
                                        off as int,
                                    )->Some_0.0.bytes);
                                }
                                fids.push(nf as u32);
                                vals.push(fv);
                            },
                        }
                    }
                }
                proof {
                    if !live {
                        assert(spec_read_at(t0, arena0, pk@, old_fid) is None);
                    }
                    assert forall|g: u32|
                        g < nf + 1 && !crate::oplog::fid_in(fids@, g as int) implies spec_read_at(
                        t0,
                        arena0,
                        pk@,
                        new_fid_to_old_fid@[g as int],
                    ) is None by {
                        if g < nf {
                            if crate::oplog::fid_in(fids_before, g as int) {
                                let j = choose|j: int|
                                    0 <= j < fids_before.len() && fids_before[j] as int
                                        == g as int;
                                assert(fids@[j] == fids_before[j]);
                                assert(crate::oplog::fid_in(fids@, g as int));
                            }
                        } else {
                            if live {
                                assert(fids@[fids@.len() - 1] as int == g as int);
                                assert(crate::oplog::fid_in(fids@, g as int));
                            }
                        }
                    }
                }
                nf = nf + 1;
            }
            let ghost dpre = *destination;
            proof {
                assert(!destination.table().contains_key(pk@)) by {
                    if destination.table().contains_key(pk@) {
                        lemma_key_index_self(sv, i as int);
                    }
                }
                assert(pk@.len() <= u16::MAX);
            }
            match destination.upsert_document(&pk, &fids, &vals) {
                Err(_) => {
                    proof {
                        if !spec_has_unknown(
                            old(self).table(),
                            old(self).arena(),
                            new_fid_to_old_fid@,
                        ) && spec_copy_fits(*old(self), new_fid_to_old_fid@) {
                            let mapv = new_fid_to_old_fid@;
                            assert forall|k: int| 0 <= k < vals@.len() implies spec_encodable(
                                #[trigger] vals@[k],
                            ) by {
                                assert(fids@[k] < nmap);
                            }
                            let dlen = dpre.arena().len() as int;
                            let total = spec_sizes_prefix(vals@, vals@.len() as int);
                            let end = dpre.write_off() + total;
                            assert(spec_grown_len(dlen, end) > usize::MAX);
                            assert(total == spec_row_copy_size(row@, arena0, mapv, nmap as int));
                            assert(end == spec_copy_prefix(sv, arena0, mapv, i as int + 1));
                            lemma_copy_prefix_mono(sv, arena0, mapv, i as int, n as int);
                            lemma_copy_prefix_mono(sv, arena0, mapv, i as int + 1, n as int);
                            lemma_grown_ub(dlen, end);
                            assert(false);
                        }
                    }
                    return Err(
                        IndexError::SystemError(
                            String::from_str("destination arena cannot hold the copy"),
                        ),
                    );
                },
                Ok(u) => {},
            }
            let dest_arena_len = destination.files.mmap.len();
            proof {
                if fids@.len() == 0 {
                    assert(*destination == dpre);
                    assert(spec_row_copy_size(row@, arena0, new_fid_to_old_fid@, nmap as int)
                        == 0);
                    assert(destination.write_off() == spec_copy_prefix(
                        sv,
                        arena0,
                        new_fid_to_old_fid@,
                        i as int + 1,
                    ));
                    assert forall|f: u32|
                        #![trigger spec_read_at(destination.table(), destination.arena(), pk@, f)]
                        spec_read_at(destination.table(), destination.arena(), pk@, f) == (if f
                            < nmap {
                            spec_read_at(t0, arena0, pk@, new_fid_to_old_fid@[f as int])
                        } else {
                            None
                        }) by {
                        lemma_seq_to_map(dpre.offset_table.seq_view());
                        assert(!destination.table().contains_key(pk@));
                        assert(spec_read_at(destination.table(), destination.arena(), pk@, f)
                            is None);
                        if f < nmap && !crate::oplog::fid_in(fids@, f as int) {
                            assert(spec_read_at(t0, arena0, pk@, new_fid_to_old_fid@[f as int])
                                is None);
                        }
                    }
                } else {
                    lemma_sizes_prefix_mono(vals@, 0, vals@.len() as int);
                    assert(destination.write_off() == dpre.write_off() + spec_sizes_prefix(
                        vals@,
                        vals@.len() as int,
                    ));
                    assert(destination.write_off() == spec_copy_prefix(
                        sv,
                        arena0,
                        new_fid_to_old_fid@,
                        i as int + 1,
                    ));
                    lemma_grown_ub(dpre.arena().len() as int, destination.write_off() as int);
                    assert(destination.arena().len() <= destination.write_off() + CHUNK_SIZE);
                    lemma_copy_doc(
                        t0,
                        arena0,
                        dpre.table(),
                        dpre.arena(),
                        dpre.write_off(),
                        destination.table(),
                        destination.arena(),
                        destination.write_off(),
                        pk@,
                        fids@,
                        vals@,
                        new_fid_to_old_fid@,
                    );
                }
            }
            i = i + 1;
        }
        let _ = destination.flush_writes();
        proof {
            assert forall|pk: Seq<u8>, f: u32|
                #![trigger spec_read_at(destination.table(), destination.arena(), pk, f)]
                spec_read_at(destination.table(), destination.arena(), pk, f) == (if f < nmap {
                spec_read_at(t0, arena0, pk, new_fid_to_old_fid@[f as int])
            } else {
                None
            }) by {
                if t0.contains_key(pk) {
                    let a = crate::maps::key_index(sv, pk);
                    lemma_key_index(sv, pk);
                    assert(0 <= a < n);
                    assert(sv[a].0 == pk);
                } else {
                    assert(!destination.table().contains_key(pk)) by {
                        if destination.table().contains_key(pk) {
                            let a = crate::maps::key_index(sv, pk);
                            lemma_key_index(sv, pk);
                            assert(sv[a].0 == pk);
                        }
                    }
                    assert(spec_read_at(destination.table(), destination.arena(), pk, f)
                        is None);
                    if f < nmap {
                        assert(spec_read_at(t0, arena0, pk, new_fid_to_old_fid@[f as int])
                            is None);
                    }
                }
            }
            assert(!spec_has_unknown(t0, arena0, new_fid_to_old_fid@)) by {
                if spec_has_unknown(t0, arena0, new_fid_to_old_fid@) {
                    let (pk, nf) = choose|pk: Seq<u8>, nf: int|
                        #![trigger t0[pk][new_fid_to_old_fid@[nf] as int]]
                        0 <= nf < new_fid_to_old_fid@.len() && t0.contains_key(pk)
                            && new_fid_to_old_fid@[nf] < t0[pk].len() && t0[pk][
                        new_fid_to_old_fid@[nf] as int] != ABSENT && (spec_value_at(
                            arena0,
                            t0[pk][new_fid_to_old_fid@[nf] as int] as int,
                        ) matches Some(p) && p.0.field_type is Unknown);
                    let a = crate::maps::key_index(sv, pk);
                    lemma_key_index(sv, pk);
                    assert(sv[a].0 == pk);
                    assert(sv[a].1 == t0[pk]);
                }
            }
        }
        Ok(())
    }
}



/// Matching value runs take the same space at the same offsets.
pub proof fn lemma_fv_views_offsets(a: Seq<FieldValue>, b: Seq<FieldValue>, w0: int)
    requires
        crate::field::fv_views_match(a, b),
    ensures
        forall|i: int| 0 <= i <= a.len() ==> spec_sizes_prefix(a, i) == spec_sizes_prefix(b, i),
        spec_upsert_offsets(w0, a) == spec_upsert_offsets(w0, b),
{
    crate::field::lemma_fv_views_encode(a, b);
    assert forall|i: int|
        0 <= i <= a.len() implies spec_sizes_prefix(a, i) == spec_sizes_prefix(b, i) by {
        lemma_views_prefix_eq(a, b, i);
    }
    assert(spec_upsert_offsets(w0, a) =~= spec_upsert_offsets(w0, b));
}

proof fn lemma_views_prefix_eq(a: Seq<FieldValue>, b: Seq<FieldValue>, i: int)
    requires
        crate::field::fv_views_match(a, b),
        i <= a.len(),
    ensures
        spec_sizes_prefix(a, i) == spec_sizes_prefix(b, i),
    decreases i,
{
    crate::field::lemma_fv_views_encode(a, b);
    if i > 0 {
        lemma_views_prefix_eq(a, b, i - 1);
    }
}



impl CKVIndexSegment {
    /// The shard's operation log, replayed from the empty state on a
    /// fresh map, yields exactly the offset table held in memory; and a
    /// log written out and recovered replays the same way.
    pub proof fn lemma_replay_rebuilds_table(self)
        requires
            self.wf(),
        ensures
            spec_replay(self.log_records()) == self.table(),
            spec_recover_log(spec_encode_log(self.log_records())) == Some(self.log_records()),
            spec_replay(
                spec_recover_log(spec_encode_log(self.log_records()))->Some_0,
            ) == self.table(),
    {
        lemma_recover_encode_log(self.log_records());
    }
}

/// What a read returns after an upsert: for a field the update named,
/// the bytes of the last value written for it; for any other field of
/// the same document, what it read before; every other document is
/// untouched. This is the most-recent-write law at one step.
pub proof fn lemma_read_after_upsert(
    t1: Map<Seq<u8>, Seq<u64>>,
    arena1: Seq<u8>,
    w1: int,
    t2: Map<Seq<u8>, Seq<u64>>,
    arena2: Seq<u8>,
    pk: Seq<u8>,
    pairs: Seq<(u32, u64)>,
    stored: Seq<crate::field::StoredValue>,
    f: u32,
    qk: Seq<u8>,
)
    requires
        map_table_valid(t1, arena1, w1),
        0 <= w1 <= arena1.len(),
        w1 <= arena2.len(),
        arena2.take(w1) == arena1.take(w1),
        t2 == spec_apply_record(t1, LogRecord::Update { pk, pairs }),
        stored.len() == pairs.len(),
        forall|i: int|
            0 <= i < pairs.len() ==> (spec_value_at(arena2, (#[trigger] pairs[i]).1 as int)
                matches Some(p) && p.0 == stored[i]),
        forall|i: int| 0 <= i < pairs.len() ==> (#[trigger] pairs[i]).1 != ABSENT,
    ensures
        qk != pk ==> spec_read_at(t2, arena2, qk, f) == spec_read_at(t1, arena1, qk, f),
        crate::oplog::last_pair(pairs, f) >= 0 ==> spec_read_at(t2, arena2, pk, f) == (if stored[
            crate::oplog::last_pair(pairs, f)].field_type is Unknown {
            None
        } else {
            Some(stored[crate::oplog::last_pair(pairs, f)].bytes)
        }),
        crate::oplog::last_pair(pairs, f) == -1 ==> spec_read_at(t2, arena2, pk, f)
            == spec_read_at(t1, arena2, pk, f),
{
    let row1: Seq<u64> = if t1.contains_key(pk) {
        t1[pk]
    } else {
        Seq::empty()
    };
    let row2 = spec_row_upsert(row1, pairs);
    crate::oplog::lemma_row_upsert_char(row1, pairs);
    let lp = crate::oplog::last_pair(pairs, f);
    crate::oplog::lemma_last_pair(pairs, f);
    if qk != pk {
        lemma_read_agree(t1, arena1, w1, arena2, qk, f);
        assert(t2.contains_key(qk) == t1.contains_key(qk));
        if t1.contains_key(qk) {
            assert(t2[qk] == t1[qk]);
        }
    }
    if lp >= 0 {
        assert(row2[f as int] == pairs[lp].1);
        assert(f < row2.len());
        assert(t2[pk] == row2);
    }
}

/// What a read returns after a field delete: absent for every field the
/// delete named where the row reaches it, unchanged otherwise; other
/// documents are untouched.
pub proof fn lemma_read_after_delete_fields(
    t1: Map<Seq<u8>, Seq<u64>>,
    arena: Seq<u8>,
    t2: Map<Seq<u8>, Seq<u64>>,
    pk: Seq<u8>,
    fids: Seq<u32>,
    f: u32,
    qk: Seq<u8>,
)
    requires
        t2 == spec_apply_record(t1, LogRecord::DeleteFields { pk, fids }),
    ensures
        qk != pk ==> spec_read_at(t2, arena, qk, f) == spec_read_at(t1, arena, qk, f),
        crate::oplog::fid_in(fids, f as int) ==> spec_read_at(t2, arena, pk, f) is None,
        !crate::oplog::fid_in(fids, f as int) ==> spec_read_at(t2, arena, pk, f) == spec_read_at(
            t1,
            arena,
            pk,
            f,
        ),
{
    if t1.contains_key(pk) {
        crate::oplog::lemma_row_delete_char(t1[pk], fids);
        assert(t2[pk] == spec_row_delete(t1[pk], fids));
    }
    if qk != pk {
        assert(t2.contains_key(qk) == t1.contains_key(qk));
        if t1.contains_key(qk) {
            assert(t2[qk] == t1[qk]);
        }
    }
}

/// What a read returns after a document delete: absent for every field
/// of that document; other documents are untouched.
pub proof fn lemma_read_after_delete_doc(
    t1: Map<Seq<u8>, Seq<u64>>,
    arena: Seq<u8>,
    t2: Map<Seq<u8>, Seq<u64>>,
    pk: Seq<u8>,
    f: u32,
    qk: Seq<u8>,
)
    requires
        t2 == spec_apply_record(t1, LogRecord::DeleteDoc { pk }),
    ensures
        spec_read_at(t2, arena, pk, f) is None,
        qk != pk ==> spec_read_at(t2, arena, qk, f) == spec_read_at(t1, arena, qk, f),
{
}



/// Every read of a fresh (or hard-deleted) shard is absent.
pub proof fn lemma_fresh_reads_absent(s: CKVIndexSegment, pk: Seq<u8>, f: u32)
    requires
        s.fresh(),
    ensures
        s.spec_read(pk, f) is None,
{
}



/// Does the shard hold any live value of the unknown type?
pub open spec fn spec_seg_any_unknown(seg: CKVIndexSegment) -> bool {
    exists|pk: Seq<u8>, j: int|
        #![trigger seg.table()[pk][j]]
        seg.table().contains_key(pk) && 0 <= j < seg.table()[pk].len() && seg.table()[pk][j]
            != ABSENT && (spec_value_at(seg.arena(), seg.table()[pk][j] as int) matches Some(p)
            && p.0.field_type is Unknown)
}

/// A live unknown value at a position the id map reaches is a live
/// unknown value.
pub proof fn lemma_has_unknown_any(seg: CKVIndexSegment, mapv: Seq<u32>)
    requires
        spec_has_unknown(seg.table(), seg.arena(), mapv),
    ensures
        spec_seg_any_unknown(seg),
{
    let (pk, nf) = choose|pk: Seq<u8>, nf: int|
        #![trigger seg.table()[pk][mapv[nf] as int]]
        0 <= nf < mapv.len() && seg.table().contains_key(pk) && mapv[nf] < seg.table()[pk].len()
            && seg.table()[pk][mapv[nf] as int] != ABSENT && (spec_value_at(
            seg.arena(),
            seg.table()[pk][mapv[nf] as int] as int,
        ) matches Some(p) && p.0.field_type is Unknown);
    assert(seg.table()[pk][mapv[nf] as int] == seg.table()[pk][mapv[nf] as int]);
}



impl CKVIndexSegment {
    /// The most-recent-write law for this shard, over its whole history:
    /// the offset its table holds for `(pk, f)` is exactly the one
    /// installed by the most recent logged update naming `f` for `pk`
    /// since the most recent delete that covered it, and the absent
    /// sentinel where no such update exists. With `read_field`'s own
    /// contract, a read returns the payload of precisely that write.
    pub proof fn lemma_most_recent_write(self, pk: Seq<u8>, f: u32)
        requires
            self.wf(),
        ensures
            ({
                let raw = if self.table().contains_key(pk) && f < self.table()[pk].len() {
                    self.table()[pk][f as int]
                } else {
                    ABSENT
                };
                raw == (match crate::oplog::spec_last_write(self.log_records(), pk, f) {
                    Some(o) => o,
                    None => ABSENT,
                })
            }),
    {
        crate::oplog::lemma_replay_most_recent_write(self.log_records(), pk, f);
    }
}



/// The bytes a compaction copy writes for the first `nf` positions of
/// the id map, out of one source row.
pub open spec fn spec_row_copy_size(row: Seq<u64>, arena: Seq<u8>, mapv: Seq<u32>, nf: int) -> int
    decreases nf,
{
    if nf <= 0 {
        0
    } else {
        spec_row_copy_size(row, arena, mapv, nf - 1) + ({
            let old_fid = mapv[nf - 1];
            if old_fid < row.len() && row[old_fid as int] != ABSENT {
                match spec_value_at(arena, row[old_fid as int] as int) {
                    Some(p) => crate::field::spec_encoded_len_of(p.0.field_type, p.0.bytes),
                    None => 0,
                }
            } else {
                0
            }
        })
    }
}

/// The bytes a compaction copy writes for the first `i` documents of a
/// shard.
pub open spec fn spec_copy_prefix(
    entries: Seq<(Seq<u8>, Seq<u64>)>,
    arena: Seq<u8>,
    mapv: Seq<u32>,
    i: int,
) -> int
    decreases i,
{
    if i <= 0 {
        0
    } else {
        spec_copy_prefix(entries, arena, mapv, i - 1) + spec_row_copy_size(
            entries[i - 1].1,
            arena,
            mapv,
            mapv.len() as int,
        )
    }
}

/// Can a compaction copy of this shard fit in the address space? The
/// rewritten arena never outgrows the copied bytes by more than one
/// chunk.
pub open spec fn spec_copy_fits(seg: CKVIndexSegment, mapv: Seq<u32>) -> bool {
    spec_copy_prefix(seg.table_entries(), seg.arena(), mapv, seg.table_entries().len() as int)
        + CHUNK_SIZE <= usize::MAX
}

pub proof fn lemma_row_copy_size_mono(
    row: Seq<u64>,
    arena: Seq<u8>,
    mapv: Seq<u32>,
    a: int,
    b: int,
)
    requires
        0 <= a <= b,
    ensures
        spec_row_copy_size(row, arena, mapv, a) <= spec_row_copy_size(row, arena, mapv, b),
    decreases b - a,
{
    if a < b {
        lemma_row_copy_size_mono(row, arena, mapv, a, b - 1);
        if 0 < b {
            let old_fid = mapv[b - 1];
            if old_fid < row.len() && row[old_fid as int] != ABSENT {
                match spec_value_at(arena, row[old_fid as int] as int) {
                    Some(p) => {
                        crate::codec::lemma_varint_len(p.0.bytes.len() as u32);
                    },
                    None => {},
                }
            }
        }
    }
}

pub proof fn lemma_copy_prefix_mono(
    entries: Seq<(Seq<u8>, Seq<u64>)>,
    arena: Seq<u8>,
    mapv: Seq<u32>,
    a: int,
    b: int,
)
    requires
        0 <= a <= b,
    ensures
        spec_copy_prefix(entries, arena, mapv, a) <= spec_copy_prefix(entries, arena, mapv, b),
    decreases b - a,
{
    if a < b {
        lemma_copy_prefix_mono(entries, arena, mapv, a, b - 1);
        if 0 < b {
            lemma_row_copy_size_mono(entries[b - 1].1, arena, mapv, 0, mapv.len() as int);
        }
    }
}

/// A prefix sum of encoded widths only looks at the values before it.
pub proof fn lemma_sizes_prefix_push(vals: Seq<FieldValue>, v: FieldValue, i: int)
    requires
        0 <= i <= vals.len(),
    ensures
        spec_sizes_prefix(vals.push(v), i) == spec_sizes_prefix(vals, i),
        spec_sizes_prefix(vals.push(v), vals.len() as int + 1) == spec_sizes_prefix(
            vals,
            vals.len() as int,
        ) + crate::field::spec_encode_value(v).len(),
    decreases i,
{
    if i > 0 {
        lemma_sizes_prefix_push(vals, v, i - 1);
        assert(vals.push(v)[i - 1] == vals[i - 1]);
    }
    if i == 0 {
        lemma_sizes_prefix_push_total(vals, v);
    }
}

proof fn lemma_sizes_prefix_push_total(vals: Seq<FieldValue>, v: FieldValue)
    ensures
        spec_sizes_prefix(vals.push(v), vals.len() as int + 1) == spec_sizes_prefix(
            vals,
            vals.len() as int,
        ) + crate::field::spec_encode_value(v).len(),
    decreases vals.len(),
{
    assert(vals.push(v)[vals.len() as int] == v);
    lemma_sizes_prefix_agree(vals.push(v), vals, vals.len() as int);
}

proof fn lemma_sizes_prefix_agree(a: Seq<FieldValue>, b: Seq<FieldValue>, i: int)
    requires
        0 <= i <= a.len(),
        i <= b.len(),
        forall|q: int| 0 <= q < i ==> a[q] == b[q],
    ensures
        spec_sizes_prefix(a, i) == spec_sizes_prefix(b, i),
    decreases i,
{
    if i > 0 {
        lemma_sizes_prefix_agree(a, b, i - 1);
    }
}

/// The chunked growth never overshoots by more than one chunk.
pub proof fn lemma_grown_ub(len: int, end: int)
    requires
        0 <= len,
        0 <= end,
    ensures
        spec_grown_len(len, end) <= (if end <= len {
            len
        } else {
            end + CHUNK_SIZE
        }),
{
    if end > len {
        let c = CHUNK_SIZE as int;
        let need = end - len;
        assert(need / c * c <= need) by (nonlinear_arith)
            requires
                need >= 0,
                c == 0x800000,
        ;
    }
}


} // verus!
