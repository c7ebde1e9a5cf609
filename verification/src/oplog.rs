//! The shard's append-only operation log.
//!
//! Each record is a length-prefixed (32-bit little-endian) serialized
//! tagged union with three variants: update the offsets of some fields of
//! a document, set some fields of a document back to absent, or delete a
//! document. Replaying a log from the front onto an empty map rebuilds
//! the shard's offset table.

use vstd::prelude::*;
use vstd::bytes::{spec_u32_to_le_bytes, spec_u64_to_le_bytes, spec_u32_from_le_bytes, spec_u64_from_le_bytes};
use crate::codec::lemma_le_roundtrips;
use crate::field::{FIELD_ID_LIMIT};

verus! {

/// A record never names more fields than this; it keeps every framed
/// record's length well under the 32-bit frame limit.
pub const MAX_RECORD_FIELDS: u32 = 0x100000;

/// The absent sentinel inside an offset row.
pub const ABSENT: u64 = u64::MAX;

/// One record of the operation log.
pub ghost enum LogRecord {
    /// Install arena offsets for the named fields of a document.
    Update { pk: Seq<u8>, pairs: Seq<(u32, u64)> },
    /// Set the named fields of a document back to absent.
    DeleteFields { pk: Seq<u8>, fids: Seq<u32> },
    /// Remove a document.
    DeleteDoc { pk: Seq<u8> },
}

/// The bounds every record written by the store obeys: the primary key
/// fits the facade's 64 KiB limit, the field list is short enough for the
/// frame, and every field id is below the registry's limit.
pub open spec fn wf_record(r: LogRecord) -> bool {
    match r {
        LogRecord::Update { pk, pairs } => {
            &&& 1 <= pk.len() <= u16::MAX
            &&& pairs.len() <= MAX_RECORD_FIELDS
            &&& forall|i: int| 0 <= i < pairs.len() ==> (#[trigger] pairs[i]).0 < FIELD_ID_LIMIT
        },
        LogRecord::DeleteFields { pk, fids } => {
            &&& 1 <= pk.len() <= u16::MAX
            &&& fids.len() <= MAX_RECORD_FIELDS
            &&& forall|i: int| 0 <= i < fids.len() ==> #[trigger] fids[i] < FIELD_ID_LIMIT
        },
        LogRecord::DeleteDoc { pk } => 1 <= pk.len() <= u16::MAX,
    }
}

pub open spec fn spec_encode_pairs(pairs: Seq<(u32, u64)>) -> Seq<u8>
    decreases pairs.len(),
{
    if pairs.len() == 0 {
        Seq::empty()
    } else {
        spec_u32_to_le_bytes(pairs[0].0) + spec_u64_to_le_bytes(pairs[0].1) + spec_encode_pairs(
            pairs.drop_first(),
        )
    }
}

pub open spec fn spec_encode_fids(fids: Seq<u32>) -> Seq<u8>
    decreases fids.len(),
{
    if fids.len() == 0 {
        Seq::empty()
    } else {
        spec_u32_to_le_bytes(fids[0]) + spec_encode_fids(fids.drop_first())
    }
}

/// The serialized body of a record (without its length prefix).
pub open spec fn spec_encode_record(r: LogRecord) -> Seq<u8> {
    match r {
        LogRecord::Update { pk, pairs } => seq![1u8] + spec_u32_to_le_bytes(pk.len() as u32) + pk
            + spec_u32_to_le_bytes(pairs.len() as u32) + spec_encode_pairs(pairs),
        LogRecord::DeleteFields { pk, fids } => seq![2u8] + spec_u32_to_le_bytes(pk.len() as u32)
            + pk + spec_u32_to_le_bytes(fids.len() as u32) + spec_encode_fids(fids),
        LogRecord::DeleteDoc { pk } => seq![3u8] + spec_u32_to_le_bytes(pk.len() as u32) + pk,
    }
}

/// A framed record: the body behind its little-endian length.
pub open spec fn spec_frame_record(r: LogRecord) -> Seq<u8> {
    spec_u32_to_le_bytes(spec_encode_record(r).len() as u32) + spec_encode_record(r)
}

/// A whole log: the concatenation of its framed records.
pub open spec fn spec_encode_log(rs: Seq<LogRecord>) -> Seq<u8>
    decreases rs.len(),
{
    if rs.len() == 0 {
        Seq::empty()
    } else {
        spec_frame_record(rs[0]) + spec_encode_log(rs.drop_first())
    }
}

pub proof fn lemma_encode_pairs_len(pairs: Seq<(u32, u64)>)
    ensures
        spec_encode_pairs(pairs).len() == 12 * pairs.len(),
    decreases pairs.len(),
{
    lemma_le_roundtrips();
    if pairs.len() > 0 {
        lemma_encode_pairs_len(pairs.drop_first());
    }
}

pub proof fn lemma_encode_fids_len(fids: Seq<u32>)
    ensures
        spec_encode_fids(fids).len() == 4 * fids.len(),
    decreases fids.len(),
{
    lemma_le_roundtrips();
    if fids.len() > 0 {
        lemma_encode_fids_len(fids.drop_first());
    }
}

/// A well-formed record's body fits its 32-bit frame with room to spare.
pub proof fn lemma_encode_record_len(r: LogRecord)
    requires
        wf_record(r),
    ensures
        5 <= spec_encode_record(r).len() <= i32::MAX,
        match r {
            LogRecord::Update { pk, pairs } => spec_encode_record(r).len() == 9 + pk.len() + 12
                * pairs.len(),
            LogRecord::DeleteFields { pk, fids } => spec_encode_record(r).len() == 9 + pk.len()
                + 4 * fids.len(),
            LogRecord::DeleteDoc { pk } => spec_encode_record(r).len() == 5 + pk.len(),
        },
{
    lemma_le_roundtrips();
    match r {
        LogRecord::Update { pk, pairs } => {
            lemma_encode_pairs_len(pairs);
        },
        LogRecord::DeleteFields { pk, fids } => {
            lemma_encode_fids_len(fids);
        },
        LogRecord::DeleteDoc { pk } => {},
    }
}

pub open spec fn spec_parse_pairs(s: Seq<u8>, n: nat) -> Option<Seq<(u32, u64)>>
    decreases n,
{
    if n == 0 {
        if s.len() == 0 {
            Some(Seq::empty())
        } else {
            None
        }
    } else if s.len() < 12 {
        None
    } else {
        let fid = spec_u32_from_le_bytes(s.subrange(0, 4));
        let off = spec_u64_from_le_bytes(s.subrange(4, 12));
        if fid >= FIELD_ID_LIMIT {
            None
        } else {
            match spec_parse_pairs(s.skip(12), (n - 1) as nat) {
                None => None,
                Some(rest) => Some(seq![(fid, off)] + rest),
            }
        }
    }
}

pub open spec fn spec_parse_fids(s: Seq<u8>, n: nat) -> Option<Seq<u32>>
    decreases n,
{
    if n == 0 {
        if s.len() == 0 {
            Some(Seq::empty())
        } else {
            None
        }
    } else if s.len() < 4 {
        None
    } else {
        let fid = spec_u32_from_le_bytes(s.subrange(0, 4));
        if fid >= FIELD_ID_LIMIT {
            None
        } else {
            match spec_parse_fids(s.skip(4), (n - 1) as nat) {
                None => None,
                Some(rest) => Some(seq![fid] + rest),
            }
        }
    }
}

/// Parse a record body. The body must be consumed exactly; any slack or
/// bound violation is corruption.
pub open spec fn spec_parse_record(s: Seq<u8>) -> Option<LogRecord> {
    if s.len() < 5 {
        None
    } else {
        let op = s[0];
        let pk_len = spec_u32_from_le_bytes(s.subrange(1, 5));
        if pk_len == 0 || pk_len > u16::MAX || 5 + pk_len > s.len() {
            None
        } else {
            let pk = s.subrange(5, 5 + pk_len);
            if op == 3 {
                if s.len() == 5 + pk_len {
                    Some(LogRecord::DeleteDoc { pk })
                } else {
                    None
                }
            } else if op == 1 || op == 2 {
                if 9 + pk_len > s.len() {
                    None
                } else {
                    let n = spec_u32_from_le_bytes(s.subrange(5 + pk_len, 9 + pk_len));
                    if n > MAX_RECORD_FIELDS {
                        None
                    } else if op == 1 {
                        match spec_parse_pairs(s.skip(9 + pk_len), n as nat) {
                            None => None,
                            Some(pairs) => Some(LogRecord::Update { pk, pairs }),
                        }
                    } else {
                        match spec_parse_fids(s.skip(9 + pk_len), n as nat) {
                            None => None,
                            Some(fids) => Some(LogRecord::DeleteFields { pk, fids }),
                        }
                    }
                }
            } else {
                None
            }
        }
    }
}

/// Parse a log under the recovery policy: stop cleanly at a trailing
/// incomplete length prefix, and reject a frame whose declared length
/// exceeds the remaining bytes.
pub open spec fn spec_recover_log(s: Seq<u8>) -> Option<Seq<LogRecord>>
    decreases s.len(),
{
    if s.len() < 4 {
        Some(Seq::empty())
    } else {
        let l = spec_u32_from_le_bytes(s.subrange(0, 4));
        if l > i32::MAX || 4 + l > s.len() {
            None
        } else {
            match spec_parse_record(s.subrange(4, 4 + l)) {
                None => None,
                Some(r) => match spec_recover_log(s.skip(4 + l)) {
                    None => None,
                    Some(rs) => Some(seq![r] + rs),
                },
            }
        }
    }
}

/// The bytes the recovery keeps: everything up to a trailing incomplete
/// length prefix.
pub open spec fn spec_recover_consumed(s: Seq<u8>) -> int
    decreases s.len(),
{
    if s.len() < 4 {
        0
    } else {
        let l = spec_u32_from_le_bytes(s.subrange(0, 4));
        if l > i32::MAX || 4 + l > s.len() {
            0
        } else {
            4 + l + spec_recover_consumed(s.skip(4 + l))
        }
    }
}


/// Grow a row with absent sentinels until `fid` is in range, then install
/// `off` there.
pub open spec fn spec_row_set(row: Seq<u64>, fid: u32, off: u64) -> Seq<u64> {
    let grown = if fid < row.len() {
        row
    } else {
        row + Seq::new((fid + 1 - row.len()) as nat, |i: int| ABSENT)
    };
    grown.update(fid as int, off)
}

/// Apply an update's pairs to a row, first to last.
pub open spec fn spec_row_upsert(row: Seq<u64>, pairs: Seq<(u32, u64)>) -> Seq<u64>
    decreases pairs.len(),
{
    if pairs.len() == 0 {
        row
    } else {
        spec_row_upsert(spec_row_set(row, pairs[0].0, pairs[0].1), pairs.drop_first())
    }
}

/// Set the named fields back to absent where the row reaches them.
pub open spec fn spec_row_delete(row: Seq<u64>, fids: Seq<u32>) -> Seq<u64>
    decreases fids.len(),
{
    if fids.len() == 0 {
        row
    } else {
        let r1 = if fids[0] < row.len() {
            row.update(fids[0] as int, ABSENT)
        } else {
            row
        };
        spec_row_delete(r1, fids.drop_first())
    }
}

/// The table after one record.
pub open spec fn spec_apply_record(
    m: Map<Seq<u8>, Seq<u64>>,
    r: LogRecord,
) -> Map<Seq<u8>, Seq<u64>> {
    match r {
        LogRecord::Update { pk, pairs } => {
            let row = if m.contains_key(pk) {
                m[pk]
            } else {
                Seq::empty()
            };
            m.insert(pk, spec_row_upsert(row, pairs))
        },
        LogRecord::DeleteFields { pk, fids } => {
            if m.contains_key(pk) {
                m.insert(pk, spec_row_delete(m[pk], fids))
            } else {
                m
            }
        },
        LogRecord::DeleteDoc { pk } => m.remove(pk),
    }
}

/// The table after a run of records, first to last.
pub open spec fn spec_replay_from(
    m: Map<Seq<u8>, Seq<u64>>,
    rs: Seq<LogRecord>,
) -> Map<Seq<u8>, Seq<u64>>
    decreases rs.len(),
{
    if rs.len() == 0 {
        m
    } else {
        spec_replay_from(spec_apply_record(m, rs[0]), rs.drop_first())
    }
}

/// Replaying a log from the empty state.
pub open spec fn spec_replay(rs: Seq<LogRecord>) -> Map<Seq<u8>, Seq<u64>> {
    spec_replay_from(Map::empty(), rs)
}

/// Appending one record replays as one more application.
pub proof fn lemma_replay_push(m: Map<Seq<u8>, Seq<u64>>, rs: Seq<LogRecord>, r: LogRecord)
    ensures
        spec_replay_from(m, rs.push(r)) == spec_apply_record(spec_replay_from(m, rs), r),
    decreases rs.len(),
{
    if rs.len() == 0 {
        assert(rs.push(r)[0] == r);
        assert(rs.push(r).drop_first() =~= Seq::<LogRecord>::empty());
        assert(spec_replay_from(m, rs.push(r)) == spec_replay_from(
            spec_apply_record(m, r),
            rs.push(r).drop_first(),
        ));
        assert(spec_replay_from(spec_apply_record(m, r), rs.push(r).drop_first())
            == spec_apply_record(m, r));
        assert(spec_replay_from(m, rs) == m);
    } else {
        assert(rs.push(r)[0] == rs[0]);
        assert(rs.push(r).drop_first() =~= rs.drop_first().push(r));
        lemma_replay_push(spec_apply_record(m, rs[0]), rs.drop_first(), r);
        assert(spec_replay_from(m, rs.push(r)) == spec_replay_from(
            spec_apply_record(m, rs[0]),
            rs.drop_first().push(r),
        ));
        assert(spec_replay_from(m, rs) == spec_replay_from(
            spec_apply_record(m, rs[0]),
            rs.drop_first(),
        ));
    }
}

/// Concatenating two logs encodes as the concatenation of their bytes.
pub proof fn lemma_encode_log_concat(a: Seq<LogRecord>, b: Seq<LogRecord>)
    ensures
        spec_encode_log(a + b) == spec_encode_log(a) + spec_encode_log(b),
    decreases a.len(),
{
    if a.len() == 0 {
        assert(a + b =~= b);
        assert(spec_encode_log(a) + spec_encode_log(b) =~= spec_encode_log(b));
    } else {
        assert((a + b)[0] == a[0]);
        assert((a + b).drop_first() =~= a.drop_first() + b);
        lemma_encode_log_concat(a.drop_first(), b);
        assert(spec_frame_record(a[0]) + (spec_encode_log(a.drop_first()) + spec_encode_log(b))
            =~= (spec_frame_record(a[0]) + spec_encode_log(a.drop_first())) + spec_encode_log(b));
    }
}

proof fn lemma_parse_pairs_roundtrip(pairs: Seq<(u32, u64)>)
    requires
        forall|i: int| 0 <= i < pairs.len() ==> (#[trigger] pairs[i]).0 < FIELD_ID_LIMIT,
    ensures
        spec_parse_pairs(spec_encode_pairs(pairs), pairs.len()) == Some(pairs),
    decreases pairs.len(),
{
    lemma_le_roundtrips();
    if pairs.len() > 0 {
        let s = spec_encode_pairs(pairs);
        let a = spec_u32_to_le_bytes(pairs[0].0);
        let b = spec_u64_to_le_bytes(pairs[0].1);
        let rest = spec_encode_pairs(pairs.drop_first());
        lemma_encode_pairs_len(pairs.drop_first());
        assert(s == a + b + rest);
        assert(s.subrange(0, 4) =~= a);
        assert(s.subrange(4, 12) =~= b);
        assert(s.skip(12) =~= rest);
        lemma_parse_pairs_roundtrip(pairs.drop_first());
        assert(seq![(pairs[0].0, pairs[0].1)] + pairs.drop_first() =~= pairs);
    }
}

proof fn lemma_parse_fids_roundtrip(fids: Seq<u32>)
    requires
        forall|i: int| 0 <= i < fids.len() ==> #[trigger] fids[i] < FIELD_ID_LIMIT,
    ensures
        spec_parse_fids(spec_encode_fids(fids), fids.len()) == Some(fids),
    decreases fids.len(),
{
    lemma_le_roundtrips();
    if fids.len() > 0 {
        let s = spec_encode_fids(fids);
        let a = spec_u32_to_le_bytes(fids[0]);
        let rest = spec_encode_fids(fids.drop_first());
        lemma_encode_fids_len(fids.drop_first());
        assert(s == a + rest);
        assert(s.subrange(0, 4) =~= a);
        assert(s.skip(4) =~= rest);
        lemma_parse_fids_roundtrip(fids.drop_first());
        assert(seq![fids[0]] + fids.drop_first() =~= fids);
    }
}

/// A well-formed record's body parses back to the record.
pub proof fn lemma_parse_record_roundtrip(r: LogRecord)
    requires
        wf_record(r),
    ensures
        spec_parse_record(spec_encode_record(r)) == Some(r),
{
    lemma_le_roundtrips();
    lemma_encode_record_len(r);
    let s = spec_encode_record(r);
    match r {
        LogRecord::Update { pk, pairs } => {
            let lenb = spec_u32_to_le_bytes(pk.len() as u32);
            let nb = spec_u32_to_le_bytes(pairs.len() as u32);
            let pb = spec_encode_pairs(pairs);
            lemma_encode_pairs_len(pairs);
            assert(s == seq![1u8] + lenb + pk + nb + pb);
            assert(s[0] == 1u8);
            assert(s.subrange(1, 5) =~= lenb);
            assert(s.subrange(5, 5 + pk.len() as int) =~= pk);
            assert(s.subrange(5 + pk.len() as int, 9 + pk.len() as int) =~= nb);
            assert(s.skip(9 + pk.len() as int) =~= pb);
            lemma_parse_pairs_roundtrip(pairs);
        },
        LogRecord::DeleteFields { pk, fids } => {
            let lenb = spec_u32_to_le_bytes(pk.len() as u32);
            let nb = spec_u32_to_le_bytes(fids.len() as u32);
            let fb = spec_encode_fids(fids);
            lemma_encode_fids_len(fids);
            assert(s == seq![2u8] + lenb + pk + nb + fb);
            assert(s[0] == 2u8);
            assert(s.subrange(1, 5) =~= lenb);
            assert(s.subrange(5, 5 + pk.len() as int) =~= pk);
            assert(s.subrange(5 + pk.len() as int, 9 + pk.len() as int) =~= nb);
            assert(s.skip(9 + pk.len() as int) =~= fb);
            lemma_parse_fids_roundtrip(fids);
        },
        LogRecord::DeleteDoc { pk } => {
            let lenb = spec_u32_to_le_bytes(pk.len() as u32);
            assert(s == seq![3u8] + lenb + pk);
            assert(s[0] == 3u8);
            assert(s.subrange(1, 5) =~= lenb);
            assert(s.subrange(5, 5 + pk.len() as int) =~= pk);
        },
    }
}

/// A log written as well-formed records recovers to exactly those
/// records. This is the crash-recovery round trip: what the store wrote
/// and flushed, a later open replays.
pub proof fn lemma_recover_encode_log(rs: Seq<LogRecord>)
    requires
        forall|i: int| 0 <= i < rs.len() ==> wf_record(#[trigger] rs[i]),
    ensures
        spec_recover_log(spec_encode_log(rs)) == Some(rs),
        spec_recover_consumed(spec_encode_log(rs)) == spec_encode_log(rs).len(),
    decreases rs.len(),
{
    lemma_le_roundtrips();
    if rs.len() > 0 {
        let s = spec_encode_log(rs);
        let body = spec_encode_record(rs[0]);
        let lenb = spec_u32_to_le_bytes(body.len() as u32);
        let rest = spec_encode_log(rs.drop_first());
        lemma_encode_record_len(rs[0]);
        assert(s == (lenb + body) + rest);
        assert(s.len() >= 4 + body.len());
        assert(s.subrange(0, 4) =~= lenb);
        assert(s.subrange(4, 4 + body.len() as int) =~= body);
        assert(s.skip(4 + body.len() as int) =~= rest);
        lemma_parse_record_roundtrip(rs[0]);
        lemma_recover_encode_log(rs.drop_first());
        assert(seq![rs[0]] + rs.drop_first() =~= rs);
    }
}

proof fn lemma_parse_pairs_exact(s: Seq<u8>, n: nat)
    requires
        spec_parse_pairs(s, n) is Some,
    ensures
        ({
            let ps = spec_parse_pairs(s, n)->Some_0;
            &&& ps.len() == n
            &&& spec_encode_pairs(ps) == s
            &&& forall|i: int| 0 <= i < ps.len() ==> (#[trigger] ps[i]).0 < FIELD_ID_LIMIT
        }),
    decreases n,
{
    lemma_le_roundtrips();
    if n > 0 {
        let fid = spec_u32_from_le_bytes(s.subrange(0, 4));
        let off = spec_u64_from_le_bytes(s.subrange(4, 12));
        lemma_parse_pairs_exact(s.skip(12), (n - 1) as nat);
        let rest = spec_parse_pairs(s.skip(12), (n - 1) as nat)->Some_0;
        let ps = spec_parse_pairs(s, n)->Some_0;
        assert(ps == seq![(fid, off)] + rest);
        assert(ps.drop_first() =~= rest);
        assert(ps[0] == (fid, off));
        assert(spec_u32_to_le_bytes(fid) =~= s.subrange(0, 4));
        assert(spec_u64_to_le_bytes(off) =~= s.subrange(4, 12));
        assert(spec_encode_pairs(ps) =~= s);
    }
}

proof fn lemma_parse_fids_exact(s: Seq<u8>, n: nat)
    requires
        spec_parse_fids(s, n) is Some,
    ensures
        ({
            let fs = spec_parse_fids(s, n)->Some_0;
            &&& fs.len() == n
            &&& spec_encode_fids(fs) == s
            &&& forall|i: int| 0 <= i < fs.len() ==> #[trigger] fs[i] < FIELD_ID_LIMIT
        }),
    decreases n,
{
    lemma_le_roundtrips();
    if n > 0 {
        let fid = spec_u32_from_le_bytes(s.subrange(0, 4));
        lemma_parse_fids_exact(s.skip(4), (n - 1) as nat);
        let rest = spec_parse_fids(s.skip(4), (n - 1) as nat)->Some_0;
        let fs = spec_parse_fids(s, n)->Some_0;
        assert(fs == seq![fid] + rest);
        assert(fs.drop_first() =~= rest);
        assert(fs[0] == fid);
        assert(spec_u32_to_le_bytes(fid) =~= s.subrange(0, 4));
        assert(spec_encode_fids(fs) =~= s);
    }
}

/// A body that parses is exactly the encoding of what it parses to, and
/// that record is well formed.
pub proof fn lemma_parse_record_exact(s: Seq<u8>)
    requires
        spec_parse_record(s) is Some,
    ensures
        ({
            let r = spec_parse_record(s)->Some_0;
            &&& wf_record(r)
            &&& spec_encode_record(r) == s
        }),
{
    lemma_le_roundtrips();
    let op = s[0];
    let pk_len = spec_u32_from_le_bytes(s.subrange(1, 5));
    let pk = s.subrange(5, 5 + pk_len);
    assert(spec_u32_to_le_bytes(pk_len) =~= s.subrange(1, 5));
    if op == 3 {
        let r = spec_parse_record(s)->Some_0;
        assert(spec_encode_record(r) =~= s);
    } else {
        let n = spec_u32_from_le_bytes(s.subrange(5 + pk_len, 9 + pk_len));
        assert(spec_u32_to_le_bytes(n) =~= s.subrange(5 + pk_len, 9 + pk_len));
        if op == 1 {
            lemma_parse_pairs_exact(s.skip(9 + pk_len), n as nat);
            let r = spec_parse_record(s)->Some_0;
            assert(spec_encode_record(r) =~= s);
        } else {
            lemma_parse_fids_exact(s.skip(9 + pk_len), n as nat);
            let r = spec_parse_record(s)->Some_0;
            assert(spec_encode_record(r) =~= s);
        }
    }
}

/// What recovery keeps of a log is exactly the encoding of the records
/// it hands back, all of them well formed.
pub proof fn lemma_recover_exact(s: Seq<u8>)
    requires
        spec_recover_log(s) is Some,
    ensures
        ({
            let rs = spec_recover_log(s)->Some_0;
            &&& forall|i: int| 0 <= i < rs.len() ==> wf_record(#[trigger] rs[i])
            &&& 0 <= spec_recover_consumed(s) <= s.len()
            &&& spec_encode_log(rs) == s.take(spec_recover_consumed(s))
        }),
    decreases s.len(),
{
    if s.len() < 4 {
        assert(s.take(0int) =~= Seq::<u8>::empty());
        assert(spec_encode_log(Seq::<LogRecord>::empty()) =~= Seq::<u8>::empty());
    } else {
        let l = spec_u32_from_le_bytes(s.subrange(0, 4));
        let body = s.subrange(4, 4 + l);
        lemma_parse_record_exact(body);
        let r = spec_parse_record(body)->Some_0;
        lemma_recover_exact(s.skip(4 + l));
        let rest = spec_recover_log(s.skip(4 + l))->Some_0;
        let rs = spec_recover_log(s)->Some_0;
        assert(rs == seq![r] + rest);
        assert(rs.drop_first() =~= rest);
        assert(rs[0] == r);
        lemma_le_roundtrips();
        assert(spec_u32_to_le_bytes(l) =~= s.subrange(0, 4));
        assert(spec_encode_record(r).len() == l) by {
            assert(spec_encode_record(r) == body);
        }
        let c = spec_recover_consumed(s.skip(4 + l));
        assert(spec_encode_log(rest) == s.skip(4 + l).take(c));
        assert(spec_encode_log(rs) =~= s.take(spec_recover_consumed(s))) by {
            assert(spec_encode_log(rs) == spec_frame_record(r) + spec_encode_log(rest));
            assert(spec_frame_record(r) =~= s.take(4 + l));
            assert(forall|i: int|
                0 <= i < c ==> #[trigger] s.skip(4 + l).take(c)[i] == s[4 + l + i]);
        }
    }
}



/// Pair the field ids with their offsets, index by index.
pub open spec fn zip_pairs(fids: Seq<u32>, offs: Seq<u64>) -> Seq<(u32, u64)> {
    Seq::new(fids.len(), |i: int| (fids[i], offs[i]))
}

/// One record of the operation log, as built or parsed by executable
/// code.
pub enum LogOp {
    Update { pk: Vec<u8>, fids: Vec<u32>, offsets: Vec<u64> },
    DeleteFields { pk: Vec<u8>, fids: Vec<u32> },
    DeleteDoc { pk: Vec<u8> },
}

impl View for LogOp {
    type V = LogRecord;

    open spec fn view(&self) -> LogRecord {
        match self {
            LogOp::Update { pk, fids, offsets } => LogRecord::Update {
                pk: pk@,
                pairs: zip_pairs(fids@, offsets@),
            },
            LogOp::DeleteFields { pk, fids } => LogRecord::DeleteFields { pk: pk@, fids: fids@ },
            LogOp::DeleteDoc { pk } => LogRecord::DeleteDoc { pk: pk@ },
        }
    }
}

/// An update op must pair every field id with an offset.
pub open spec fn wf_op(op: LogOp) -> bool {
    match op {
        LogOp::Update { pk, fids, offsets } => fids@.len() == offsets@.len(),
        _ => true,
    }
}

pub proof fn lemma_encode_pairs_push(ps: Seq<(u32, u64)>, p: (u32, u64))
    ensures
        spec_encode_pairs(ps.push(p)) == spec_encode_pairs(ps) + spec_u32_to_le_bytes(p.0)
            + spec_u64_to_le_bytes(p.1),
    decreases ps.len(),
{
    lemma_le_roundtrips();
    if ps.len() == 0 {
        assert(ps.push(p)[0] == p);
        assert(ps.push(p).drop_first() =~= Seq::<(u32, u64)>::empty());
        assert(spec_encode_pairs(ps.push(p).drop_first()) =~= Seq::<u8>::empty());
        assert(spec_encode_pairs(ps) =~= Seq::<u8>::empty());
        assert(spec_encode_pairs(ps.push(p)) =~= spec_encode_pairs(ps) + spec_u32_to_le_bytes(p.0)
            + spec_u64_to_le_bytes(p.1));
    } else {
        assert(ps.push(p)[0] == ps[0]);
        assert(ps.push(p).drop_first() =~= ps.drop_first().push(p));
        lemma_encode_pairs_push(ps.drop_first(), p);
        assert(spec_encode_pairs(ps.push(p)) =~= spec_encode_pairs(ps) + spec_u32_to_le_bytes(p.0)
            + spec_u64_to_le_bytes(p.1));
    }
}

pub proof fn lemma_encode_fids_push(fs: Seq<u32>, f: u32)
    ensures
        spec_encode_fids(fs.push(f)) == spec_encode_fids(fs) + spec_u32_to_le_bytes(f),
    decreases fs.len(),
{
    lemma_le_roundtrips();
    if fs.len() == 0 {
        assert(fs.push(f)[0] == f);
        assert(fs.push(f).drop_first() =~= Seq::<u32>::empty());
        assert(spec_encode_fids(fs.push(f).drop_first()) =~= Seq::<u8>::empty());
        assert(spec_encode_fids(fs) =~= Seq::<u8>::empty());
        assert(spec_encode_fids(fs.push(f)) =~= spec_encode_fids(fs) + spec_u32_to_le_bytes(f));
    } else {
        assert(fs.push(f)[0] == fs[0]);
        assert(fs.push(f).drop_first() =~= fs.drop_first().push(f));
        lemma_encode_fids_push(fs.drop_first(), f);
        assert(spec_encode_fids(fs.push(f)) =~= spec_encode_fids(fs) + spec_u32_to_le_bytes(f));
    }
}

/// One more record extends the encoded log by one frame.
pub proof fn lemma_encode_log_push(rs: Seq<LogRecord>, r: LogRecord)
    ensures
        spec_encode_log(rs.push(r)) == spec_encode_log(rs) + spec_frame_record(r),
{
    lemma_le_roundtrips();
    lemma_encode_log_concat(rs, seq![r]);
    assert(rs + seq![r] =~= rs.push(r));
    assert(seq![r][0] == r);
    assert(seq![r].drop_first() =~= Seq::<LogRecord>::empty());
    assert(spec_encode_log(seq![r].drop_first()) =~= Seq::<u8>::empty());
    assert(spec_encode_log(seq![r]) =~= spec_frame_record(r));
}

/// Append the framed encoding of `op` to `out`.
pub fn append_frame(out: &mut Vec<u8>, op: &LogOp)
    requires
        wf_op(*op),
        wf_record(op@),
    ensures
        final(out)@ == old(out)@ + spec_frame_record(op@),
{
    proof {
        lemma_encode_record_len(op@);
        lemma_le_roundtrips();
    }
    let body_len: usize = match op {
        LogOp::Update { pk, fids, offsets } => 9 + pk.len() + 12 * fids.len(),
        LogOp::DeleteFields { pk, fids } => 9 + pk.len() + 4 * fids.len(),
        LogOp::DeleteDoc { pk } => 5 + pk.len(),
    };
    crate::codec::push_u32_le(out, body_len as u32);
    let ghost base = out@;
    match op {
        LogOp::Update { pk, fids, offsets } => {
            out.push(1u8);
            crate::codec::push_u32_le(out, pk.len() as u32);
            crate::codec::push_bytes(out, pk.as_slice());
            crate::codec::push_u32_le(out, fids.len() as u32);
            let ghost mid = out@;
            let n = fids.len();
            let mut i: usize = 0;
            while i < n
                invariant
                    i <= n,
                    n == fids@.len() == offsets@.len(),
                    out@ == mid + spec_encode_pairs(zip_pairs(fids@, offsets@).take(i as int)),
                decreases n - i,
            {
                crate::codec::push_u32_le(out, fids[i]);
                crate::codec::push_u64_le(out, offsets[i]);
                proof {
                    let zp = zip_pairs(fids@, offsets@);
                    assert(zp.take(i + 1int) =~= zp.take(i as int).push(zp[i as int]));
                    lemma_encode_pairs_push(zp.take(i as int), zp[i as int]);
                    assert(out@ =~= mid + spec_encode_pairs(zp.take(i + 1int)));
                }
                i = i + 1;
            }
            proof {
                let zp = zip_pairs(fids@, offsets@);
                assert(zp.take(n as int) =~= zp);
                assert(out@ =~= old(out)@ + spec_frame_record(op@));
            }
        },
        LogOp::DeleteFields { pk, fids } => {
            out.push(2u8);
            crate::codec::push_u32_le(out, pk.len() as u32);
            crate::codec::push_bytes(out, pk.as_slice());
            crate::codec::push_u32_le(out, fids.len() as u32);
            let ghost mid = out@;
            let n = fids.len();
            let mut i: usize = 0;
            while i < n
                invariant
                    i <= n,
                    n == fids@.len(),
                    out@ == mid + spec_encode_fids(fids@.take(i as int)),
                decreases n - i,
            {
                crate::codec::push_u32_le(out, fids[i]);
                proof {
                    assert(fids@.take(i + 1int) =~= fids@.take(i as int).push(fids@[i as int]));
                    lemma_encode_fids_push(fids@.take(i as int), fids@[i as int]);
                    assert(out@ =~= mid + spec_encode_fids(fids@.take(i + 1int)));
                }
                i = i + 1;
            }
            proof {
                assert(fids@.take(n as int) =~= fids@);
                assert(out@ =~= old(out)@ + spec_frame_record(op@));
            }
        },
        LogOp::DeleteDoc { pk } => {
            out.push(3u8);
            crate::codec::push_u32_le(out, pk.len() as u32);
            crate::codec::push_bytes(out, pk.as_slice());
            proof {
                assert(out@ =~= old(out)@ + spec_frame_record(op@));
            }
        },
    }
}

/// Every row of the table is short enough to be indexed by a field id.
pub open spec fn rows_bounded(m: Map<Seq<u8>, Seq<u64>>) -> bool {
    forall|pk: Seq<u8>| m.contains_key(pk) ==> (#[trigger] m[pk]).len() <= FIELD_ID_LIMIT
}

/// Every key of the table is a primary key the facade accepts: not
/// empty, and within the 64 KiB limit.
pub open spec fn keys_bounded(m: Map<Seq<u8>, Seq<u64>>) -> bool {
    forall|pk: Seq<u8>| #[trigger] m.contains_key(pk) ==> 1 <= pk.len() <= u16::MAX
}

/// Grow `row` with absent sentinels as needed and install `off` at `fid`.
pub fn row_set(row: &mut Vec<u64>, fid: u32, off: u64)
    requires
        fid < FIELD_ID_LIMIT,
        old(row)@.len() <= FIELD_ID_LIMIT,
    ensures
        final(row)@ == spec_row_set(old(row)@, fid, off),
        final(row)@.len() <= FIELD_ID_LIMIT,
    decreases
{
    let ghost r0 = row@;
    let target = fid as usize + 1;
    if row.len() < target {
        proof {
            assert(row@ =~= r0 + Seq::new(0nat, |i: int| ABSENT));
        }
        while row.len() < target
            invariant
                r0.len() <= row@.len() <= target <= FIELD_ID_LIMIT,
                row@ == r0 + Seq::new((row@.len() - r0.len()) as nat, |i: int| ABSENT),
            decreases target - row@.len(),
        {
            row.push(ABSENT);
            proof {
                assert(row@ =~= r0 + Seq::new((row@.len() - r0.len()) as nat, |i: int| ABSENT));
            }
        }
    }
    crate::maps::set_u64(row, fid as usize, off);
    proof {
        assert(final(row)@ =~= spec_row_set(r0, fid, off));
    }
}

/// Apply one record to the in-memory table, as replay does.
pub fn apply_op(t: &mut crate::maps::OffsetTable, op: &LogOp)
    requires
        old(t).wf(),
        wf_op(*op),
        wf_record(op@),
        rows_bounded(old(t)@),
        keys_bounded(old(t)@),
    ensures
        final(t).wf(),
        final(t)@ == spec_apply_record(old(t)@, op@),
        rows_bounded(final(t)@),
        keys_bounded(final(t)@),
{
    proof {
        crate::maps::lemma_seq_to_map(old(t).seq_view());
    }
    match op {
        LogOp::Update { pk, fids, offsets } => {
            let ghost pairs = zip_pairs(fids@, offsets@);
            let idx = t.index_of(pk.as_slice());
            let mut row: Vec<u64> = match idx {
                Some(i) => crate::maps::copy_row(t.row_at(i)),
                None => Vec::new(),
            };
            let ghost row0 = row@;
            proof {
                crate::maps::lemma_key_index(t.seq_view(), pk@);
                assert(pairs.skip(0int) =~= pairs);
            }
            let n = fids.len();
            let mut i: usize = 0;
            while i < n
                invariant
                    i <= n,
                    n == fids@.len() == offsets@.len(),
                    pairs == zip_pairs(fids@, offsets@),
                    row@.len() <= FIELD_ID_LIMIT,
                    forall|j: int|
                        0 <= j < pairs.len() ==> (#[trigger] pairs[j]).0 < FIELD_ID_LIMIT,
                    spec_row_upsert(row0, pairs) == spec_row_upsert(row@, pairs.skip(i as int)),
                decreases n - i,
            {
                proof {
                    assert(pairs.len() == fids@.len());
                    assert(pairs[i as int] == (fids@[i as int], offsets@[i as int]));
                    assert(pairs.skip(i as int)[0] == pairs[i as int]);
                    assert(pairs.skip(i as int).drop_first() =~= pairs.skip(i + 1int));
                }
                row_set(&mut row, fids[i], offsets[i]);
                i = i + 1;
            }
            proof {
                assert(pairs.skip(n as int) =~= Seq::<(u32, u64)>::empty());
                assert(spec_row_upsert(row0, pairs) == row@);
            }
            match idx {
                Some(i) => {
                    t.set_row(i, row);
                },
                None => {
                    t.push_row(crate::codec::copy_bytes(pk), row);
                },
            }
        },
        LogOp::DeleteFields { pk, fids } => {
            let idx = t.index_of(pk.as_slice());
            match idx {
                Some(i) => {
                    let mut row: Vec<u64> = crate::maps::copy_row(t.row_at(i));
                    let ghost row0 = row@;
                    proof {
                        crate::maps::lemma_key_index(t.seq_view(), pk@);
                        assert(fids@.skip(0int) =~= fids@);
                    }
                    let n = fids.len();
                    let mut j: usize = 0;
                    while j < n
                        invariant
                            j <= n,
                            n == fids@.len(),
                            row@.len() == row0.len(),
                            spec_row_delete(row0, fids@) == spec_row_delete(
                                row@,
                                fids@.skip(j as int),
                            ),
                        decreases n - j,
                    {
                        proof {
                            assert(fids@.skip(j as int)[0] == fids@[j as int]);
                            assert(fids@.skip(j as int).drop_first() =~= fids@.skip(j + 1int));
                        }
                        let fid = fids[j];
                        if (fid as usize) < row.len() {
                            crate::maps::set_u64(&mut row, fid as usize, ABSENT);
                        }
                        j = j + 1;
                    }
                    proof {
                        assert(fids@.skip(n as int) =~= Seq::<u32>::empty());
                        assert(spec_row_delete(row0, fids@) == row@);
                    }
                    t.set_row(i, row);
                },
                None => {
                    proof {
                        crate::maps::lemma_key_index(t.seq_view(), pk@);
                    }
                },
            }
        },
        LogOp::DeleteDoc { pk } => {
            t.remove(pk.as_slice());
        },
    }
}



/// Parse the record body at `start .. start + len` of `bytes`.
fn parse_record(bytes: &Vec<u8>, start: usize, len: usize) -> (r: Option<LogOp>)
    requires
        start + len <= bytes@.len(),
    ensures
        ({
            let sub = bytes@.subrange(start as int, start + len);
            match r {
                Some(op) => wf_op(op) && spec_parse_record(sub) == Some(op@),
                None => spec_parse_record(sub) is None,
            }
        }),
{
    let total = bytes.len();
    let ghost sub = bytes@.subrange(start as int, start + len);
    if len < 5 {
        return None;
    }
    let op_byte = bytes[start];
    proof {
        assert(sub[0] == op_byte);
    }
    let pk_len32 = crate::codec::read_u32_le(bytes.as_slice(), start + 1);
    proof {
        assert(sub.subrange(1, 5) =~= bytes@.subrange(start + 1, start + 5));
    }
    if pk_len32 == 0 || pk_len32 > u16::MAX as u32 {
        return None;
    }
    let pk_len = pk_len32 as usize;
    if pk_len > len - 5 {
        return None;
    }
    let pk_slice = vstd::slice::slice_subrange(bytes.as_slice(), start + 5, start + 5 + pk_len);
    let mut pk: Vec<u8> = Vec::new();
    crate::codec::push_bytes(&mut pk, pk_slice);
    proof {
        assert(pk@ =~= sub.subrange(5, 5 + pk_len as int));
    }
    if op_byte == 3 {
        if len == 5 + pk_len {
            Some(LogOp::DeleteDoc { pk })
        } else {
            None
        }
    } else if op_byte == 1 || op_byte == 2 {
        if len < 9 || pk_len > len - 9 {
            return None;
        }
        let n32 = crate::codec::read_u32_le(bytes.as_slice(), start + 5 + pk_len);
        proof {
            assert(sub.subrange(5 + pk_len as int, 9 + pk_len as int) =~= bytes@.subrange(
                start + 5 + pk_len,
                start + 9 + pk_len,
            ));
        }
        if n32 > MAX_RECORD_FIELDS {
            return None;
        }
        let n = n32 as usize;
        let rest_len = len - 9 - pk_len;
        let ghost tail0 = sub.skip(9 + pk_len as int);
        proof {
            assert(tail0.len() == rest_len);
        }
        if op_byte == 1 {
            if rest_len != 12 * n {
                proof {
                    if spec_parse_pairs(tail0, n32 as nat) is Some {
                        lemma_parse_pairs_exact(tail0, n32 as nat);
                        lemma_encode_pairs_len(spec_parse_pairs(tail0, n32 as nat)->Some_0);
                    }
                }
                return None;
            }
            let mut fids: Vec<u32> = Vec::new();
            let mut offsets: Vec<u64> = Vec::new();
            let mut i: usize = 0;
            while i < n
                invariant
                    i <= n,
                    n == n32,
                    n <= MAX_RECORD_FIELDS,
                    fids@.len() == i,
                    offsets@.len() == i,
                    pk_len <= u16::MAX,
                    9 + pk_len + 12 * n == len,
                    start + len <= total,
                    total == bytes@.len(),
                    sub == bytes@.subrange(start as int, start + len),
                    tail0 == sub.skip(9 + pk_len as int),
                    tail0.len() == 12 * n,
                    pk@ == sub.subrange(5, 5 + pk_len as int),
                    spec_parse_record(sub) == (match spec_parse_pairs(tail0, n as nat) {
                        None => None::<LogRecord>,
                        Some(ps) => Some(
                            LogRecord::Update { pk: sub.subrange(5, 5 + pk_len as int), pairs: ps },
                        ),
                    }),
                    spec_parse_pairs(tail0, n as nat) == (match spec_parse_pairs(
                        sub.skip(9 + pk_len + 12 * i),
                        (n - i) as nat,
                    ) {
                        None => None::<Seq<(u32, u64)>>,
                        Some(rest) => Some(zip_pairs(fids@, offsets@) + rest),
                    }),
                decreases n - i,
            {
                let ghost tail_i = sub.skip(9 + pk_len + 12 * i);
                let p = start + 9 + pk_len + 12 * i;
                let fid = crate::codec::read_u32_le(bytes.as_slice(), p);
                let off = crate::codec::read_u64_le(bytes.as_slice(), p + 4);
                proof {
                    assert(tail_i.len() == 12 * (n - i));
                    assert(tail_i.subrange(0, 4) =~= bytes@.subrange(p as int, p + 4));
                    assert(tail_i.subrange(4, 12) =~= bytes@.subrange(p + 4, p + 12));
                }
                if fid >= FIELD_ID_LIMIT {
                    return None;
                }
                let ghost old_fids = fids@;
                let ghost old_offsets = offsets@;
                fids.push(fid);
                offsets.push(off);
                i = i + 1;
                proof {
                    assert(tail_i.skip(12) =~= sub.skip(9 + pk_len + 12 * i));
                    assert(zip_pairs(fids@, offsets@) =~= zip_pairs(old_fids, old_offsets).push(
                        (fid, off),
                    ));
                    match spec_parse_pairs(sub.skip(9 + pk_len + 12 * i), (n - i) as nat) {
                        None => {},
                        Some(rest2) => {
                            assert(zip_pairs(old_fids, old_offsets) + (seq![(fid, off)] + rest2)
                                =~= zip_pairs(fids@, offsets@) + rest2);
                        },
                    }
                }
            }
            proof {
                assert(sub.skip(9 + pk_len + 12 * i).len() == 0);
                assert(spec_parse_pairs(sub.skip(9 + pk_len + 12 * i), 0nat) == Some(
                    Seq::<(u32, u64)>::empty(),
                ));
                assert(zip_pairs(fids@, offsets@) + Seq::<(u32, u64)>::empty() =~= zip_pairs(
                    fids@,
                    offsets@,
                ));
            }
            Some(LogOp::Update { pk, fids, offsets })
        } else {
            if rest_len != 4 * n {
                proof {
                    if spec_parse_fids(tail0, n32 as nat) is Some {
                        lemma_parse_fids_exact(tail0, n32 as nat);
                        lemma_encode_fids_len(spec_parse_fids(tail0, n32 as nat)->Some_0);
                    }
                }
                return None;
            }
            let mut fids: Vec<u32> = Vec::new();
            let mut i: usize = 0;
            while i < n
                invariant
                    i <= n,
                    n == n32,
                    n <= MAX_RECORD_FIELDS,
                    fids@.len() == i,
                    pk_len <= u16::MAX,
                    9 + pk_len + 4 * n == len,
                    start + len <= total,
                    total == bytes@.len(),
                    sub == bytes@.subrange(start as int, start + len),
                    tail0 == sub.skip(9 + pk_len as int),
                    tail0.len() == 4 * n,
                    pk@ == sub.subrange(5, 5 + pk_len as int),
                    spec_parse_record(sub) == (match spec_parse_fids(tail0, n as nat) {
                        None => None::<LogRecord>,
                        Some(fs) => Some(
                            LogRecord::DeleteFields {
                                pk: sub.subrange(5, 5 + pk_len as int),
                                fids: fs,
                            },
                        ),
                    }),
                    spec_parse_fids(tail0, n as nat) == (match spec_parse_fids(
                        sub.skip(9 + pk_len + 4 * i),
                        (n - i) as nat,
                    ) {
                        None => None::<Seq<u32>>,
                        Some(rest) => Some(fids@ + rest),
                    }),
                decreases n - i,
            {
                let ghost tail_i = sub.skip(9 + pk_len + 4 * i);
                let p = start + 9 + pk_len + 4 * i;
                let fid = crate::codec::read_u32_le(bytes.as_slice(), p);
                proof {
                    assert(tail_i.len() == 4 * (n - i));
                    assert(tail_i.subrange(0, 4) =~= bytes@.subrange(p as int, p + 4));
                }
                if fid >= FIELD_ID_LIMIT {
                    return None;
                }
                let ghost old_fids = fids@;
                fids.push(fid);
                i = i + 1;
                proof {
                    assert(tail_i.skip(4) =~= sub.skip(9 + pk_len + 4 * i));
                    assert(fids@ =~= old_fids.push(fid));
                    match spec_parse_fids(sub.skip(9 + pk_len + 4 * i), (n - i) as nat) {
                        None => {},
                        Some(rest2) => {
                            assert(old_fids + (seq![fid] + rest2) =~= fids@ + rest2);
                        },
                    }
                }
            }
            proof {
                assert(sub.skip(9 + pk_len + 4 * i).len() == 0);
                assert(spec_parse_fids(sub.skip(9 + pk_len + 4 * i), 0nat) == Some(
                    Seq::<u32>::empty(),
                ));
                assert(fids@ + Seq::<u32>::empty() =~= fids@);
            }
            Some(LogOp::DeleteFields { pk, fids })
        }
    } else {
        None
    }
}

/// Rebuild a shard's offset table from its operation log, under the
/// recovery policy: stop cleanly at a trailing incomplete length prefix,
/// reject anything else that does not parse. On success the table is the
/// replay of the recovered records, and the returned count says how many
/// bytes of the file they occupy.
pub fn replay_log(bytes: &Vec<u8>) -> (r: Option<(crate::maps::OffsetTable, usize)>)
    ensures
        match r {
            Some(p) => {
                &&& spec_recover_log(bytes@) matches Some(rs)
                &&& p.0@ == spec_replay(spec_recover_log(bytes@)->Some_0)
                &&& p.0.wf()
                &&& rows_bounded(p.0@)
                &&& keys_bounded(p.0@)
                &&& p.1 == spec_recover_consumed(bytes@)
                &&& p.1 <= bytes@.len()
            },
            None => spec_recover_log(bytes@) is None,
        },
{
    let mut t = crate::maps::OffsetTable::new();
    let mut pos: usize = 0;
    let ghost mut done: Seq<LogRecord> = Seq::empty();
    let n = bytes.len();
    proof {
        assert(bytes@.skip(0int) =~= bytes@);
        assert(t@ =~= spec_replay(done));
    }
    loop
        invariant
            pos <= n,
            n == bytes@.len(),
            t.wf(),
            rows_bounded(t@),
            keys_bounded(t@),
            t@ == spec_replay(done),
            spec_recover_log(bytes@) == (match spec_recover_log(bytes@.skip(pos as int)) {
                None => None::<Seq<LogRecord>>,
                Some(rest) => Some(done + rest),
            }),
            spec_recover_consumed(bytes@) == pos + spec_recover_consumed(bytes@.skip(pos as int)),
        decreases n - pos,
    {
        let ghost tail = bytes@.skip(pos as int);
        if n - pos < 4 {
            proof {
                assert(spec_recover_log(tail) == Some(Seq::<LogRecord>::empty()));
                assert(done + Seq::<LogRecord>::empty() =~= done);
            }
            return Some((t, pos));
        }
        let l32 = crate::codec::read_u32_le(bytes.as_slice(), pos);
        proof {
            assert(tail.subrange(0, 4) =~= bytes@.subrange(pos as int, pos + 4));
        }
        if l32 > i32::MAX as u32 {
            return None;
        }
        let l = l32 as usize;
        if l > n - pos - 4 {
            return None;
        }
        proof {
            assert(tail.subrange(4, 4 + l as int) =~= bytes@.subrange(pos + 4, pos + 4 + l));
        }
        match parse_record(bytes, pos + 4, l) {
            None => {
                return None;
            },
            Some(op) => {
                proof {
                    lemma_parse_record_exact(tail.subrange(4, 4 + l as int));
                    lemma_replay_push(Map::empty(), done, op@);
                }
                apply_op(&mut t, &op);
                proof {
                    assert(tail.skip(4 + l as int) =~= bytes@.skip(pos + 4 + l));
                    match spec_recover_log(bytes@.skip(pos + 4 + l)) {
                        None => {},
                        Some(rest2) => {
                            assert(done + (seq![op@] + rest2) =~= done.push(op@) + rest2);
                        },
                    }
                    done = done.push(op@);
                }
                pos = pos + 4 + l;
            },
        }
    }
}



/// The index of the last pair naming field `f`, or `-1`.
pub open spec fn last_pair(pairs: Seq<(u32, u64)>, f: u32) -> int
    decreases pairs.len(),
{
    if pairs.len() == 0 {
        -1
    } else {
        let r = last_pair(pairs.drop_first(), f);
        if r >= 0 {
            r + 1
        } else if pairs[0].0 == f {
            0
        } else {
            -1
        }
    }
}

/// `last_pair` lands on a pair naming `f`.
pub proof fn lemma_last_pair(pairs: Seq<(u32, u64)>, f: u32)
    ensures
        -1 <= last_pair(pairs, f) < pairs.len(),
        last_pair(pairs, f) >= 0 ==> pairs[last_pair(pairs, f)].0 == f,
        last_pair(pairs, f) == -1 ==> forall|j: int|
            0 <= j < pairs.len() ==> (#[trigger] pairs[j]).0 != f,
    decreases pairs.len(),
{
    if pairs.len() > 0 {
        lemma_last_pair(pairs.drop_first(), f);
        if last_pair(pairs, f) == -1 {
            assert forall|j: int| 0 <= j < pairs.len() implies (#[trigger] pairs[j]).0 != f by {
                if j > 0 {
                    assert(pairs.drop_first()[j - 1] == pairs[j]);
                }
            }
        }
    }
}

/// What a run of updates leaves in a row: for each field, the offset of
/// the last pair that named it, else what the row held, else absent.
pub proof fn lemma_row_upsert_char(row: Seq<u64>, pairs: Seq<(u32, u64)>)
    ensures
        row.len() <= spec_row_upsert(row, pairs).len(),
        forall|j: int|
            0 <= j < pairs.len() ==> (#[trigger] pairs[j]).0 < spec_row_upsert(row, pairs).len(),
        forall|f: u32|
            f < spec_row_upsert(row, pairs).len() ==> #[trigger] spec_row_upsert(row, pairs)[
                f as int] == (if last_pair(pairs, f) >= 0 {
                pairs[last_pair(pairs, f)].1
            } else if f < row.len() {
                row[f as int]
            } else {
                ABSENT
            }),
        spec_row_upsert(row, pairs).len() <= FIELD_ID_LIMIT || !(row.len() <= FIELD_ID_LIMIT
            && (forall|j: int|
            0 <= j < pairs.len() ==> (#[trigger] pairs[j]).0 < FIELD_ID_LIMIT)),
    decreases pairs.len(),
{
    if pairs.len() > 0 {
        let fid0 = pairs[0].0;
        let off0 = pairs[0].1;
        let row1 = spec_row_set(row, fid0, off0);
        let rest = pairs.drop_first();
        lemma_row_upsert_char(row1, rest);
        let res = spec_row_upsert(row, pairs);
        assert(res == spec_row_upsert(row1, rest));
        assert(row.len() <= row1.len());
        assert(fid0 < row1.len());
        assert forall|j: int| 0 <= j < pairs.len() implies (#[trigger] pairs[j]).0 < res.len() by {
            if j > 0 {
                assert(rest[j - 1] == pairs[j]);
            }
        }
        assert forall|f: u32| f < res.len() implies #[trigger] res[f as int] == (if last_pair(
            pairs,
            f,
        ) >= 0 {
            pairs[last_pair(pairs, f)].1
        } else if f < row.len() {
            row[f as int]
        } else {
            ABSENT
        }) by {
            let lr = last_pair(rest, f);
            lemma_last_pair(rest, f);
            if lr >= 0 {
                assert(rest[lr] == pairs[lr + 1]);
                assert(last_pair(pairs, f) == lr + 1);
            } else {
                lemma_last_pair(rest, f);
                if f == fid0 {
                    assert(last_pair(pairs, f) == 0);
                    assert(f < row1.len());
                    assert(row1[f as int] == off0);
                } else {
                    assert(last_pair(pairs, f) == -1);
                    if f < row1.len() {
                        assert(res[f as int] == row1[f as int]);
                        if f < row.len() {
                            assert(row1[f as int] == row[f as int]);
                        } else {
                            assert(row1[f as int] == ABSENT);
                        }
                    }
                }
            }
        }
    }
}

/// Does some id in the list name row position `f`?
pub open spec fn fid_in(fids: Seq<u32>, f: int) -> bool {
    exists|j: int| 0 <= j < fids.len() && fids[j] as int == f
}

/// What a field delete leaves in a row: absent where a listed id reaches
/// the row, untouched elsewhere; the row never changes length.
pub proof fn lemma_row_delete_char(row: Seq<u64>, fids: Seq<u32>)
    ensures
        spec_row_delete(row, fids).len() == row.len(),
        forall|f: int|
            0 <= f < row.len() ==> #[trigger] spec_row_delete(row, fids)[f] == (if fid_in(
                fids,
                f,
            ) {
                ABSENT
            } else {
                row[f]
            }),
    decreases fids.len(),
{
    if fids.len() > 0 {
        let f0 = fids[0];
        let row1 = if f0 < row.len() {
            row.update(f0 as int, ABSENT)
        } else {
            row
        };
        let rest = fids.drop_first();
        lemma_row_delete_char(row1, rest);
        let res = spec_row_delete(row, fids);
        assert forall|f: int| 0 <= f < row.len() implies #[trigger] res[f] == (if fid_in(fids, f) {
            ABSENT
        } else {
            row[f]
        }) by {
            if fid_in(rest, f) {
                let j = choose|j: int| 0 <= j < rest.len() && rest[j] as int == f;
                assert(rest[j] == fids[j + 1]);
                assert(fid_in(fids, f));
            } else if f0 as int == f {
                assert(fid_in(fids, f)) by {
                    assert(fids[0] as int == f);
                }
                assert(row1[f] == ABSENT);
            } else {
                if fid_in(fids, f) {
                    let j = choose|j: int| 0 <= j < fids.len() && fids[j] as int == f;
                    assert(j > 0);
                    assert(rest[j - 1] == fids[j]);
                    assert(fid_in(rest, f));
                }
                assert(!fid_in(fids, f));
                assert(row1[f] == row[f]);
            }
        }
    }
}



/// The offset the log's history leaves for `(pk, f)`: the offset
/// installed by the most recent update record that named `f` for `pk`,
/// unless a document delete or a field delete naming `f` came later, or
/// no such update exists.
pub open spec fn spec_last_write(rs: Seq<LogRecord>, pk: Seq<u8>, f: u32) -> Option<u64>
    decreases rs.len(),
{
    if rs.len() == 0 {
        None
    } else {
        match rs.last() {
            LogRecord::DeleteDoc { pk: p } => if p == pk {
                None
            } else {
                spec_last_write(rs.drop_last(), pk, f)
            },
            LogRecord::DeleteFields { pk: p, fids } => if p == pk && fid_in(fids, f as int) {
                None
            } else {
                spec_last_write(rs.drop_last(), pk, f)
            },
            LogRecord::Update { pk: p, pairs } => if p == pk && last_pair(pairs, f) >= 0 {
                Some(pairs[last_pair(pairs, f)].1)
            } else {
                spec_last_write(rs.drop_last(), pk, f)
            },
        }
    }
}

/// The most-recent-write law over a whole operation history: replaying
/// any record sequence leaves, in the cell for `(pk, f)`, exactly the
/// offset of the most recent update naming `f` for `pk` since the most
/// recent delete that covered it — and the absent sentinel where no
/// such update exists.
pub proof fn lemma_replay_most_recent_write(rs: Seq<LogRecord>, pk: Seq<u8>, f: u32)
    ensures
        ({
            let t = spec_replay(rs);
            let raw = if t.contains_key(pk) && f < t[pk].len() {
                t[pk][f as int]
            } else {
                ABSENT
            };
            raw == (match spec_last_write(rs, pk, f) {
                Some(o) => o,
                None => ABSENT,
            })
        }),
    decreases rs.len(),
{
    if rs.len() > 0 {
        let prefix = rs.drop_last();
        let last = rs.last();
        lemma_replay_most_recent_write(prefix, pk, f);
        lemma_replay_push(Map::empty(), prefix, last);
        assert(prefix.push(last) =~= rs);
        let t1 = spec_replay(prefix);
        let t2 = spec_replay(rs);
        assert(t2 == spec_apply_record(t1, last));
        match last {
            LogRecord::DeleteDoc { pk: p } => {},
            LogRecord::DeleteFields { pk: p, fids } => {
                if t1.contains_key(p) {
                    lemma_row_delete_char(t1[p], fids);
                }
            },
            LogRecord::Update { pk: p, pairs } => {
                let base: Seq<u64> = if t1.contains_key(p) {
                    t1[p]
                } else {
                    Seq::empty()
                };
                lemma_row_upsert_char(base, pairs);
                lemma_last_pair(pairs, f);
                if p == pk && last_pair(pairs, f) >= 0 {
                    let lp = last_pair(pairs, f);
                    assert(pairs[lp].0 == f);
                    assert(f < spec_row_upsert(base, pairs).len());
                    assert(spec_row_upsert(base, pairs)[f as int] == pairs[lp].1);
                }
            },
        }
    }
}


} // verus!
