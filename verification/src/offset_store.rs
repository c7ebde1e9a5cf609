//! The consumed-offset store: the last persisted position of the write
//! event log, per (topic, partition).

use vstd::prelude::*;
use vstd::bytes::{spec_u32_to_le_bytes, spec_u64_to_le_bytes, spec_u32_from_le_bytes, spec_u64_from_le_bytes};
use vstd::utf8::{encode_utf8, valid_utf8, decode_utf8};
use vstd::string::StrSliceExecFns;
use crate::codec::{push_u32_le, push_u64_le, push_bytes, read_u32_le, read_u64_le, lemma_le_roundtrips, bytes_to_string};
use crate::error::IndexError;

verus! {

/// One persisted position.
#[derive(Debug)]
pub struct KafkaOffsetStoreEntry {
    pub topic: String,
    pub partition: i32,
    pub offset: i64,
}

/// The mathematical view of an entry.
pub ghost struct OffsetEntryView {
    pub topic: Seq<char>,
    pub partition: i32,
    pub offset: i64,
}

impl View for KafkaOffsetStoreEntry {
    type V = OffsetEntryView;

    open spec fn view(&self) -> OffsetEntryView {
        OffsetEntryView { topic: self.topic@, partition: self.partition, offset: self.offset }
    }
}

/// An entry the store can persist: its topic fits the file format.
pub open spec fn wf_offset_entry(e: OffsetEntryView) -> bool {
    encode_utf8(e.topic).len() <= u32::MAX
}

/// The serialized entry list: for each entry the topic's UTF-8 length,
/// the topic, the partition, and the offset, all little-endian.
pub open spec fn spec_encode_offsets(s: Seq<OffsetEntryView>) -> Seq<u8>
    decreases s.len(),
{
    if s.len() == 0 {
        Seq::empty()
    } else {
        spec_u32_to_le_bytes(encode_utf8(s[0].topic).len() as u32) + encode_utf8(s[0].topic)
            + spec_u32_to_le_bytes(s[0].partition as u32) + spec_u64_to_le_bytes(
            s[0].offset as u64,
        ) + spec_encode_offsets(s.drop_first())
    }
}

/// The whole file: the count, then the entries.
pub open spec fn spec_encode_offsets_file(s: Seq<OffsetEntryView>) -> Seq<u8> {
    spec_u32_to_le_bytes(s.len() as u32) + spec_encode_offsets(s)
}

pub proof fn lemma_encode_offsets_push(s: Seq<OffsetEntryView>, e: OffsetEntryView)
    ensures
        spec_encode_offsets(s.push(e)) == spec_encode_offsets(s) + (spec_u32_to_le_bytes(
            encode_utf8(e.topic).len() as u32,
        ) + encode_utf8(e.topic) + spec_u32_to_le_bytes(e.partition as u32)
            + spec_u64_to_le_bytes(e.offset as u64)),
    decreases s.len(),
{
    lemma_le_roundtrips();
    if s.len() == 0 {
        assert(s.push(e)[0] == e);
        assert(s.push(e).drop_first() =~= Seq::<OffsetEntryView>::empty());
        assert(spec_encode_offsets(s.push(e).drop_first()) =~= Seq::<u8>::empty());
        assert(spec_encode_offsets(s) =~= Seq::<u8>::empty());
        assert(spec_encode_offsets(s.push(e)) =~= spec_encode_offsets(s) + (spec_u32_to_le_bytes(
            encode_utf8(e.topic).len() as u32,
        ) + encode_utf8(e.topic) + spec_u32_to_le_bytes(e.partition as u32)
            + spec_u64_to_le_bytes(e.offset as u64)));
    } else {
        assert(s.push(e)[0] == s[0]);
        assert(s.push(e).drop_first() =~= s.drop_first().push(e));
        lemma_encode_offsets_push(s.drop_first(), e);
        assert(spec_encode_offsets(s.push(e)) =~= spec_encode_offsets(s) + (spec_u32_to_le_bytes(
            encode_utf8(e.topic).len() as u32,
        ) + encode_utf8(e.topic) + spec_u32_to_le_bytes(e.partition as u32)
            + spec_u64_to_le_bytes(e.offset as u64)));
    }
}

/// Parse `n` entries, consuming the bytes exactly.
pub open spec fn spec_parse_offset_entries(s: Seq<u8>, n: nat) -> Option<Seq<OffsetEntryView>>
    decreases n,
{
    if n == 0 {
        if s.len() == 0 {
            Some(Seq::empty())
        } else {
            None
        }
    } else if s.len() < 4 {
        None
    } else {
        let tl = spec_u32_from_le_bytes(s.subrange(0, 4));
        if 4 + tl + 12 > s.len() {
            None
        } else {
            let tb = s.subrange(4, 4 + tl);
            if !valid_utf8(tb) {
                None
            } else {
                let e = OffsetEntryView {
                    topic: decode_utf8(tb),
                    partition: spec_u32_from_le_bytes(s.subrange(4 + tl, 8 + tl)) as i32,
                    offset: spec_u64_from_le_bytes(s.subrange(8 + tl, 16 + tl)) as i64,
                };
                match spec_parse_offset_entries(s.skip(16 + tl), (n - 1) as nat) {
                    None => None,
                    Some(rest) => Some(seq![e] + rest),
                }
            }
        }
    }
}

/// Parse the offsets file; an empty file holds no entries.
pub open spec fn spec_parse_offsets(b: Seq<u8>) -> Option<Seq<OffsetEntryView>> {
    if b.len() == 0 {
        Some(Seq::empty())
    } else if b.len() < 4 {
        None
    } else {
        let n = spec_u32_from_le_bytes(b.subrange(0, 4));
        spec_parse_offset_entries(b.skip(4), n as nat)
    }
}

proof fn lemma_parse_offset_entries_roundtrip(s: Seq<OffsetEntryView>)
    requires
        forall|i: int| 0 <= i < s.len() ==> wf_offset_entry(#[trigger] s[i]),
    ensures
        spec_parse_offset_entries(spec_encode_offsets(s), s.len() as nat) == Some(s),
    decreases s.len(),
{
    lemma_le_roundtrips();
    if s.len() > 0 {
        let e = s[0];
        let tb = encode_utf8(e.topic);
        let tl = tb.len() as int;
        let enc = spec_encode_offsets(s);
        let rest = spec_encode_offsets(s.drop_first());
        assert(enc == spec_u32_to_le_bytes(tl as u32) + tb + spec_u32_to_le_bytes(
            e.partition as u32,
        ) + spec_u64_to_le_bytes(e.offset as u64) + rest);
        assert(enc.subrange(0, 4) =~= spec_u32_to_le_bytes(tl as u32));
        assert(enc.subrange(4, 4 + tl) =~= tb);
        vstd::utf8::encode_utf8_valid_utf8(e.topic);
        vstd::utf8::encode_utf8_decode_utf8(e.topic);
        assert(enc.subrange(4 + tl, 8 + tl) =~= spec_u32_to_le_bytes(e.partition as u32));
        assert(enc.subrange(8 + tl, 16 + tl) =~= spec_u64_to_le_bytes(e.offset as u64));
        assert(enc.skip(16 + tl) =~= rest);
        lemma_parse_offset_entries_roundtrip(s.drop_first());
        let pv = e.partition;
        let ov = e.offset;
        assert((pv as u32) as i32 == pv) by (bit_vector);
        assert((ov as u64) as i64 == ov) by (bit_vector);
        assert(OffsetEntryView {
            topic: decode_utf8(enc.subrange(4, 4 + tl)),
            partition: spec_u32_from_le_bytes(enc.subrange(4 + tl, 8 + tl)) as i32,
            offset: spec_u64_from_le_bytes(enc.subrange(8 + tl, 16 + tl)) as i64,
        } == e);
        assert(seq![e] + s.drop_first() =~= s);
    }
}

/// What the store wrote, a later read parses back.
pub proof fn lemma_offsets_roundtrip(s: Seq<OffsetEntryView>)
    requires
        forall|i: int| 0 <= i < s.len() ==> wf_offset_entry(#[trigger] s[i]),
        s.len() <= u32::MAX,
    ensures
        spec_parse_offsets(spec_encode_offsets_file(s)) == Some(s),
{
    lemma_le_roundtrips();
    let b = spec_encode_offsets_file(s);
    assert(b.subrange(0, 4) =~= spec_u32_to_le_bytes(s.len() as u32));
    assert(b.skip(4) =~= spec_encode_offsets(s));
    lemma_parse_offset_entries_roundtrip(s);
}

/// Holds the offsets file; an empty file means no offsets yet.
pub struct OffsetStore {
    file: Vec<u8>,
}

impl OffsetStore {
    /// The file image.
    pub closed spec fn file_bytes(self) -> Seq<u8> {
        self.file@
    }

    /// Open the offsets file, or start with an empty one.
    pub fn open_or_create(file: Option<Vec<u8>>) -> (r: OffsetStore)
        ensures
            match file {
                None => r.file_bytes() == Seq::<u8>::empty(),
                Some(b) => r.file_bytes() == b@,
            },
    {
        match file {
            None => OffsetStore { file: Vec::new() },
            Some(b) => OffsetStore { file: b },
        }
    }

    /// Is no offsets file present?
    pub fn index_not_present(file: &Option<Vec<u8>>) -> (r: bool)
        ensures
            r == (file is None),
    {
        file.is_none()
    }

    /// An offsets file must be present for the index to be valid.
    pub fn is_valid_index(file: &Option<Vec<u8>>) -> (r: Result<(), IndexError>)
        ensures
            r is Ok <==> file is Some,
    {
        match file {
            Some(_) => Ok(()),
            None => Err(
                IndexError::SystemError(String::from_str("offset store index not present")),
            ),
        }
    }

    /// Overwrite the file with the serialized entries.
    pub fn write_all_offsets(&mut self, entries: &Vec<KafkaOffsetStoreEntry>) -> (r: Result<
        (),
        IndexError,
    >)
        requires
            forall|i: int| 0 <= i < entries@.len() ==> wf_offset_entry((#[trigger] entries@[i])@),
            entries@.len() <= u32::MAX,
        ensures
            r is Ok,
            final(self).file_bytes() == spec_encode_offsets_file(
                entries@.map(|i: int, e: KafkaOffsetStoreEntry| e@),
            ),
    {
        proof {
            lemma_le_roundtrips();
        }
        let ghost views = entries@.map(|i: int, e: KafkaOffsetStoreEntry| e@);
        let mut out: Vec<u8> = Vec::new();
        let n = entries.len();
        push_u32_le(&mut out, n as u32);
        let ghost base = out@;
        let mut i: usize = 0;
        proof {
            assert(views.take(0int) =~= Seq::<OffsetEntryView>::empty());
            assert(spec_encode_offsets(views.take(0int)) =~= Seq::<u8>::empty());
            assert(out@ =~= base + spec_encode_offsets(views.take(0int)));
        }
        while i < n
            invariant
                i <= n,
                n == entries@.len(),
                n <= u32::MAX,
                views == entries@.map(|q: int, e: KafkaOffsetStoreEntry| e@),
                forall|q: int|
                    0 <= q < entries@.len() ==> wf_offset_entry((#[trigger] entries@[q])@),
                out@ == base + spec_encode_offsets(views.take(i as int)),
            decreases n - i,
        {
            let topic_bytes = entries[i].topic.as_str().as_bytes_vec();
            proof {
                assert(views[i as int] == entries@[i as int]@);
            }
            push_u32_le(&mut out, topic_bytes.len() as u32);
            push_bytes(&mut out, topic_bytes.as_slice());
            push_u32_le(&mut out, entries[i].partition as u32);
            push_u64_le(&mut out, entries[i].offset as u64);
            proof {
                assert(views.take(i + 1int) =~= views.take(i as int).push(views[i as int]));
                lemma_encode_offsets_push(views.take(i as int), views[i as int]);
                assert(out@ =~= base + spec_encode_offsets(views.take(i + 1int)));
            }
            i = i + 1;
        }
        proof {
            assert(views.take(n as int) =~= views);
        }
        self.file = out;
        Ok(())
    }

    /// Read every persisted entry; an empty file reads as no entries,
    /// anything else must parse whole.
    pub fn read_all_offsets(&self) -> (r: Result<Vec<KafkaOffsetStoreEntry>, IndexError>)
        ensures
            match r {
                Ok(v) => spec_parse_offsets(self.file_bytes()) == Some(
                    v@.map(|i: int, e: KafkaOffsetStoreEntry| e@),
                ),
                Err(e) => spec_parse_offsets(self.file_bytes()) is None,
            },
    {
        proof {
            lemma_le_roundtrips();
        }
        let total = self.file.len();
        if total == 0 {
            let empty: Vec<KafkaOffsetStoreEntry> = Vec::new();
            proof {
                assert(empty@.map(|i: int, e: KafkaOffsetStoreEntry| e@) =~= Seq::<
                    OffsetEntryView,
                >::empty());
            }
            return Ok(empty);
        }
        if total < 4 {
            return Err(
                IndexError::SystemError(String::from_str("offset store does not parse")),
            );
        }
        let n32 = read_u32_le(self.file.as_slice(), 0);
        proof {
            assert(self.file@.subrange(0int, 4int) == self.file@.subrange(0, 4));
        }
        let n = n32 as usize;
        let mut out: Vec<KafkaOffsetStoreEntry> = Vec::new();
        let mut pos: usize = 4;
        let mut i: usize = 0;
        proof {
            assert(out@.map(|q: int, e: KafkaOffsetStoreEntry| e@) =~= Seq::<
                OffsetEntryView,
            >::empty());
            match spec_parse_offset_entries(self.file@.skip(4int), n as nat) {
                None => {},
                Some(rest) => {
                    assert(out@.map(|q: int, e: KafkaOffsetStoreEntry| e@) + rest =~= rest);
                },
            }
        }
        while i < n
            invariant
                i <= n,
                n == n32,
                n <= u32::MAX,
                total == self.file_bytes().len(),
                4 <= pos <= total,
                out@.len() == i,
                spec_parse_offsets(self.file_bytes()) == (match spec_parse_offset_entries(
                    self.file_bytes().skip(pos as int),
                    (n - i) as nat,
                ) {
                    None => None::<Seq<OffsetEntryView>>,
                    Some(rest) => Some(
                        out@.map(|q: int, e: KafkaOffsetStoreEntry| e@) + rest,
                    ),
                }),
            decreases n - i,
        {
            let ghost tail_i = self.file@.skip(pos as int);
            if total - pos < 4 {
                return Err(
                    IndexError::SystemError(String::from_str("offset store does not parse")),
                );
            }
            let tl32 = read_u32_le(self.file.as_slice(), pos);
            proof {
                assert(tail_i.subrange(0, 4) =~= self.file@.subrange(pos as int, pos + 4));
            }
            let tl = tl32 as usize;
            if tl > total - pos - 4 || 12 > total - pos - 4 - tl {
                return Err(
                    IndexError::SystemError(String::from_str("offset store does not parse")),
                );
            }
            let tb = vstd::slice::slice_subrange(self.file.as_slice(), pos + 4, pos + 4 + tl);
            let mut topic_bytes: Vec<u8> = Vec::new();
            push_bytes(&mut topic_bytes, tb);
            proof {
                assert(topic_bytes@ =~= tail_i.subrange(4, 4 + tl as int));
            }
            let topic = match bytes_to_string(topic_bytes) {
                None => {
                    return Err(
                        IndexError::SystemError(String::from_str("offset store does not parse")),
                    );
                },
                Some(t) => t,
            };
            let partition = read_u32_le(self.file.as_slice(), pos + 4 + tl) as i32;
            let offset = read_u64_le(self.file.as_slice(), pos + 8 + tl) as i64;
            proof {
                assert(tail_i.subrange(4 + tl as int, 8 + tl as int) =~= self.file@.subrange(
                    pos + 4 + tl,
                    pos + 8 + tl,
                ));
                assert(tail_i.subrange(8 + tl as int, 16 + tl as int) =~= self.file@.subrange(
                    pos + 8 + tl,
                    pos + 16 + tl,
                ));
            }
            let ghost old_out = out@;
            out.push(KafkaOffsetStoreEntry { topic, partition, offset });
            proof {
                vstd::utf8::encode_utf8_decode_utf8(out@.last().topic@);
                assert(tail_i.skip(16 + tl as int) =~= self.file@.skip(pos + 16 + tl));
                assert(out@.last()@ == OffsetEntryView {
                    topic: decode_utf8(tail_i.subrange(4, 4 + tl as int)),
                    partition: spec_u32_from_le_bytes(tail_i.subrange(4 + tl as int, 8 + tl as int)) as i32,
                    offset: spec_u64_from_le_bytes(tail_i.subrange(8 + tl as int, 16 + tl as int)) as i64,
                });
                match spec_parse_offset_entries(self.file@.skip(pos + 16 + tl), (n - i - 1) as nat) {
                    None => {},
                    Some(rest2) => {
                        assert(old_out.map(|q: int, e: KafkaOffsetStoreEntry| e@) + (seq![
                            out@.last()@] + rest2) =~= out@.map(
                            |q: int, e: KafkaOffsetStoreEntry| e@,
                        ) + rest2);
                    },
                }
            }
            pos = pos + 16 + tl;
            i = i + 1;
        }
        if pos != total {
            return Err(
                IndexError::SystemError(String::from_str("offset store does not parse")),
            );
        }
        proof {
            assert(self.file@.skip(pos as int).len() == 0);
            assert(spec_parse_offset_entries(self.file@.skip(pos as int), 0nat) == Some(
                Seq::<OffsetEntryView>::empty(),
            ));
            assert(out@.map(|q: int, e: KafkaOffsetStoreEntry| e@) + Seq::<
                OffsetEntryView,
            >::empty() =~= out@.map(|q: int, e: KafkaOffsetStoreEntry| e@));
        }
        Ok(out)
    }

    /// Hand back the file for persistence.
    pub fn close(self) -> (r: Vec<u8>)
        ensures
            r@ == self.file_bytes(),
    {
        self.file
    }

    /// The file as it stands.
    pub fn file_ref(&self) -> (r: &Vec<u8>)
        ensures
            r@ == self.file_bytes(),
    {
        &self.file
    }
}

} // verus!
