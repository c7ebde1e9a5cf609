//! The schema registry: field name to stable field id, persisted whole
//! on every mutation.
//!
//! The registry's file holds the primary-key field name, the id counter
//! (the next id to assign; ids `[0, counter)` are taken), and the
//! name-to-id entries. Ids are assigned monotonically; only compaction
//! renumbers them, and id `0` always belongs to the primary-key field.

use vstd::prelude::*;
use vstd::bytes::{spec_u32_to_le_bytes, spec_u64_to_le_bytes, spec_u32_from_le_bytes, spec_u64_from_le_bytes};
use vstd::utf8::{encode_utf8, valid_utf8, decode_utf8};
use vstd::string::StrSliceExecFns;
use crate::codec::{push_u32_le, push_u64_le, push_bytes, read_u32_le, read_u64_le, lemma_le_roundtrips, str_eq};
use crate::error::{SchemaError, IndexError};
use crate::field::{FieldId, FieldValue, FIELD_ID_LIMIT};
use crate::maps::{StringMap, key_index, lemma_seq_to_map, lemma_key_index, lemma_key_index_self};
use crate::document::{Document, wf_document, spec_doc_names};

verus! {

/// The serialized entries of the registry, in order: for each, the
/// UTF-8 length of the name, the name, and the id.
pub open spec fn spec_encode_schema_entries(s: Seq<(Seq<char>, u32)>) -> Seq<u8>
    decreases s.len(),
{
    if s.len() == 0 {
        Seq::empty()
    } else {
        spec_u32_to_le_bytes(encode_utf8(s[0].0).len() as u32) + encode_utf8(s[0].0)
            + spec_u32_to_le_bytes(s[0].1) + spec_encode_schema_entries(s.drop_first())
    }
}

/// The registry's file: primary-key name, id counter, entry count, then
/// the entries.
pub open spec fn spec_encode_schema(pk: Seq<char>, s: Seq<(Seq<char>, u32)>, counter: u64) -> Seq<
    u8,
> {
    spec_u32_to_le_bytes(encode_utf8(pk).len() as u32) + encode_utf8(pk) + spec_u64_to_le_bytes(
        counter,
    ) + spec_u32_to_le_bytes(s.len() as u32) + spec_encode_schema_entries(s)
}

/// One more entry extends the encoding.
pub proof fn lemma_encode_schema_entries_push(s: Seq<(Seq<char>, u32)>, e: (Seq<char>, u32))
    ensures
        spec_encode_schema_entries(s.push(e)) == spec_encode_schema_entries(s) + (
        spec_u32_to_le_bytes(encode_utf8(e.0).len() as u32) + encode_utf8(e.0)
            + spec_u32_to_le_bytes(e.1)),
    decreases s.len(),
{
    lemma_le_roundtrips();
    if s.len() == 0 {
        assert(s.push(e)[0] == e);
        assert(s.push(e).drop_first() =~= Seq::<(Seq<char>, u32)>::empty());
        assert(spec_encode_schema_entries(s.push(e).drop_first()) =~= Seq::<u8>::empty());
        assert(spec_encode_schema_entries(s) =~= Seq::<u8>::empty());
        assert(spec_encode_schema_entries(s.push(e)) =~= spec_encode_schema_entries(s) + (
        spec_u32_to_le_bytes(encode_utf8(e.0).len() as u32) + encode_utf8(e.0)
            + spec_u32_to_le_bytes(e.1)));
    } else {
        assert(s.push(e)[0] == s[0]);
        assert(s.push(e).drop_first() =~= s.drop_first().push(e));
        lemma_encode_schema_entries_push(s.drop_first(), e);
        assert(spec_encode_schema_entries(s.push(e)) =~= spec_encode_schema_entries(s) + (
        spec_u32_to_le_bytes(encode_utf8(e.0).len() as u32) + encode_utf8(e.0)
            + spec_u32_to_le_bytes(e.1)));
    }
}

/// One step of registering the names of a document: a known name is
/// skipped, an unseen one takes the counter's id.
pub open spec fn spec_assign_step(
    st: (Map<Seq<char>, u32>, int),
    name: Seq<char>,
) -> (Map<Seq<char>, u32>, int) {
    if st.0.contains_key(name) {
        st
    } else {
        (st.0.insert(name, st.1 as u32), st.1 + 1)
    }
}

/// Register a run of names, first to last.
pub open spec fn spec_assign(st: (Map<Seq<char>, u32>, int), names: Seq<Seq<char>>) -> (
    Map<Seq<char>, u32>,
    int,
)
    decreases names.len(),
{
    if names.len() == 0 {
        st
    } else {
        spec_assign(spec_assign_step(st, names[0]), names.drop_first())
    }
}

/// The counter never goes backward while registering.
pub proof fn lemma_assign_counter_mono(st: (Map<Seq<char>, u32>, int), names: Seq<Seq<char>>)
    ensures
        st.1 <= spec_assign(st, names).1,
        spec_assign(st, names).1 <= st.1 + names.len(),
    decreases names.len(),
{
    if names.len() > 0 {
        lemma_assign_counter_mono(spec_assign_step(st, names[0]), names.drop_first());
    }
}

/// Registering keeps every id below the counter and the ids distinct.
pub proof fn lemma_assign_wf(st: (Map<Seq<char>, u32>, int), names: Seq<Seq<char>>)
    requires
        forall|k: Seq<char>| #[trigger] st.0.contains_key(k) ==> st.0[k] < st.1,
        forall|k1: Seq<char>, k2: Seq<char>|
            st.0.contains_key(k1) && st.0.contains_key(k2) && k1 != k2 ==> #[trigger] st.0[k1]
                != #[trigger] st.0[k2],
        0 <= st.1,
        spec_assign(st, names).1 <= u32::MAX,
    ensures
        ({
            let st2 = spec_assign(st, names);
            &&& forall|k: Seq<char>| #[trigger] st2.0.contains_key(k) ==> st2.0[k] < st2.1
            &&& forall|k1: Seq<char>, k2: Seq<char>|
                st2.0.contains_key(k1) && st2.0.contains_key(k2) && k1 != k2 ==> #[trigger] st2.0[
                    k1] != #[trigger] st2.0[k2]
            &&& forall|k: Seq<char>|
                #[trigger] st2.0.contains_key(k) ==> st.0.contains_key(k) || names.contains(k)
            &&& forall|k: Seq<char>| st.0.contains_key(k) ==> #[trigger] st2.0.contains_key(k)
            &&& forall|k: Seq<char>|
                st.0.contains_key(k) ==> #[trigger] st2.0[k] == st.0[k]
            &&& forall|k: Seq<char>| names.contains(k) ==> #[trigger] st2.0.contains_key(k)
        }),
    decreases names.len(),
{
    if names.len() > 0 {
        let st1 = spec_assign_step(st, names[0]);
        lemma_assign_counter_mono(st1, names.drop_first());
        assert forall|k1: Seq<char>, k2: Seq<char>|
            st1.0.contains_key(k1) && st1.0.contains_key(k2) && k1 != k2 implies #[trigger] st1.0[
            k1] != #[trigger] st1.0[k2] by {
            if !st.0.contains_key(names[0]) {
                assert(st.1 < st1.1);
                assert(st1.1 <= spec_assign(st, names).1);
                assert(st.1 < u32::MAX);
                assert(st1.0[names[0]] == st.1 as u32);
                if k1 == names[0] && st.0.contains_key(k2) {
                    assert(st1.0[k2] == st.0[k2]);
                    assert(st.0[k2] < st.1);
                } else if k2 == names[0] && st.0.contains_key(k1) {
                    assert(st1.0[k1] == st.0[k1]);
                    assert(st.0[k1] < st.1);
                }
            }
        }
        lemma_assign_wf(st1, names.drop_first());
        let st2 = spec_assign(st, names);
        assert forall|k: Seq<char>| #[trigger] st2.0.contains_key(k) implies st.0.contains_key(k)
            || names.contains(k) by {
            if !st.0.contains_key(k) {
                if k == names[0] {
                    assert(names[0 as int] == k);
                    assert(names.contains(k));
                } else {
                    assert(names.drop_first().contains(k));
                    let j = choose|j: int|
                        0 <= j < names.drop_first().len() && names.drop_first()[j] == k;
                    assert(names[j + 1] == k);
                    assert(names.contains(k));
                }
            }
        }
        assert forall|k: Seq<char>| names.contains(k) implies #[trigger] st2.0.contains_key(
            k,
        ) by {
            let j = choose|j: int| 0 <= j < names.len() && names[j] == k;
            if j == 0 {
                assert(st1.0.contains_key(k));
            } else {
                assert(names.drop_first()[j - 1] == k);
                assert(names.drop_first().contains(k));
            }
        }
    }
}

/// The schema registry of one partition.
#[derive(Debug)]
pub struct CKVIndexSchema {
    file: Vec<u8>,
    primary_key_field_name: String,
    field_name_to_id: StringMap<u32>,
    field_id_counter: u64,
}

impl CKVIndexSchema {
    /// The persisted file image.
    pub closed spec fn file_bytes(self) -> Seq<u8> {
        self.file@
    }

    /// The primary-key field name.
    pub closed spec fn pk_name(self) -> Seq<char> {
        self.primary_key_field_name@
    }

    /// The name-to-id mapping.
    pub closed spec fn map(self) -> Map<Seq<char>, u32> {
        self.field_name_to_id@
    }

    /// The entries in order.
    pub closed spec fn entries(self) -> Seq<(Seq<char>, u32)> {
        self.field_name_to_id.seq_view()
    }

    /// The next id to assign.
    pub closed spec fn counter(self) -> int {
        self.field_id_counter as int
    }

    /// The counter as persisted.
    pub closed spec fn counter_u64(self) -> u64 {
        self.field_id_counter
    }

    /// The registry's invariant: distinct names with distinct ids below
    /// the counter and below the id limit, names short enough for the
    /// file, and the file equal to the encoding of the state.
    pub open spec fn wf(self) -> bool {
        &&& self.map() == crate::maps::seq_to_map(self.entries())
        &&& self.counter() == self.counter_u64() as int
        &&& crate::maps::distinct_keys(self.entries())
        &&& forall|k: Seq<char>| #[trigger] self.map().contains_key(k) ==> self.map()[k] < FIELD_ID_LIMIT
        &&& forall|k: Seq<char>| #[trigger] self.map().contains_key(k) ==> self.map()[k] < self.counter()
        &&& forall|k1: Seq<char>, k2: Seq<char>|
            self.map().contains_key(k1) && self.map().contains_key(k2) && k1 != k2
                ==> #[trigger] self.map()[k1] != #[trigger] self.map()[k2]
        &&& forall|i: int|
            0 <= i < self.entries().len() ==> encode_utf8((#[trigger] self.entries()[i]).0).len()
                <= u32::MAX
        &&& encode_utf8(self.pk_name()).len() <= u32::MAX
        &&& self.map().contains_key(self.pk_name())
        &&& self.map()[self.pk_name()] == 0
        &&& self.entries().len() <= self.counter()
        &&& self.counter() <= FIELD_ID_LIMIT
        &&& self.file_bytes() == spec_encode_schema(
            self.pk_name(),
            self.entries(),
            self.counter_u64(),
        )
    }

    /// Serialize the current state into the file image.
    fn save(&mut self)
        requires
            crate::maps::distinct_keys(old(self).entries()),
            forall|i: int|
                0 <= i < old(self).entries().len() ==> encode_utf8(
                    (#[trigger] old(self).entries()[i]).0,
                ).len() <= u32::MAX,
            encode_utf8(old(self).pk_name()).len() <= u32::MAX,
            old(self).entries().len() <= FIELD_ID_LIMIT,
        ensures
            final(self).file_bytes() == spec_encode_schema(
                old(self).pk_name(),
                old(self).entries(),
                old(self).field_id_counter,
            ),
            final(self).pk_name() == old(self).pk_name(),
            final(self).entries() == old(self).entries(),
            final(self).map() == old(self).map(),
            final(self).counter() == old(self).counter(),
    {
        proof {
            lemma_le_roundtrips();
        }
        let mut out: Vec<u8> = Vec::new();
        let pk_bytes = self.primary_key_field_name.as_str().as_bytes_vec();
        push_u32_le(&mut out, pk_bytes.len() as u32);
        push_bytes(&mut out, pk_bytes.as_slice());
        push_u64_le(&mut out, self.field_id_counter);
        let n = self.field_name_to_id.len();
        push_u32_le(&mut out, n as u32);
        let ghost entries = self.field_name_to_id.seq_view();
        let ghost base = out@;
        let mut i: usize = 0;
        proof {
            assert(entries.take(0int) =~= Seq::<(Seq<char>, u32)>::empty());
            assert(spec_encode_schema_entries(entries.take(0int)) =~= Seq::<u8>::empty());
            assert(out@ =~= base + spec_encode_schema_entries(entries.take(0int)));
        }
        while i < n
            invariant
                i <= n,
                n == entries.len(),
                entries == self.field_name_to_id.seq_view(),
                forall|q: int|
                    0 <= q < entries.len() ==> encode_utf8((#[trigger] entries[q]).0).len()
                        <= u32::MAX,
                out@ == base + spec_encode_schema_entries(entries.take(i as int)),
            decreases n - i,
        {
            let name_bytes = self.field_name_to_id.key_at(i).as_str().as_bytes_vec();
            push_u32_le(&mut out, name_bytes.len() as u32);
            push_bytes(&mut out, name_bytes.as_slice());
            let id = *self.field_name_to_id.value_at(i);
            push_u32_le(&mut out, id);
            proof {
                assert(entries.take(i + 1int) =~= entries.take(i as int).push(
                    entries[i as int],
                ));
                lemma_encode_schema_entries_push(entries.take(i as int), entries[i as int]);
                assert(out@ =~= base + spec_encode_schema_entries(entries.take(i + 1int)));
            }
            i = i + 1;
        }
        proof {
            assert(entries.take(n as int) =~= entries);
        }
        self.file = out;
    }

    /// Look up a field's id by its name.
    pub fn fetch_id_by_name(&self, field_name: &str) -> (r: Option<FieldId>)
        requires
            self.wf(),
        ensures
            match r {
                Some(id) => self.map().contains_key(field_name@) && id == self.map()[field_name@]
                    && id < FIELD_ID_LIMIT,
                None => !self.map().contains_key(field_name@),
            },
    {
        match self.field_name_to_id.get(field_name) {
            Some(id) => Some(*id),
            None => None,
        }
    }

    /// The value of the primary-key field of a document, if present.
    pub fn extract_primary_key_value<'a>(&self, document: &'a Document) -> (r: Option<
        &'a FieldValue,
    >)
        requires
            document.wf(),
        ensures
            match r {
                Some(v) => document@.contains_key(self.pk_name()) && *v == document@[
                    self.pk_name()],
                None => !document@.contains_key(self.pk_name()),
            },
    {
        document.get(self.primary_key_field_name.as_str())
    }

    /// The primary-key field name.
    pub fn primary_key_name(&self) -> (r: &str)
        ensures
            r@ == self.pk_name(),
    {
        self.primary_key_field_name.as_str()
    }

    /// Register every field name of a document that the registry does
    /// not know yet, in the document's order, and persist if anything
    /// was added. Fails, changing nothing, when the ids would leave
    /// `[0, 2^16)`.
    pub fn upsert_schema(&mut self, document: &Document) -> (r: Result<(), SchemaError>)
        requires
            old(self).wf(),
            wf_document(*document),
        ensures
            final(self).wf(),
            final(self).pk_name() == old(self).pk_name(),
            match r {
                Ok(u) => {
                    let st2 = spec_assign(
                        (old(self).map(), old(self).counter()),
                        spec_doc_names(*document),
                    );
                    &&& st2.1 <= FIELD_ID_LIMIT
                    &&& final(self).map() == st2.0
                    &&& final(self).counter() == st2.1
                },
                Err(e) => {
                    &&& e == SchemaError::RangeExhausted
                    &&& *final(self) == *old(self)
                    &&& spec_assign(
                        (old(self).map(), old(self).counter()),
                        spec_doc_names(*document),
                    ).1 > FIELD_ID_LIMIT
                },
            },
    {
        let ghost names = spec_doc_names(*document);
        let ghost st0 = (self.map(), self.counter());
        let n = document.len();

        // First pass: how many names are new, without changing anything.
        let mut seen: StringMap<u32> = StringMap::new();
        let mut i: usize = 0;
        while i < n
            invariant
                *self == *old(self),
                old(self).wf(),
                wf_document(*document),
                i <= n,
                n == names.len(),
                names == spec_doc_names(*document),
                st0 == (old(self).map(), old(self).counter()),
                seen.wf(),
                seen.seq_view().len() <= i,
                spec_assign(st0, names.take(i as int)).0.dom() =~= st0.0.dom().union(
                    seen@.dom(),
                ),
                spec_assign(st0, names.take(i as int)).1 == st0.1 + seen.seq_view().len(),
            decreases n - i,
        {
            let name = document.key_at(i);
            proof {
                assert(names[i as int] == document.seq_view()[i as int].0);
                assert(names.take(i + 1int) =~= names.take(i as int).push(names[i as int]));
                lemma_assign_push(st0, names.take(i as int), names[i as int]);
            }
            proof {
                lemma_seq_to_map(seen.seq_view());
            }
            let in_map = self.field_name_to_id.contains_key(name.as_str());
            let in_seen = seen.contains_key(name.as_str());
            if !in_map && !in_seen {
                proof {
                    lemma_key_index(seen.seq_view(), name@);
                    if key_index(seen.seq_view(), name@) >= 0 {
                        assert(seen@.contains_key(name@));
                    }
                }
                seen.insert(String::from_str(name.as_str()), 0u32);
                proof {
                    assert(spec_assign(st0, names.take(i + 1int)).0.dom() =~= st0.0.dom().union(
                        seen@.dom(),
                    ));
                }
            } else {
                proof {
                    assert(spec_assign(st0, names.take(i + 1int)).0.dom() =~= st0.0.dom().union(
                        seen@.dom(),
                    ));
                }
            }
            i = i + 1;
        }
        proof {
            assert(names.take(n as int) =~= names);
        }
        let new_count = seen.len();
        if new_count as u64 > FIELD_ID_LIMIT as u64 - self.field_id_counter {
            return Err(SchemaError::RangeExhausted);
        }
        if new_count == 0 {
            proof {
                lemma_assign_counter_mono(st0, names);
                lemma_assign_no_new(st0, names);
            }
            return Ok(());
        }

        // Second pass: assign ids in document order and persist.
        let mut i: usize = 0;
        while i < n
            invariant
                i <= n,
                n == names.len(),
                names == spec_doc_names(*document),
                wf_document(*document),
                st0 == (old(self).map(), old(self).counter()),
                old(self).wf(),
                spec_assign(st0, names).1 <= FIELD_ID_LIMIT,
                self.field_name_to_id.wf(),
                (self.map(), self.counter()) == spec_assign(st0, names.take(i as int)),
                self.primary_key_field_name == old(self).primary_key_field_name,
                self.field_id_counter <= FIELD_ID_LIMIT as u64,
                self.entries().len() <= self.counter(),
                forall|q: int|
                    0 <= q < self.entries().len() ==> encode_utf8(
                        (#[trigger] self.entries()[q]).0,
                    ).len() <= u32::MAX,
                forall|k: Seq<char>|
                    #[trigger] self.map().contains_key(k) ==> self.map()[k] < self.counter(),
                forall|k1: Seq<char>, k2: Seq<char>|
                    self.map().contains_key(k1) && self.map().contains_key(k2) && k1 != k2
                        ==> #[trigger] self.map()[k1] != #[trigger] self.map()[k2],
            decreases n - i,
        {
            let name = document.key_at(i);
            proof {
                assert(names[i as int] == document.seq_view()[i as int].0);
                assert(names.take(i + 1int) =~= names.take(i as int).push(names[i as int]));
                lemma_assign_push(st0, names.take(i as int), names[i as int]);
                lemma_assign_counter_mono(spec_assign(st0, names.take(i + 1int)), names.skip(
                    i + 1int,
                ));
                lemma_assign_split(st0, names, i + 1int);
            }
            proof {
                lemma_seq_to_map(self.field_name_to_id.seq_view());
                lemma_key_index(self.field_name_to_id.seq_view(), name@);
                if key_index(self.field_name_to_id.seq_view(), name@) >= 0 {
                    assert(self.map().contains_key(name@));
                }
                assert(encode_utf8(document.seq_view()[i as int].0).len() <= u32::MAX);
            }
            if !self.field_name_to_id.contains_key(name.as_str()) {
                let id = self.field_id_counter as u32;
                self.field_name_to_id.insert(String::from_str(name.as_str()), id);
                self.field_id_counter = self.field_id_counter + 1;
            }
            i = i + 1;
        }
        proof {
            assert(names.take(n as int) =~= names);
            lemma_assign_wf(st0, names);
        }
        self.save();
        Ok(())
    }
}

/// If the counter did not move, no name was new and the map is as it
/// was.
pub proof fn lemma_assign_no_new(st: (Map<Seq<char>, u32>, int), names: Seq<Seq<char>>)
    requires
        spec_assign(st, names).1 == st.1,
    ensures
        spec_assign(st, names).0 == st.0,
    decreases names.len(),
{
    if names.len() > 0 {
        let st1 = spec_assign_step(st, names[0]);
        lemma_assign_counter_mono(st1, names.drop_first());
        lemma_assign_no_new(st1, names.drop_first());
    }
}

/// Registering one more name steps the fold once.
pub proof fn lemma_assign_push(
    st: (Map<Seq<char>, u32>, int),
    names: Seq<Seq<char>>,
    name: Seq<char>,
)
    ensures
        spec_assign(st, names.push(name)) == spec_assign_step(spec_assign(st, names), name),
    decreases names.len(),
{
    if names.len() == 0 {
        assert(names.push(name)[0] == name);
        assert(names.push(name).drop_first() =~= Seq::<Seq<char>>::empty());
        assert(spec_assign(st, names.push(name)) == spec_assign(
            spec_assign_step(st, name),
            names.push(name).drop_first(),
        ));
        assert(spec_assign(st, names) == st);
    } else {
        assert(names.push(name)[0] == names[0]);
        assert(names.push(name).drop_first() =~= names.drop_first().push(name));
        lemma_assign_push(spec_assign_step(st, names[0]), names.drop_first(), name);
    }
}

/// Registering a run of names is registering a prefix, then the rest.
pub proof fn lemma_assign_split(st: (Map<Seq<char>, u32>, int), names: Seq<Seq<char>>, i: int)
    requires
        0 <= i <= names.len(),
    ensures
        spec_assign(st, names) == spec_assign(
            spec_assign(st, names.take(i)),
            names.skip(i),
        ),
    decreases i,
{
    if i == 0 {
        assert(names.take(0int) =~= Seq::<Seq<char>>::empty());
        assert(names.skip(0int) =~= names);
    } else {
        assert(names.take(i)[0] == names[0]);
        assert(names.take(i).drop_first() =~= names.drop_first().take(i - 1));
        assert(names.skip(i) =~= names.drop_first().skip(i - 1));
        lemma_assign_split(spec_assign_step(st, names[0]), names.drop_first(), i - 1);
    }
}


/// Parse the registry's entries; `n` of them, consuming the bytes
/// exactly.
pub open spec fn spec_parse_schema_entries(s: Seq<u8>, n: nat) -> Option<Seq<(Seq<char>, u32)>>
    decreases n,
{
    if n == 0 {
        if s.len() == 0 {
            Some(Seq::empty())
        } else {
            None
        }
    } else if s.len() < 4 {
        None
    } else {
        let l = spec_u32_from_le_bytes(s.subrange(0, 4));
        if 4 + l + 4 > s.len() {
            None
        } else {
            let nb = s.subrange(4, 4 + l);
            if !valid_utf8(nb) {
                None
            } else {
                let name = decode_utf8(nb);
                let id = spec_u32_from_le_bytes(s.subrange(4 + l, 8 + l));
                if id >= FIELD_ID_LIMIT {
                    None
                } else {
                    match spec_parse_schema_entries(s.skip(8 + l), (n - 1) as nat) {
                        None => None,
                        Some(rest) => Some(seq![(name, id)] + rest),
                    }
                }
            }
        }
    }
}

/// Parse the registry's file.
pub open spec fn spec_parse_schema(s: Seq<u8>) -> Option<(Seq<char>, Seq<(Seq<char>, u32)>, u64)> {
    if s.len() < 4 {
        None
    } else {
        let pl = spec_u32_from_le_bytes(s.subrange(0, 4));
        if 4 + pl + 12 > s.len() {
            None
        } else {
            let pkb = s.subrange(4, 4 + pl);
            if !valid_utf8(pkb) {
                None
            } else {
                let pk = decode_utf8(pkb);
                let counter = spec_u64_from_le_bytes(s.subrange(4 + pl, 12 + pl));
                let n = spec_u32_from_le_bytes(s.subrange(12 + pl, 16 + pl));
                if n > FIELD_ID_LIMIT {
                    None
                } else {
                    match spec_parse_schema_entries(s.skip(16 + pl), n as nat) {
                        None => None,
                        Some(es) => Some((pk, es, counter)),
                    }
                }
            }
        }
    }
}

/// A parsed entry list has exactly the declared count.
pub proof fn lemma_parse_schema_entries_len(s: Seq<u8>, n: nat)
    ensures
        spec_parse_schema_entries(s, n) matches Some(es) ==> es.len() == n,
    decreases n,
{
    if n > 0 && s.len() >= 4 {
        let l = spec_u32_from_le_bytes(s.subrange(0, 4));
        if !(4 + l + 4 > s.len()) {
            lemma_parse_schema_entries_len(s.skip(8 + l), (n - 1) as nat);
        }
    }
}

/// A registry file the store accepts: it parses, its names and ids are
/// distinct, and every id is below the counter, which is itself within
/// the id limit.
pub open spec fn spec_schema_file_ok(b: Seq<u8>) -> bool {
    &&& b.len() > 0
    &&& spec_parse_schema(b) is Some
    &&& ({
        let t = spec_parse_schema(b)->Some_0;
        &&& crate::maps::distinct_keys(t.1)
        &&& forall|i: int, j: int|
            0 <= i < j < t.1.len() ==> (#[trigger] t.1[i]).1 != (#[trigger] t.1[j]).1
        &&& forall|i: int| 0 <= i < t.1.len() ==> (#[trigger] t.1[i]).1 < t.2
        &&& t.2 <= FIELD_ID_LIMIT
        &&& t.1.len() <= t.2
        &&& key_index(t.1, t.0) >= 0
        &&& t.1[key_index(t.1, t.0)].1 == 0
    })
}

impl CKVIndexSchema {
    /// Is no registry file present?
    pub fn index_not_present(file: &Option<Vec<u8>>) -> (r: bool)
        ensures
            r == (file is None),
    {
        file.is_none()
    }

    /// A registry file must be present for the index to be valid.
    pub fn is_valid_index(file: &Option<Vec<u8>>) -> (r: Result<(), IndexError>)
        ensures
            r is Ok <==> file is Some,
    {
        match file {
            Some(_) => Ok(()),
            None => Err(IndexError::SystemError(String::from_str("schema index not present"))),
        }
    }

    /// Open the registry from its file, or create a fresh one mapping
    /// the primary-key name to id `0` with the counter at `1`. An empty
    /// or malformed file is invalid state.
    pub fn open_or_create(file: Option<Vec<u8>>, primary_key: String) -> (r: Result<
        CKVIndexSchema,
        IndexError,
    >)
        requires
            encode_utf8(primary_key@).len() <= u32::MAX,
        ensures
            match r {
                Ok(sc) => {
                    &&& sc.wf()
                    &&& match file {
                        None => {
                            &&& sc.pk_name() == primary_key@
                            &&& sc.entries() == seq![(primary_key@, 0u32)]
                            &&& sc.counter() == 1
                        },
                        Some(b) => {
                            &&& spec_schema_file_ok(b@)
                            &&& sc.pk_name() == spec_parse_schema(b@)->Some_0.0
                            &&& sc.entries() == spec_parse_schema(b@)->Some_0.1
                            &&& sc.counter_u64() == spec_parse_schema(b@)->Some_0.2
                        },
                    }
                },
                Err(e) => file matches Some(b) && !spec_schema_file_ok(b@),
            },
    {
        proof {
            lemma_le_roundtrips();
        }
        match file {
            None => {
                let mut m: StringMap<u32> = StringMap::new();
                proof {
                    lemma_seq_to_map(m.seq_view());
                    lemma_key_index(m.seq_view(), primary_key@);
                }
                m.insert(primary_key.clone(), 0u32);
                let mut sc = CKVIndexSchema {
                    file: Vec::new(),
                    primary_key_field_name: primary_key,
                    field_name_to_id: m,
                    field_id_counter: 1,
                };
                proof {
                    assert(sc.entries() =~= seq![(primary_key@, 0u32)]);
                    lemma_seq_to_map(sc.entries());
                }
                sc.save();
                Ok(sc)
            },
            Some(bytes) => {
                let n_total = bytes.len();
                if n_total == 0 {
                    return Err(
                        IndexError::SystemError(
                            String::from_str("schema store has no content, invalid state"),
                        ),
                    );
                }
                match parse_schema_file(&bytes) {
                    None => Err(
                        IndexError::SystemError(
                            String::from_str("schema store does not parse, invalid state"),
                        ),
                    ),
                    Some(sc) => Ok(sc),
                }
            },
        }
    }

    /// Hand back the registry's file for persistence.
    pub fn close(self) -> (r: Vec<u8>)
        ensures
            r@ == self.file_bytes(),
    {
        self.file
    }

    /// The registry's file as it stands.
    pub fn file_ref(&self) -> (r: &Vec<u8>)
        ensures
            r@ == self.file_bytes(),
    {
        &self.file
    }
}

/// Parse and validate a registry file, rebuilding the in-memory map.
fn parse_schema_file(bytes: &Vec<u8>) -> (r: Option<CKVIndexSchema>)
    ensures
        match r {
            Some(sc) => {
                &&& sc.wf()
                &&& spec_schema_file_ok(bytes@)
                &&& sc.pk_name() == spec_parse_schema(bytes@)->Some_0.0
                &&& sc.entries() == spec_parse_schema(bytes@)->Some_0.1
                &&& sc.counter_u64() == spec_parse_schema(bytes@)->Some_0.2
            },
            None => !spec_schema_file_ok(bytes@) || bytes@.len() == 0,
        },
{
    proof {
        lemma_le_roundtrips();
    }
    let total = bytes.len();
    if total < 4 {
        return None;
    }
    let pl32 = read_u32_le(bytes.as_slice(), 0);
    proof {
        assert(bytes@.subrange(0int, 4int) == bytes@.subrange(0, 4));
    }
    let pl = pl32 as usize;
    if pl > total - 4 || 12 > total - 4 - pl {
        return None;
    }
    let pkb = vstd::slice::slice_subrange(bytes.as_slice(), 4, 4 + pl);
    let mut pk_bytes: Vec<u8> = Vec::new();
    push_bytes(&mut pk_bytes, pkb);
    let pk = match crate::codec::bytes_to_string(pk_bytes) {
        None => {
            return None;
        },
        Some(p) => p,
    };
    proof {
        vstd::utf8::encode_utf8_decode_utf8(pk@);
        assert(pk@ == decode_utf8(bytes@.subrange(4, 4 + pl as int)));
        assert(encode_utf8(pk@).len() <= u32::MAX);
    }
    let counter = read_u64_le(bytes.as_slice(), 4 + pl);
    let n32 = read_u32_le(bytes.as_slice(), 12 + pl);
    if n32 > FIELD_ID_LIMIT {
        return None;
    }
    proof {
        lemma_parse_schema_entries_len(bytes@.skip(16 + pl as int), n32 as nat);
        if spec_parse_schema(bytes@) is Some {
            assert(spec_parse_schema(bytes@)->Some_0.2 == counter);
            assert(spec_parse_schema(bytes@)->Some_0.1.len() == n32);
        }
    }
    if counter > FIELD_ID_LIMIT as u64 {
        return None;
    }
    if n32 as u64 > counter {
        return None;
    }
    let n = n32 as usize;
    let ghost tail0 = bytes@.skip(16 + pl as int);
    let mut m: StringMap<u32> = StringMap::new();
    let mut pos: usize = 16 + pl;
    let mut i: usize = 0;
    proof {
        assert(m.seq_view() =~= Seq::<(Seq<char>, u32)>::empty());
        assert(bytes@.subrange(4 + pl as int, 12 + pl as int) =~= bytes@.subrange(
            4 + pl as int,
            12 + pl as int,
        ));
        match spec_parse_schema_entries(bytes@.skip(pos as int), n as nat) {
            None => {},
            Some(rest) => {
                assert(m.seq_view() + rest =~= rest);
            },
        }
    }
    while i < n
        invariant
            i <= n,
            n == n32,
            total == bytes@.len(),
            16 + pl <= pos <= total,
            pl <= u32::MAX,
            counter <= FIELD_ID_LIMIT as u64,
            n as u64 <= counter,
            tail0 == bytes@.skip(16 + pl as int),
            m.wf(),
            m.seq_view().len() == i,
            forall|q: int|
                0 <= q < m.seq_view().len() ==> encode_utf8(
                    (#[trigger] m.seq_view()[q]).0,
                ).len() <= u32::MAX,
            forall|q: int|
                0 <= q < m.seq_view().len() ==> (#[trigger] m.seq_view()[q]).1 < counter,
            forall|q1: int, q2: int|
                0 <= q1 < q2 < m.seq_view().len() ==> (#[trigger] m.seq_view()[q1]).1 != (
                #[trigger] m.seq_view()[q2]).1,
            spec_parse_schema(bytes@) == (match spec_parse_schema_entries(
                bytes@.skip(pos as int),
                (n - i) as nat,
            ) {
                None => None::<(Seq<char>, Seq<(Seq<char>, u32)>, u64)>,
                Some(rest) => Some((pk@, m.seq_view() + rest, counter)),
            }),
        decreases n - i,
    {
        let ghost tail_i = bytes@.skip(pos as int);
        if total - pos < 4 {
            return None;
        }
        let l32 = read_u32_le(bytes.as_slice(), pos);
        proof {
            assert(tail_i.subrange(0, 4) =~= bytes@.subrange(pos as int, pos + 4));
        }
        let l = l32 as usize;
        if l > total - pos - 4 || 4 > total - pos - 4 - l {
            return None;
        }
        let nb = vstd::slice::slice_subrange(bytes.as_slice(), pos + 4, pos + 4 + l);
        let mut name_bytes: Vec<u8> = Vec::new();
        push_bytes(&mut name_bytes, nb);
        proof {
            assert(name_bytes@ =~= tail_i.subrange(4, 4 + l as int));
        }
        let name = match crate::codec::bytes_to_string(name_bytes) {
            None => {
                return None;
            },
            Some(nm) => nm,
        };
        let id = read_u32_le(bytes.as_slice(), pos + 4 + l);
        proof {
            assert(tail_i.subrange(4 + l as int, 8 + l as int) =~= bytes@.subrange(
                pos + 4 + l,
                pos + 8 + l,
            ));
        }
        if id >= FIELD_ID_LIMIT {
            return None;
        }
        if (id as u64) >= counter {
            proof {
                reject_current_entry(bytes@, pos as int, (n - i) as nat, m.seq_view(), pk@, counter, l as int, id);
            }
            return None;
        }
        proof {
            lemma_seq_to_map(m.seq_view());
        }
        if m.contains_key(name.as_str()) {
            proof {
                reject_current_entry(bytes@, pos as int, (n - i) as nat, m.seq_view(), pk@, counter, l as int, id);
                lemma_key_index(m.seq_view(), name@);
                let q = key_index(m.seq_view(), name@);
                vstd::utf8::encode_utf8_decode_utf8(name@);
                if spec_parse_schema(bytes@) is Some {
                    let t = spec_parse_schema(bytes@)->Some_0;
                    assert(t.1[q] == m.seq_view()[q]);
                    assert(t.1[m.seq_view().len() as int].0 == name@);
                    assert(!crate::maps::distinct_keys(t.1));
                }
            }
            return None;
        }
        if contains_id(&m, id) {
            proof {
                reject_current_entry(bytes@, pos as int, (n - i) as nat, m.seq_view(), pk@, counter, l as int, id);
                if spec_parse_schema(bytes@) is Some {
                    let t = spec_parse_schema(bytes@)->Some_0;
                    let q = choose|q: int|
                        0 <= q < m.seq_view().len() && (#[trigger] m.seq_view()[q]).1 == id;
                    assert(t.1[q] == m.seq_view()[q]);
                    assert(t.1[m.seq_view().len() as int].1 == id);
                }
            }
            return None;
        }
        proof {
            lemma_key_index(m.seq_view(), name@);
            if key_index(m.seq_view(), name@) >= 0 {
                assert(m@.contains_key(name@));
            }
            vstd::utf8::encode_utf8_decode_utf8(name@);
            assert(tail_i.skip(8 + l as int) =~= bytes@.skip(pos + 8 + l));
        }
        let ghost m_before = m.seq_view();
        m.insert(name, id);
        pos = pos + 8 + l;
        i = i + 1;
        proof {
            match spec_parse_schema_entries(bytes@.skip(pos as int), (n - i) as nat) {
                None => {},
                Some(rest2) => {
                    assert(m_before + (seq![(decode_utf8(tail_i.subrange(4, 4 + l as int)), id)]
                        + rest2) =~= m.seq_view() + rest2);
                },
            }
        }
    }
    if pos != total {
        return None;
    }
    proof {
        assert(bytes@.skip(pos as int).len() == 0);
        assert(spec_parse_schema_entries(bytes@.skip(pos as int), 0nat) == Some(
            Seq::<(Seq<char>, u32)>::empty(),
        ));
        assert(m.seq_view() + Seq::<(Seq<char>, u32)>::empty() =~= m.seq_view());
        assert(spec_parse_schema(bytes@) == Some((pk@, m.seq_view(), counter)));
    }
    proof {
        lemma_seq_to_map(m.seq_view());
        lemma_key_index(m.seq_view(), pk@);
    }
    match m.get(pk.as_str()) {
        Some(id) if *id == 0 => {},
        _ => {
            return None;
        },
    }
    let mut sc = CKVIndexSchema {
        file: Vec::new(),
        primary_key_field_name: pk,
        field_name_to_id: m,
        field_id_counter: counter,
    };
    proof {
        lemma_seq_to_map(sc.entries());
        lemma_key_index(sc.entries(), pk@);
        assert forall|k1: Seq<char>, k2: Seq<char>|
            sc.map().contains_key(k1) && sc.map().contains_key(k2) && k1 != k2 implies #[trigger] sc.map()[
            k1] != #[trigger] sc.map()[k2] by {
            let i1 = key_index(sc.entries(), k1);
            let i2 = key_index(sc.entries(), k2);
            lemma_key_index(sc.entries(), k1);
            lemma_key_index(sc.entries(), k2);
            lemma_key_index_self(sc.entries(), i1);
            lemma_key_index_self(sc.entries(), i2);
        }
        assert forall|k: Seq<char>| #[trigger] sc.map().contains_key(k) implies sc.map()[k]
            < sc.counter() && sc.map()[k] < FIELD_ID_LIMIT by {
            let i1 = key_index(sc.entries(), k);
            lemma_key_index(sc.entries(), k);
        }
    }
    sc.save();
    Some(sc)
}

/// When the parse connection invariant holds and the current entry at
/// `pos` parses to `(name, id)`, the whole file either fails to parse or
/// its entry list extends what was built with that entry next.
proof fn reject_current_entry(
    bytes: Seq<u8>,
    pos: int,
    remaining: nat,
    built: Seq<(Seq<char>, u32)>,
    pk: Seq<char>,
    counter: u64,
    l: int,
    id: u32,
)
    requires
        spec_parse_schema(bytes) == (match spec_parse_schema_entries(
            bytes.skip(pos),
            remaining,
        ) {
            None => None::<(Seq<char>, Seq<(Seq<char>, u32)>, u64)>,
            Some(rest) => Some((pk, built + rest, counter)),
        }),
        remaining > 0,
        0 <= pos,
        pos + 8 + l <= bytes.len(),
        0 <= l <= u32::MAX,
        spec_u32_from_le_bytes(bytes.skip(pos).subrange(0, 4)) == l,
        valid_utf8(bytes.skip(pos).subrange(4, 4 + l)),
        spec_u32_from_le_bytes(bytes.skip(pos).subrange(4 + l, 8 + l)) == id,
        id < FIELD_ID_LIMIT,
    ensures
        spec_parse_schema(bytes) matches Some(t) ==> {
            &&& t.1.len() > built.len()
            &&& forall|q: int| 0 <= q < built.len() ==> #[trigger] t.1[q] == built[q]
            &&& t.1[built.len() as int] == (
                decode_utf8(bytes.skip(pos).subrange(4, 4 + l)),
                id,
            )
            &&& t.2 == counter
        },
{
    let tail = bytes.skip(pos);
    match spec_parse_schema_entries(tail, remaining) {
        None => {},
        Some(rest) => {
            assert(rest[0] == (decode_utf8(tail.subrange(4, 4 + l)), id));
            let es = built + rest;
            assert(forall|q: int| 0 <= q < built.len() ==> #[trigger] es[q] == built[q]);
            assert(es[built.len() as int] == rest[0]);
        },
    }
}

/// Does any entry carry this id?
fn contains_id(m: &StringMap<u32>, id: u32) -> (r: bool)
    ensures
        r == (exists|q: int| 0 <= q < m.seq_view().len() && (#[trigger] m.seq_view()[q]).1 == id),
{
    let n = m.len();
    let mut i: usize = 0;
    while i < n
        invariant
            i <= n,
            n == m.seq_view().len(),
            forall|q: int| 0 <= q < i ==> (#[trigger] m.seq_view()[q]).1 != id,
        decreases n - i,
    {
        if *m.value_at(i) == id {
            return true;
        }
        i = i + 1;
    }
    false
}



/// Should this field be dropped? Exact names and byte-level name
/// prefixes are matched; the primary-key field is never dropped.
pub open spec fn spec_should_drop(
    name: Seq<char>,
    pk: Seq<char>,
    exact: Seq<String>,
    prefixes: Seq<String>,
) -> bool {
    &&& name != pk
    &&& spec_should_drop_name(name, exact, prefixes)
}

/// Is `b` a byte prefix of `a`?
fn bytes_is_prefix(a: &[u8], b: &[u8]) -> (r: bool)
    ensures
        r == (b@.len() <= a@.len() && a@.take(b@.len() as int) == b@),
{
    if b.len() > a.len() {
        return false;
    }
    let sub = vstd::slice::slice_subrange(a, 0, b.len());
    crate::codec::bytes_eq(sub, b)
}

impl CKVIndexSchema {
    /// Does any of the given exact names or prefixes make this name a
    /// drop candidate?
    fn name_matches(
        &self,
        name: &str,
        field_names: &Vec<String>,
        field_name_prefixes: &Vec<String>,
    ) -> (r: bool)
        ensures
            r == spec_should_drop_name(name@, field_names@, field_name_prefixes@),
    {
        let n = field_names.len();
        let mut i: usize = 0;
        while i < n
            invariant
                i <= n,
                n == field_names@.len(),
                forall|q: int| 0 <= q < i ==> (#[trigger] field_names@[q])@ != name@,
            decreases n - i,
        {
            if str_eq(field_names[i].as_str(), name) {
                proof {
                    assert((#[trigger] field_names@[i as int])@ == name@);
                }
                return true;
            }
            i = i + 1;
        }
        let m = field_name_prefixes.len();
        let mut j: usize = 0;
        while j < m
            invariant
                j <= m,
                m == field_name_prefixes@.len(),
                forall|q: int|
                    0 <= q < field_names@.len() ==> (#[trigger] field_names@[q])@ != name@,
                forall|q: int|
                    0 <= q < j ==> !(encode_utf8((#[trigger] field_name_prefixes@[q])@).len()
                        <= encode_utf8(name@).len() && encode_utf8(name@).take(
                        encode_utf8(field_name_prefixes@[q]@).len() as int,
                    ) == encode_utf8(field_name_prefixes@[q]@)),
            decreases m - j,
        {
            if bytes_is_prefix(name.as_bytes(), field_name_prefixes[j].as_str().as_bytes()) {
                return true;
            }
            j = j + 1;
        }
        false
    }

    /// Drop the named fields and every field whose name carries one of
    /// the prefixes, except the primary-key field; ids of survivors and
    /// the counter stay as they were, so re-registered names get fresh
    /// ids. Persists when anything changed.
    pub fn soft_delete_fields(
        &mut self,
        field_names: &Vec<String>,
        field_name_prefixes: &Vec<String>,
    ) -> (r: Result<(), IndexError>)
        requires
            old(self).wf(),
        ensures
            final(self).wf(),
            r is Ok,
            final(self).pk_name() == old(self).pk_name(),
            final(self).counter() == old(self).counter(),
            forall|k: Seq<char>|
                #[trigger] final(self).map().contains_key(k) <==> (old(self).map().contains_key(k)
                    && !spec_should_drop(
                    k,
                    old(self).pk_name(),
                    field_names@,
                    field_name_prefixes@,
                )),
            forall|k: Seq<char>|
                #[trigger] final(self).map().contains_key(k) ==> final(self).map()[k] == old(
                    self,
                ).map()[k],
    {
        let ghost exact = field_names@;
        let ghost prefixes = field_name_prefixes@;
        let ghost old_entries = self.field_name_to_id.seq_view();
        let n = self.field_name_to_id.len();
        let mut kept: StringMap<u32> = StringMap::new();
        let mut i: usize = 0;
        proof {
            lemma_seq_to_map(old_entries);
        }
        while i < n
            invariant
                i <= n,
                old(self).wf(),
                *self == *old(self),
                n == old_entries.len(),
                old_entries == self.field_name_to_id.seq_view(),
                exact == field_names@,
                prefixes == field_name_prefixes@,
                kept.wf(),
                forall|k: Seq<char>|
                    #[trigger] kept@.contains_key(k) ==> old(self).map().contains_key(k)
                        && kept@[k] == old(self).map()[k],
                forall|q: int|
                    0 <= q < i ==> ((#[trigger] kept@.contains_key(old_entries[q].0))
                        <==> !spec_should_drop(
                        old_entries[q].0,
                        old(self).pk_name(),
                        exact,
                        prefixes,
                    )),
                forall|k: Seq<char>|
                    #[trigger] kept@.contains_key(k) ==> key_index(old_entries, k) < i,
            decreases n - i,
        {
            let name = self.field_name_to_id.key_at(i);
            let id = *self.field_name_to_id.value_at(i);
            proof {
                lemma_seq_to_map(old_entries);
                lemma_key_index_self(old_entries, i as int);
                lemma_seq_to_map(kept.seq_view());
                lemma_key_index(kept.seq_view(), name@);
            }
            let is_pk = str_eq(name.as_str(), self.primary_key_field_name.as_str());
            let drop_it = if is_pk {
                false
            } else {
                self.name_matches(name.as_str(), field_names, field_name_prefixes)
            };
            if !drop_it {
                let name_copy = String::from_str(name.as_str());
                kept.insert(name_copy, id);
            }
            i = i + 1;
            proof {
                assert forall|q: int|
                    0 <= q < i implies ((#[trigger] kept@.contains_key(old_entries[q].0))
                        <==> !spec_should_drop(
                        old_entries[q].0,
                        old(self).pk_name(),
                        exact,
                        prefixes,
                    )) by {
                    if q < i - 1 {
                        assert(old_entries[q].0 != old_entries[i - 1].0);
                    }
                }
            }
        }
        self.field_name_to_id = kept;
        proof {
            lemma_seq_to_map(self.field_name_to_id.seq_view());
            assert forall|k: Seq<char>|
                #[trigger] self.map().contains_key(k) implies (old(self).map().contains_key(k)
                && !spec_should_drop(k, old(self).pk_name(), exact, prefixes)) by {
                let q = key_index(old_entries, k);
                lemma_key_index(old_entries, k);
            }
            assert forall|k: Seq<char>|
                old(self).map().contains_key(k) && !spec_should_drop(
                    k,
                    old(self).pk_name(),
                    exact,
                    prefixes,
                ) implies #[trigger] self.map().contains_key(k) by {
                let q = key_index(old_entries, k);
                lemma_key_index(old_entries, k);
                assert(old_entries[q].0 == k);
            }
            assert forall|q: int|
                0 <= q < self.entries().len() implies encode_utf8(
                (#[trigger] self.entries()[q]).0,
            ).len() <= u32::MAX && (self.entries()[q]).1 < self.counter() by {
                lemma_key_index_self(self.entries(), q);
                assert(self.map().contains_key(self.entries()[q].0));
                let q0 = key_index(old_entries, self.entries()[q].0);
                lemma_key_index(old_entries, self.entries()[q].0);
            }
            assert forall|q1: int, q2: int|
                0 <= q1 < q2 < self.entries().len() implies (#[trigger] self.entries()[q1]).1 != (
            #[trigger] self.entries()[q2]).1 by {
                lemma_key_index_self(self.entries(), q1);
                lemma_key_index_self(self.entries(), q2);
                assert(self.map().contains_key(self.entries()[q1].0));
                assert(self.map().contains_key(self.entries()[q2].0));
                assert(self.entries()[q1].0 != self.entries()[q2].0);
            }
            assert(self.entries().len() <= self.counter()) by {
                entries_len_le_counter(self.entries(), self.counter());
            }
            assert(!spec_should_drop(old(self).pk_name(), old(self).pk_name(), exact, prefixes));
            assert(self.map().contains_key(self.pk_name()));
            assert(self.map()[self.pk_name()] == 0);
        }
        self.save();
        Ok(())
    }

    /// Drop every field but the primary key and reset the counter: the
    /// reset pairs with a hard delete of all indexed data.
    pub fn hard_delete_all_fields(&mut self) -> (r: Result<(), IndexError>)
        requires
            old(self).wf(),
        ensures
            final(self).wf(),
            r is Ok,
            final(self).pk_name() == old(self).pk_name(),
            final(self).counter() == 1,
            final(self).entries() == seq![(old(self).pk_name(), 0u32)],
            final(self).map() == Map::<Seq<char>, u32>::empty().insert(old(self).pk_name(), 0u32),
    {
        let mut m: StringMap<u32> = StringMap::new();
        proof {
            lemma_seq_to_map(m.seq_view());
            lemma_key_index(m.seq_view(), self.primary_key_field_name@);
        }
        m.insert(self.primary_key_field_name.clone(), 0u32);
        self.field_name_to_id = m;
        self.field_id_counter = 1;
        proof {
            assert(self.entries() =~= seq![(old(self).pk_name(), 0u32)]);
            lemma_seq_to_map(self.entries());
        }
        self.save();
        Ok(())
    }
}

/// Entries with distinct ids below the counter cannot outnumber it.
proof fn entries_len_le_counter(s: Seq<(Seq<char>, u32)>, c: int)
    requires
        forall|q: int| 0 <= q < s.len() ==> (#[trigger] s[q]).1 < c,
        forall|q1: int, q2: int|
            0 <= q1 < q2 < s.len() ==> (#[trigger] s[q1]).1 != (#[trigger] s[q2]).1,
        0 <= c,
    ensures
        s.len() <= c,
{
    let ids = Seq::new(s.len(), |q: int| s[q].1);
    assert(forall|q: int| 0 <= q < ids.len() ==> 0 <= #[trigger] ids[q] < c);
    assert(forall|q1: int, q2: int|
        0 <= q1 < q2 < ids.len() ==> #[trigger] ids[q1] != #[trigger] ids[q2]);
    lemma_distinct_bounded_len(ids, c);
}

/// A sequence of distinct values drawn from `[0, c)` has at most `c`
/// elements.
pub proof fn lemma_distinct_bounded_len(ids: Seq<u32>, c: int)
    requires
        forall|q: int| 0 <= q < ids.len() ==> 0 <= #[trigger] ids[q] < c,
        forall|q1: int, q2: int|
            0 <= q1 < q2 < ids.len() ==> #[trigger] ids[q1] != #[trigger] ids[q2],
        0 <= c,
    ensures
        ids.len() <= c,
    decreases c,
{
    if ids.len() > c {
        if c == 0 {
            assert(false) by {
                assert(0 <= ids[0int]);
                assert(ids[0int] < c);
            }
        } else {
            // remove every occurrence of value c - 1 (there is at most
            // one) and recurse on the rest
            let v = (c - 1) as u32;
            if exists|q: int| 0 <= q < ids.len() && ids[q] == v {
                let q = choose|q: int| 0 <= q < ids.len() && ids[q] == v;
                let rest = ids.remove(q);
                assert forall|p: int| 0 <= p < rest.len() implies 0 <= #[trigger] rest[p] < c
                    - 1 by {
                    if p < q {
                        assert(rest[p] == ids[p]);
                        if ids[p] == v {
                            assert(ids[p] != ids[q]);
                        }
                    } else {
                        assert(rest[p] == ids[p + 1]);
                        if ids[p + 1] == v {
                            assert(ids[q] != ids[p + 1]);
                        }
                    }
                }
                assert forall|p1: int, p2: int|
                    0 <= p1 < p2 < rest.len() implies #[trigger] rest[p1] != #[trigger] rest[
                    p2] by {
                    assert(rest[p1] == (if p1 < q {
                        ids[p1]
                    } else {
                        ids[p1 + 1]
                    }));
                    assert(rest[p2] == (if p2 < q {
                        ids[p2]
                    } else {
                        ids[p2 + 1]
                    }));
                }
                lemma_distinct_bounded_len(rest, c - 1);
            } else {
                assert(forall|q: int| 0 <= q < ids.len() ==> 0 <= #[trigger] ids[q] < c - 1);
                lemma_distinct_bounded_len(ids, c - 1);
            }
        }
    }
}

/// Does this name fall to the exact list or the prefix list?
pub open spec fn spec_should_drop_name(
    name: Seq<char>,
    exact: Seq<String>,
    prefixes: Seq<String>,
) -> bool {
    (exists|q: int| 0 <= q < exact.len() && (#[trigger] exact[q])@ == name) || exists|j: int|
        0 <= j < prefixes.len() && encode_utf8((#[trigger] prefixes[j])@).len() <= encode_utf8(
            name,
        ).len() && encode_utf8(name).take(encode_utf8(prefixes[j]@).len() as int) == encode_utf8(
            prefixes[j]@,
        )
}



/// The ids below `c` that some entry of the registry carries, in
/// ascending order.
pub open spec fn spec_present_ids(entries: Seq<(Seq<char>, u32)>, c: int) -> Seq<u32>
    decreases c,
{
    if c <= 0 {
        Seq::empty()
    } else {
        let pre = spec_present_ids(entries, c - 1);
        if exists|q: int| 0 <= q < entries.len() && (#[trigger] entries[q]).1 == c - 1 {
            pre.push((c - 1) as u32)
        } else {
            pre
        }
    }
}

/// The position of the entry carrying `id`, if any.
fn find_entry_by_id(m: &StringMap<u32>, id: u32) -> (r: Option<usize>)
    ensures
        match r {
            Some(q) => q < m.seq_view().len() && m.seq_view()[q as int].1 == id,
            None => forall|q: int| 0 <= q < m.seq_view().len() ==> (#[trigger] m.seq_view()[q]).1 != id,
        },
{
    let n = m.len();
    let mut i: usize = 0;
    while i < n
        invariant
            i <= n,
            n == m.seq_view().len(),
            forall|q: int| 0 <= q < i ==> (#[trigger] m.seq_view()[q]).1 != id,
        decreases n - i,
    {
        if *m.value_at(i) == id {
            return Some(i);
        }
        i = i + 1;
    }
    None
}

impl CKVIndexSchema {
    /// Renumber the fields densely: the result lists the current ids in
    /// ascending order, and each field's new id is its old id's position
    /// in that list. The counter shrinks to the number of fields. The
    /// returned vector is the map a segment compaction copies through
    /// (new id to old id).
    pub fn compact(&mut self) -> (r: Result<Vec<FieldId>, IndexError>)
        requires
            old(self).wf(),
        ensures
            final(self).wf(),
            final(self).pk_name() == old(self).pk_name(),
            match r {
                Ok(ids) => {
                    &&& ids@.len() <= FIELD_ID_LIMIT
                    &&& ids@ == spec_present_ids(old(self).entries(), old(self).counter())
                    &&& final(self).counter() == ids@.len()
                    &&& forall|a: int, b: int| 0 <= a < b < ids@.len() ==> ids@[a] < ids@[b]
                    &&& forall|k: Seq<char>|
                        #[trigger] final(self).map().contains_key(k) <==> old(
                            self,
                        ).map().contains_key(k)
                    &&& forall|k: Seq<char>|
                        #[trigger] final(self).map().contains_key(k) ==> final(self).map()[k]
                            < ids@.len() && ids@[final(self).map()[k] as int] == old(self).map()[k]
                },
                Err(e) => false,
            },
    {
        let ghost old_map = self.map();
        let ghost old_entries = self.field_name_to_id.seq_view();
        let counter0 = self.field_id_counter;
        let mut ids: Vec<u32> = Vec::new();
        let mut newm: StringMap<u32> = StringMap::new();
        let mut id: u32 = 0;
        proof {
            lemma_seq_to_map(old_entries);
        }
        while (id as u64) < counter0
            invariant
                old(self).wf(),
                *self == *old(self),
                old_map == old(self).map(),
                old_entries == old(self).field_name_to_id.seq_view(),
                counter0 == old(self).counter_u64(),
                counter0 <= FIELD_ID_LIMIT as u64,
                id as u64 <= counter0,
                newm.wf(),
                newm.seq_view().len() == ids@.len(),
                ids@.len() <= id,
                ids@ == spec_present_ids(old_entries, id as int),
                forall|a: int| 0 <= a < ids@.len() ==> (#[trigger] ids@[a]) < id,
                forall|a: int, b: int| 0 <= a < b < ids@.len() ==> ids@[a] < ids@[b],
                forall|k: Seq<char>|
                    #[trigger] newm@.contains_key(k) ==> old_map.contains_key(k) && old_map[k]
                        < id,
                forall|k: Seq<char>|
                    old_map.contains_key(k) && old_map[k] < id ==> #[trigger] newm@.contains_key(
                        k,
                    ),
                forall|k: Seq<char>|
                    #[trigger] newm@.contains_key(k) ==> newm@[k] < ids@.len() && ids@[
                    newm@[k] as int] == old_map[k],
                forall|q: int|
                    0 <= q < newm.seq_view().len() ==> encode_utf8(
                        (#[trigger] newm.seq_view()[q]).0,
                    ).len() <= u32::MAX,
            decreases counter0 - id,
        {
            proof {
                lemma_seq_to_map(old_entries);
            }
            match find_entry_by_id(&self.field_name_to_id, id) {
                Some(q) => {
                    let name = self.field_name_to_id.key_at(q);
                    let new_id = ids.len() as u32;
                    proof {
                        lemma_key_index_self(old_entries, q as int);
                        assert(old_map.contains_key(name@));
                        assert(old_map[name@] == id);
                        lemma_seq_to_map(newm.seq_view());
                        lemma_key_index(newm.seq_view(), name@);
                        if key_index(newm.seq_view(), name@) >= 0 {
                            assert(newm@.contains_key(name@));
                            assert(ids@[newm@[name@] as int] == id);
                        }
                    }
                    proof {
                        assert(old_entries[q as int].1 == id);
                        assert(exists|w: int|
                            0 <= w < old_entries.len() && (#[trigger] old_entries[w]).1 == id);
                    }
                    ids.push(id);
                    newm.insert(String::from_str(name.as_str()), new_id);
                    proof {
                        assert forall|a: int, b: int|
                            0 <= a < b < ids@.len() implies ids@[a] < ids@[b] by {
                            if b < ids@.len() - 1 {
                            } else {
                                assert(ids@[b] == id);
                            }
                        }
                    }
                },
                None => {
                    proof {
                        assert(!(exists|w: int|
                            0 <= w < old_entries.len() && (#[trigger] old_entries[w]).1 == id));
                        assert(ids@ == spec_present_ids(old_entries, id as int + 1));
                        assert forall|k: Seq<char>|
                            old_map.contains_key(k) && old_map[k] < id + 1 implies #[trigger] newm@.contains_key(
                            k,
                        ) by {
                            if old_map[k] == id {
                                let q = key_index(old_entries, k);
                                lemma_key_index(old_entries, k);
                                assert(old_entries[q].1 == id);
                            }
                        }
                    }
                },
            }
            id = id + 1;
        }
        self.field_name_to_id = newm;
        self.field_id_counter = ids.len() as u64;
        proof {
            lemma_seq_to_map(self.field_name_to_id.seq_view());
            assert forall|k: Seq<char>|
                old_map.contains_key(k) implies #[trigger] self.map().contains_key(k) by {
                assert(old_map[k] < counter0);
            }
            assert forall|q: int|
                0 <= q < self.entries().len() implies (#[trigger] self.entries()[q]).1
                    < self.counter() by {
                lemma_key_index_self(self.entries(), q);
                assert(self.map().contains_key(self.entries()[q].0));
            }
            assert forall|k1: Seq<char>, k2: Seq<char>|
                self.map().contains_key(k1) && self.map().contains_key(k2) && k1 != k2 implies
                #[trigger] self.map()[k1] != #[trigger] self.map()[k2] by {
                if self.map()[k1] == self.map()[k2] {
                    assert(ids@[self.map()[k1] as int] == old_map[k1]);
                    assert(ids@[self.map()[k2] as int] == old_map[k2]);
                }
            }
            assert(self.entries().len() <= self.counter()) by {
                assert(self.entries().len() == ids@.len());
            }
            assert(self.map().contains_key(self.pk_name())) by {
                assert(old_map.contains_key(old(self).pk_name()));
            }
            assert(self.map()[self.pk_name()] == 0) by {
                let newid = self.map()[self.pk_name()];
                assert(ids@[newid as int] == old_map[old(self).pk_name()]);
                assert(old_map[old(self).pk_name()] == 0);
                if newid > 0 {
                    assert(ids@[0] < ids@[newid as int]);
                }
            }
        }
        self.save();
        Ok(ids)
    }
}



proof fn lemma_parse_schema_entries_roundtrip(s: Seq<(Seq<char>, u32)>)
    requires
        forall|i: int| 0 <= i < s.len() ==> encode_utf8((#[trigger] s[i]).0).len() <= u32::MAX,
        forall|i: int| 0 <= i < s.len() ==> (#[trigger] s[i]).1 < FIELD_ID_LIMIT,
    ensures
        spec_parse_schema_entries(spec_encode_schema_entries(s), s.len() as nat) == Some(s),
    decreases s.len(),
{
    lemma_le_roundtrips();
    if s.len() > 0 {
        let e = s[0];
        let nb = encode_utf8(e.0);
        let l = nb.len() as int;
        let enc = spec_encode_schema_entries(s);
        let rest = spec_encode_schema_entries(s.drop_first());
        assert(enc == spec_u32_to_le_bytes(l as u32) + nb + spec_u32_to_le_bytes(e.1) + rest);
        assert(enc.subrange(0, 4) =~= spec_u32_to_le_bytes(l as u32));
        assert(enc.subrange(4, 4 + l) =~= nb);
        vstd::utf8::encode_utf8_valid_utf8(e.0);
        vstd::utf8::encode_utf8_decode_utf8(e.0);
        assert(enc.subrange(4 + l, 8 + l) =~= spec_u32_to_le_bytes(e.1));
        assert(enc.skip(8 + l) =~= rest);
        lemma_parse_schema_entries_roundtrip(s.drop_first());
        assert(seq![(e.0, e.1)] + s.drop_first() =~= s);
        assert((e.0, e.1) == e);
    }
}

/// What the registry saved, a later open parses back: the registry's
/// crash-recovery round trip.
pub proof fn lemma_parse_schema_roundtrip(pk: Seq<char>, s: Seq<(Seq<char>, u32)>, counter: u64)
    requires
        encode_utf8(pk).len() <= u32::MAX,
        forall|i: int| 0 <= i < s.len() ==> encode_utf8((#[trigger] s[i]).0).len() <= u32::MAX,
        forall|i: int| 0 <= i < s.len() ==> (#[trigger] s[i]).1 < FIELD_ID_LIMIT,
        s.len() <= FIELD_ID_LIMIT,
    ensures
        spec_parse_schema(spec_encode_schema(pk, s, counter)) == Some((pk, s, counter)),
{
    lemma_le_roundtrips();
    let b = spec_encode_schema(pk, s, counter);
    let pkb = encode_utf8(pk);
    let pl = pkb.len() as int;
    assert(b.subrange(0, 4) =~= spec_u32_to_le_bytes(pl as u32));
    assert(b.subrange(4, 4 + pl) =~= pkb);
    vstd::utf8::encode_utf8_valid_utf8(pk);
    vstd::utf8::encode_utf8_decode_utf8(pk);
    assert(b.subrange(4 + pl, 12 + pl) =~= spec_u64_to_le_bytes(counter));
    assert(b.subrange(12 + pl, 16 + pl) =~= spec_u32_to_le_bytes(s.len() as u32));
    assert(b.skip(16 + pl) =~= spec_encode_schema_entries(s));
    lemma_parse_schema_entries_roundtrip(s);
}


} // verus!
