//! Typed field values and their arena encoding.
//!
//! Every value stored in a shard's arena begins with a two-byte
//! little-endian type tag; fixed-width types are followed by their raw
//! little-endian payload, variable-width types by a varint length and the
//! payload, and the unknown type by nothing at all.

use vstd::prelude::*;
use vstd::bytes::{spec_u16_to_le_bytes, spec_u16_from_le_bytes};
use crate::codec::{
    spec_varint, spec_varint_decode, encode_varint, decode_varint, push_u16_le, push_bytes,
    read_u16_le, lemma_le_roundtrips, lemma_varint_roundtrip, lemma_varint_decode_extend,
};
use crate::error::SchemaError;
use vstd::slice::slice_subrange;

verus! {

/// Identifier of a registered field; the registry never assigns ids at or
/// above 2^16.
pub type FieldId = u32;

/// The greatest number of fields the registry can hold; ids live in
/// `[0, FIELD_ID_LIMIT)`.
pub const FIELD_ID_LIMIT: u32 = 0x10000;

/// The type of a field value. `Str` and `Bytes` are variable-width; the
/// rest are fixed-width; `Unknown` stands for a type this reader does not
/// recognise.
#[derive(Debug, Clone, Copy, PartialEq, Eq, Structural)]
pub enum FieldType {
    Unknown,
    Int32,
    Int64,
    Float32,
    Float64,
    Str,
    Bytes,
    Boolean,
}

/// The two-byte tag under which a type is stored in the arena.
pub open spec fn spec_type_code(t: FieldType) -> u16 {
    match t {
        FieldType::Unknown => 0,
        FieldType::Int32 => 1,
        FieldType::Int64 => 2,
        FieldType::Float32 => 3,
        FieldType::Float64 => 4,
        FieldType::Str => 5,
        FieldType::Bytes => 6,
        FieldType::Boolean => 7,
    }
}

/// The type a stored tag denotes, if any.
pub open spec fn spec_type_from_code(c: u16) -> Option<FieldType> {
    if c == 0 {
        Some(FieldType::Unknown)
    } else if c == 1 {
        Some(FieldType::Int32)
    } else if c == 2 {
        Some(FieldType::Int64)
    } else if c == 3 {
        Some(FieldType::Float32)
    } else if c == 4 {
        Some(FieldType::Float64)
    } else if c == 5 {
        Some(FieldType::Str)
    } else if c == 6 {
        Some(FieldType::Bytes)
    } else if c == 7 {
        Some(FieldType::Boolean)
    } else {
        None
    }
}

/// The tag round-trips through its type.
pub proof fn lemma_type_code_roundtrip()
    ensures
        forall|t: FieldType| spec_type_from_code(#[trigger] spec_type_code(t)) == Some(t),
{
}

#[verifier::when_used_as_spec(spec_type_code)]
pub fn type_code(t: FieldType) -> (c: u16)
    ensures
        c == spec_type_code(t),
{
    match t {
        FieldType::Unknown => 0,
        FieldType::Int32 => 1,
        FieldType::Int64 => 2,
        FieldType::Float32 => 3,
        FieldType::Float64 => 4,
        FieldType::Str => 5,
        FieldType::Bytes => 6,
        FieldType::Boolean => 7,
    }
}

#[verifier::when_used_as_spec(spec_type_from_code)]
pub fn type_from_code(c: u16) -> (t: Option<FieldType>)
    ensures
        t == spec_type_from_code(c),
{
    if c == 0 {
        Some(FieldType::Unknown)
    } else if c == 1 {
        Some(FieldType::Int32)
    } else if c == 2 {
        Some(FieldType::Int64)
    } else if c == 3 {
        Some(FieldType::Float32)
    } else if c == 4 {
        Some(FieldType::Float64)
    } else if c == 5 {
        Some(FieldType::Str)
    } else if c == 6 {
        Some(FieldType::Bytes)
    } else if c == 7 {
        Some(FieldType::Boolean)
    } else {
        None
    }
}

/// The payload width of a fixed-width type; `None` for variable-width
/// and unknown types.
pub open spec fn spec_fixed_width(t: FieldType) -> Option<int> {
    match t {
        FieldType::Int32 => Some(4int),
        FieldType::Float32 => Some(4int),
        FieldType::Int64 => Some(8int),
        FieldType::Float64 => Some(8int),
        FieldType::Boolean => Some(1int),
        FieldType::Str => None,
        FieldType::Bytes => None,
        FieldType::Unknown => None,
    }
}

/// A typed value on its way into or out of the store: the serialized
/// payload bytes together with their declared type.
#[derive(Debug, Clone, PartialEq, Eq)]
#[verifier::ext_equal]
pub struct FieldValue {
    pub field_type: FieldType,
    pub value: Vec<u8>,
}

/// A value is well formed when a fixed-width type carries exactly its
/// width. Writing a malformed value is not defined.
pub open spec fn wf_field_value(fv: FieldValue) -> bool {
    match spec_fixed_width(fv.field_type) {
        Some(w) => fv.value@.len() == w,
        None => true,
    }
}

/// A value the arena can hold: well formed, and a variable-width payload
/// no longer than a varint length can say.
pub open spec fn spec_encodable(fv: FieldValue) -> bool {
    &&& wf_field_value(fv)
    &&& ((fv.field_type is Str || fv.field_type is Bytes) ==> fv.value@.len() <= u32::MAX)
}

/// A value as it rests in the arena: its type and its payload bytes (an
/// unknown-typed value keeps no payload).
pub ghost struct StoredValue {
    pub field_type: FieldType,
    pub bytes: Seq<u8>,
}

/// What the arena keeps for an inserted value.
pub open spec fn spec_stored_of(fv: FieldValue) -> StoredValue {
    StoredValue {
        field_type: fv.field_type,
        bytes: if fv.field_type is Unknown {
            Seq::empty()
        } else {
            fv.value@
        },
    }
}

/// The arena record of a value: tag, then payload, with a varint length
/// prefix for variable-width types.
pub open spec fn spec_encode_value(fv: FieldValue) -> Seq<u8> {
    let tag = spec_u16_to_le_bytes(spec_type_code(fv.field_type));
    match fv.field_type {
        FieldType::Unknown => tag,
        FieldType::Str => tag + spec_varint(fv.value@.len() as u32) + fv.value@,
        FieldType::Bytes => tag + spec_varint(fv.value@.len() as u32) + fv.value@,
        _ => tag + fv.value@,
    }
}

/// Decode the arena record at `off`: the stored value and the record's
/// total width, or `None` when no well-formed record lies there.
pub open spec fn spec_value_at(arena: Seq<u8>, off: int) -> Option<(StoredValue, int)> {
    if 0 <= off && off + 2 <= arena.len() {
        let code = spec_u16_from_le_bytes(arena.subrange(off, off + 2));
        match spec_type_from_code(code) {
            None => None,
            Some(ft) => match spec_fixed_width(ft) {
                Some(w) => if off + 2 + w <= arena.len() {
                    Some(
                        (
                            StoredValue { field_type: ft, bytes: arena.subrange(off + 2, off + 2 + w) },
                            2 + w,
                        ),
                    )
                } else {
                    None
                },
                None => if ft is Unknown {
                    Some((StoredValue { field_type: ft, bytes: Seq::empty() }, 2))
                } else {
                    match spec_varint_decode(arena.skip(off + 2)) {
                        None => None,
                        Some(p) => if off + 2 + p.1 + p.0 <= arena.len() {
                            Some(
                                (
                                    StoredValue {
                                        field_type: ft,
                                        bytes: arena.subrange(off + 2 + p.1, off + 2 + p.1 + p.0),
                                    },
                                    2 + p.1 + p.0,
                                ),
                            )
                        } else {
                            None
                        },
                    }
                },
            },
        }
    } else {
        None
    }
}

/// A record decoded within an arena decodes to the same thing after the
/// arena grows.
pub proof fn lemma_value_at_extend(arena: Seq<u8>, ext: Seq<u8>, off: int)
    requires
        spec_value_at(arena, off) is Some,
    ensures
        spec_value_at(arena + ext, off) == spec_value_at(arena, off),
{
    let big = arena + ext;
    assert(big.subrange(off, off + 2) =~= arena.subrange(off, off + 2));
    let code = spec_u16_from_le_bytes(arena.subrange(off, off + 2));
    match spec_type_from_code(code) {
        None => {},
        Some(ft) => match spec_fixed_width(ft) {
            Some(w) => {
                assert(big.subrange(off + 2, off + 2 + w) =~= arena.subrange(off + 2, off + 2 + w));
            },
            None => {
                if !(ft is Unknown) {
                    assert(spec_varint_decode(arena.skip(off + 2)) is Some);
                    lemma_varint_decode_extend(arena.skip(off + 2), ext);
                    assert(big.skip(off + 2) =~= arena.skip(off + 2) + ext);
                    let p = spec_varint_decode(arena.skip(off + 2))->Some_0;
                    crate::codec::lemma_varint_decode_k_bound(arena.skip(off + 2), 5);
                    assert(1 <= p.1);
                    assert(off + 2 + p.1 + p.0 <= arena.len());
                    assert forall|i: int| 0 <= i < p.0 implies #[trigger] big.subrange(
                        off + 2 + p.1,
                        off + 2 + p.1 + p.0,
                    )[i] == arena.subrange(off + 2 + p.1, off + 2 + p.1 + p.0)[i] by {
                        assert(big[off + 2 + p.1 + i] == arena[off + 2 + p.1 + i]);
                    }
                    assert(big.subrange(off + 2 + p.1, off + 2 + p.1 + p.0) =~= arena.subrange(
                        off + 2 + p.1,
                        off + 2 + p.1 + p.0,
                    ));
                }
            },
        },
    }
}

/// An encoded record placed at `off` decodes to the value that was
/// encoded, whatever lies before and after it.
pub proof fn lemma_value_at_roundtrip(arena: Seq<u8>, off: int, fv: FieldValue)
    requires
        spec_encodable(fv),
        0 <= off,
        off + spec_encode_value(fv).len() <= arena.len(),
        arena.subrange(off, off + spec_encode_value(fv).len() as int) == spec_encode_value(fv),
    ensures
        spec_value_at(arena, off) == Some(
            (spec_stored_of(fv), spec_encode_value(fv).len() as int),
        ),
{
    lemma_le_roundtrips();
    let enc = spec_encode_value(fv);
    let tag = spec_u16_to_le_bytes(spec_type_code(fv.field_type));
    assert(tag.len() == 2);
    let rest0 = arena.skip(off + enc.len());
    assert(forall|i: int|
        0 <= i < enc.len() ==> #[trigger] arena[off + i] == enc[i]) by {
        assert(forall|i: int|
            0 <= i < enc.len() ==> #[trigger] arena.subrange(off, off + enc.len() as int)[i]
                == arena[off + i]);
    }
    assert(arena.subrange(off, off + 2) =~= tag);
    assert(spec_u16_from_le_bytes(arena.subrange(off, off + 2)) == spec_type_code(fv.field_type));
    lemma_type_code_roundtrip();
    match fv.field_type {
        FieldType::Unknown => {},
        FieldType::Str | FieldType::Bytes => {
            let n = fv.value@.len() as u32;
            let vi = spec_varint(n);
            assert(enc =~= tag + vi + fv.value@);
            assert forall|i: int| 0 <= i < arena.skip(off + 2).len() implies arena.skip(
                off + 2,
            )[i] == (vi + (fv.value@ + rest0))[i] by {
                assert(arena.skip(off + 2)[i] == arena[off + 2 + i]);
                if i < vi.len() {
                    assert(enc[2 + i] == vi[i]);
                    assert(arena[off + (2 + i)] == enc[2 + i]);
                } else if i < vi.len() + fv.value@.len() {
                    assert(enc[2 + i] == fv.value@[i - vi.len()]);
                    assert(arena[off + (2 + i)] == enc[2 + i]);
                } else {
                    assert((vi + (fv.value@ + rest0))[i] == rest0[
                        i - vi.len() - fv.value@.len()]);
                    assert(rest0[i - vi.len() - fv.value@.len()] == arena[off + enc.len() + (i
                        - vi.len() - fv.value@.len())]);
                }
            }
            assert(arena.skip(off + 2) =~= vi + (fv.value@ + rest0));
            lemma_varint_roundtrip(n, fv.value@ + rest0);
            assert(spec_varint_decode(arena.skip(off + 2)) == Some((n, vi.len() as int)));
            assert forall|i: int| 0 <= i < n implies arena.subrange(
                off + 2 + vi.len(),
                off + 2 + vi.len() + n,
            )[i] == fv.value@[i] by {
                assert(enc[2 + vi.len() + i] == fv.value@[i]);
                assert(arena[off + (2 + vi.len() + i)] == enc[2 + vi.len() + i]);
            }
            assert(arena.subrange(off + 2 + vi.len(), off + 2 + vi.len() + n) =~= fv.value@);
        },
        _ => {
            let w = spec_fixed_width(fv.field_type)->Some_0;
            assert(enc =~= tag + fv.value@);
            assert forall|i: int| 0 <= i < w implies arena.subrange(off + 2, off + 2 + w)[i]
                == fv.value@[i] by {
                assert(enc[2 + i] == fv.value@[i]);
                assert(arena[off + (2 + i)] == enc[2 + i]);
            }
            assert(arena.subrange(off + 2, off + 2 + w) =~= fv.value@);
        },
    }
}

/// Append the arena record of `fv` to `out`.
pub fn encode_value(out: &mut Vec<u8>, fv: &FieldValue)
    requires
        spec_encodable(*fv),
        old(out)@.len() + spec_encode_value(*fv).len() <= usize::MAX,
    ensures
        final(out)@ == old(out)@ + spec_encode_value(*fv),
{
    push_u16_le(out, type_code(fv.field_type));
    match fv.field_type {
        FieldType::Unknown => {},
        FieldType::Str | FieldType::Bytes => {
            encode_varint(out, fv.value.len() as u32);
            push_bytes(out, fv.value.as_slice());
        },
        _ => {
            push_bytes(out, fv.value.as_slice());
        },
    }
    proof {
        assert(final(out)@ =~= old(out)@ + spec_encode_value(*fv));
    }
}

/// The width the arena record of `fv` will take; `None` when the value
/// is over-long for the format or the width cannot be represented.
pub fn encoded_value_len(fv: &FieldValue) -> (r: Option<usize>)
    requires
        wf_field_value(*fv),
    ensures
        match r {
            Some(n) => spec_encodable(*fv) && n == spec_encode_value(*fv).len(),
            None => !spec_encodable(*fv) || spec_encode_value(*fv).len() > usize::MAX,
        },
{
    proof {
        lemma_le_roundtrips();
    }
    match fv.field_type {
        FieldType::Unknown => Some(2),
        FieldType::Str | FieldType::Bytes => {
            if fv.value.len() as u64 > u32::MAX as u64 {
                return None;
            }
            let n = fv.value.len() as u32;
            let prefix = varint_len(n);
            fv.value.len().checked_add(2 + prefix)
        },
        _ => Some(2 + fv.value.len()),
    }
}

/// The byte count of the varint of `n`.
fn varint_len(n: u32) -> (r: usize)
    ensures
        r == spec_varint(n).len(),
        1 <= r <= 5,
    decreases n,
{
    proof {
        crate::codec::lemma_varint_len(n);
    }
    if n < 0x80 {
        1
    } else {
        1 + varint_len(n / 0x80)
    }
}

/// Decode the arena record at `off`, handing back the stored type, a copy
/// of the payload bytes, and the record's total width.
pub fn read_value_at(arena: &Vec<u8>, off: usize) -> (r: Option<(FieldType, Vec<u8>, usize)>)
    ensures
        match r {
            None => spec_value_at(arena@, off as int) is None,
            Some(t) => {
                &&& spec_value_at(arena@, off as int) matches Some(p)
                &&& p.0.field_type == t.0
                &&& p.0.bytes == t.1@
                &&& p.1 == t.2 as int
                &&& off + t.2 <= arena@.len()
            },
        },
{
    let n = arena.len();
    if off >= n || n - off < 2 {
        return None;
    }
    let code = read_u16_le(arena.as_slice(), off);
    let ft = match type_from_code(code) {
        None => {
            return None;
        },
        Some(ft) => ft,
    };
    match ft {
        FieldType::Unknown => Some((ft, Vec::new(), 2)),
        FieldType::Str | FieldType::Bytes => {
            match decode_varint(arena.as_slice(), off + 2) {
                None => None,
                Some((len, consumed)) => {
                    let start = off + 2 + consumed;
                    if (len as u64) <= (n - start) as u64 {
                        let payload = slice_subrange(arena.as_slice(), start, start + len as usize);
                        let mut copy: Vec<u8> = Vec::new();
                        push_bytes(&mut copy, payload);
                        Some((ft, copy, 2 + consumed + len as usize))
                    } else {
                        None
                    }
                },
            }
        },
        _ => {
            let w: usize = match ft {
                FieldType::Int32 | FieldType::Float32 => 4,
                FieldType::Int64 | FieldType::Float64 => 8,
                _ => 1,
            };
            if n - off - 2 >= w {
                let payload = slice_subrange(arena.as_slice(), off + 2, off + 2 + w);
                let mut copy: Vec<u8> = Vec::new();
                push_bytes(&mut copy, payload);
                Some((ft, copy, 2 + w))
            } else {
                None
            }
        },
    }
}

/// A field of the registry as the schema loader sees it: a name, a stable
/// id, and a declared type.
#[derive(Debug, Clone, PartialEq, Eq)]
pub struct Field {
    name: String,
    id: u16,
    field_type: FieldType,
}

impl Field {
    /// Build a field from its parts; a field never carries the unknown
    /// type.
    pub fn new(name: String, id: u16, field_type: FieldType) -> (r: Field)
        requires
            !(field_type is Unknown),
        ensures
            r.spec_name() == name@,
            r.spec_id() == id,
            r.spec_field_type() == field_type,
    {
        Field { name, id, field_type }
    }

    pub closed spec fn spec_name(self) -> Seq<char> {
        self.name@
    }

    pub closed spec fn spec_id(self) -> u16 {
        self.id
    }

    pub closed spec fn spec_field_type(self) -> FieldType {
        self.field_type
    }

    pub fn name(&self) -> (r: &str)
        ensures
            r@ == self.spec_name(),
    {
        self.name.as_str()
    }

    pub fn id(&self) -> (r: u16)
        ensures
            r == self.spec_id(),
    {
        self.id
    }

    pub fn field_type(&self) -> (r: &FieldType)
        ensures
            *r == self.spec_field_type(),
    {
        &self.field_type
    }

    /// Length of the field's value, where the type fixes it.
    pub fn value_len(&self) -> (r: Option<usize>)
        requires
            !(self.spec_field_type() is Unknown),
        ensures
            match spec_fixed_width(self.spec_field_type()) {
                Some(w) => r == Some(w as usize),
                None => r is None,
            },
    {
        match self.field_type {
            FieldType::Int32 | FieldType::Float32 => Some(4),
            FieldType::Int64 | FieldType::Float64 => Some(8),
            FieldType::Boolean => Some(1),
            _ => None,
        }
    }
}

/// A serialized value ready for the index, stripped of its type.
#[derive(Debug)]
pub struct IndexedValue {
    value: Vec<u8>,
}

impl IndexedValue {
    /// Take the serialized bytes of a typed value; an unknown-typed value
    /// has none.
    pub fn try_from_field_value(fv: &FieldValue) -> (r: Result<IndexedValue, SchemaError>)
        ensures
            match r {
                Ok(iv) => !(fv.field_type is Unknown) && iv.spec_value() == fv.value@,
                Err(e) => fv.field_type is Unknown && e == SchemaError::UnsupportedField,
            },
    {
        if let FieldType::Unknown = fv.field_type {
            return Err(SchemaError::UnsupportedField);
        }
        let mut copy: Vec<u8> = Vec::new();
        push_bytes(&mut copy, fv.value.as_slice());
        Ok(IndexedValue { value: copy })
    }

    pub closed spec fn spec_value(self) -> Seq<u8> {
        self.value@
    }

    pub fn serialized_ref(&self) -> (r: &[u8])
        ensures
            r@ == self.spec_value(),
    {
        self.value.as_slice()
    }

    pub fn serialize(self) -> (r: Vec<u8>)
        ensures
            r@ == self.spec_value(),
    {
        self.value
    }

    pub fn len(&self) -> (r: usize)
        ensures
            r == self.spec_value().len(),
    {
        self.value.len()
    }
}



/// A decoded record spans at least its two tag bytes.
pub proof fn lemma_value_at_min_size(arena: Seq<u8>, off: int)
    requires
        spec_value_at(arena, off) is Some,
    ensures
        spec_value_at(arena, off)->Some_0.1 >= 2,
        0 <= off,
        off + spec_value_at(arena, off)->Some_0.1 <= arena.len(),
{
    let code = spec_u16_from_le_bytes(arena.subrange(off, off + 2));
    match spec_type_from_code(code) {
        None => {},
        Some(ft) => {
            if !(ft is Unknown) && spec_fixed_width(ft) is None {
                crate::codec::lemma_varint_decode_k_bound(arena.skip(off + 2), 5);
            }
        },
    }
}

/// A record that lies wholly below `w` decodes the same against the
/// prefix of the arena up to `w`.
pub proof fn lemma_value_at_restrict(arena: Seq<u8>, off: int, w: int)
    requires
        spec_value_at(arena, off) is Some,
        off + spec_value_at(arena, off)->Some_0.1 <= w <= arena.len(),
    ensures
        spec_value_at(arena.take(w), off) == spec_value_at(arena, off),
{
    lemma_value_at_min_size(arena, off);
    let p = spec_value_at(arena, off)->Some_0;
    assert(0 <= off && off + 2 <= w);
    let t = arena.take(w);
    assert(t.subrange(off, off + 2) =~= arena.subrange(off, off + 2));
    let code = spec_u16_from_le_bytes(arena.subrange(off, off + 2));
    match spec_type_from_code(code) {
        None => {},
        Some(ft) => match spec_fixed_width(ft) {
            Some(wd) => {
                assert(t.subrange(off + 2, off + 2 + wd) =~= arena.subrange(
                    off + 2,
                    off + 2 + wd,
                ));
            },
            None => {
                if !(ft is Unknown) {
                    let p = spec_varint_decode(arena.skip(off + 2))->Some_0;
                    crate::codec::lemma_varint_decode_k_bound(arena.skip(off + 2), 5);
                    crate::codec::lemma_varint_decode_take(arena.skip(off + 2), w - off - 2);
                    assert(t.skip(off + 2) =~= arena.skip(off + 2).take(w - off - 2));
                    assert(t.subrange(off + 2 + p.1, off + 2 + p.1 + p.0) =~= arena.subrange(
                        off + 2 + p.1,
                        off + 2 + p.1 + p.0,
                    ));
                }
            },
        },
    }
}

/// Two arenas that agree below `w` decode a record below `w` alike.
pub proof fn lemma_value_at_agree(a1: Seq<u8>, a2: Seq<u8>, off: int, w: int)
    requires
        spec_value_at(a1, off) is Some,
        off + spec_value_at(a1, off)->Some_0.1 <= w,
        w <= a1.len(),
        w <= a2.len(),
        a1.take(w) == a2.take(w),
    ensures
        spec_value_at(a2, off) == spec_value_at(a1, off),
{
    lemma_value_at_min_size(a1, off);
    assert(0 <= w);
    lemma_value_at_restrict(a1, off, w);
    lemma_value_at_extend(a1.take(w), a2.skip(w), off);
    assert(a2.take(w) + a2.skip(w) =~= a2);
}



/// A decoded fixed-width value carries exactly its width; so a stored
/// value always satisfies well-formedness when taken back as a field
/// value.
pub proof fn lemma_value_width(arena: Seq<u8>, off: int)
    requires
        spec_value_at(arena, off) is Some,
    ensures
        ({
            let sv = spec_value_at(arena, off)->Some_0.0;
            match spec_fixed_width(sv.field_type) {
                Some(w) => sv.bytes.len() == w,
                None => true,
            }
        }),
{
}



/// Two value runs that agree in type and payload, element by element;
/// what the arena does with them is identical.
pub open spec fn fv_views_match(a: Seq<FieldValue>, b: Seq<FieldValue>) -> bool {
    &&& a.len() == b.len()
    &&& forall|t: int|
        0 <= t < a.len() ==> (#[trigger] a[t]).field_type == b[t].field_type && a[t].value@
            == b[t].value@
}

/// Matching views encode alike.
pub proof fn lemma_fv_views_encode(a: Seq<FieldValue>, b: Seq<FieldValue>)
    requires
        fv_views_match(a, b),
    ensures
        forall|t: int|
            0 <= t < a.len() ==> spec_encode_value(#[trigger] a[t]) == spec_encode_value(b[t])
                && spec_stored_of(a[t]) == spec_stored_of(b[t]) && (spec_encodable(a[t])
                <==> spec_encodable(b[t])) && (wf_field_value(a[t]) <==> wf_field_value(b[t])),
{
}



/// Every arena record spans at least its two tag bytes.
pub proof fn lemma_encode_value_min(fv: FieldValue)
    ensures
        spec_encode_value(fv).len() >= 2,
{
    lemma_le_roundtrips();
}



/// The arena record width of a value given by its type and payload.
pub open spec fn spec_encoded_len_of(ft: FieldType, bytes: Seq<u8>) -> int {
    match ft {
        FieldType::Unknown => 2int,
        FieldType::Str => 2int + spec_varint(bytes.len() as u32).len() + bytes.len(),
        FieldType::Bytes => 2int + spec_varint(bytes.len() as u32).len() + bytes.len(),
        _ => 2int + bytes.len(),
    }
}

/// The record width seen from a value equals the width seen from its
/// type and payload.
pub proof fn lemma_encoded_len_of(fv: FieldValue)
    ensures
        spec_encode_value(fv).len() == spec_encoded_len_of(
            fv.field_type,
            spec_stored_of(fv).bytes,
        ),
        spec_encoded_len_of(fv.field_type, spec_stored_of(fv).bytes) >= 2,
{
    lemma_le_roundtrips();
    crate::codec::lemma_varint_len(fv.value@.len() as u32);
}


} // verus!
