//! Byte-level primitives shared by every on-disk format of the store:
//! little-endian integers, the varint used for variable-width value
//! lengths, and helpers to append bytes to a buffer.

use vstd::prelude::*;
use vstd::bytes::{
    spec_u16_to_le_bytes, spec_u32_to_le_bytes, spec_u64_to_le_bytes, spec_u16_from_le_bytes,
    spec_u32_from_le_bytes, spec_u64_from_le_bytes, lemma_auto_spec_u16_to_from_le_bytes,
    lemma_auto_spec_u32_to_from_le_bytes, lemma_auto_spec_u64_to_from_le_bytes, u16_to_le_bytes,
    u32_to_le_bytes, u64_to_le_bytes, u16_from_le_bytes, u32_from_le_bytes, u64_from_le_bytes,
};
use vstd::slice::slice_subrange;

verus! {

/// Append the bytes of a slice to a vector.
pub fn push_bytes(out: &mut Vec<u8>, b: &[u8])
    ensures
        final(out)@ == old(out)@ + b@,
{
    let mut i: usize = 0;
    while i < b.len()
        invariant
            i <= b@.len(),
            out@ == old(out)@ + b@.subrange(0, i as int),
        decreases b@.len() - i,
    {
        out.push(b[i]);
        i = i + 1;
        proof {
            assert(out@ =~= old(out)@ + b@.subrange(0, i as int));
        }
    }
    proof {
        assert(out@ =~= old(out)@ + b@);
    }
}

/// Append `n` zero bytes to a vector.
pub fn push_zeros(out: &mut Vec<u8>, n: usize)
    requires
        old(out)@.len() + n <= usize::MAX,
    ensures
        final(out)@ == old(out)@ + Seq::<u8>::new(n as nat, |i: int| 0u8),
{
    let mut i: usize = 0;
    while i < n
        invariant
            i <= n,
            out@ == old(out)@ + Seq::<u8>::new(i as nat, |j: int| 0u8),
        decreases n - i,
    {
        out.push(0u8);
        i = i + 1;
        proof {
            assert(out@ =~= old(out)@ + Seq::<u8>::new(i as nat, |j: int| 0u8));
        }
    }
}

pub fn push_u16_le(out: &mut Vec<u8>, x: u16)
    ensures
        final(out)@ == old(out)@ + spec_u16_to_le_bytes(x),
{
    let mut b = u16_to_le_bytes(x);
    out.append(&mut b);
}

pub fn push_u32_le(out: &mut Vec<u8>, x: u32)
    ensures
        final(out)@ == old(out)@ + spec_u32_to_le_bytes(x),
{
    let mut b = u32_to_le_bytes(x);
    out.append(&mut b);
}

pub fn push_u64_le(out: &mut Vec<u8>, x: u64)
    ensures
        final(out)@ == old(out)@ + spec_u64_to_le_bytes(x),
{
    let mut b = u64_to_le_bytes(x);
    out.append(&mut b);
}

/// Read a little-endian `u16` at `pos`.
pub fn read_u16_le(s: &[u8], pos: usize) -> (x: u16)
    requires
        pos + 2 <= s@.len(),
    ensures
        x == spec_u16_from_le_bytes(s@.subrange(pos as int, pos + 2)),
{
    let n = s.len();
    let sub = slice_subrange(s, pos, pos + 2);
    u16_from_le_bytes(sub)
}

/// Read a little-endian `u32` at `pos`.
pub fn read_u32_le(s: &[u8], pos: usize) -> (x: u32)
    requires
        pos + 4 <= s@.len(),
    ensures
        x == spec_u32_from_le_bytes(s@.subrange(pos as int, pos + 4)),
{
    let n = s.len();
    let sub = slice_subrange(s, pos, pos + 4);
    u32_from_le_bytes(sub)
}

/// Read a little-endian `u64` at `pos`.
pub fn read_u64_le(s: &[u8], pos: usize) -> (x: u64)
    requires
        pos + 8 <= s@.len(),
    ensures
        x == spec_u64_from_le_bytes(s@.subrange(pos as int, pos + 8)),
{
    let n = s.len();
    let sub = slice_subrange(s, pos, pos + 8);
    u64_from_le_bytes(sub)
}

/// Round-trip of the little-endian encodings, quantified; a convenience
/// re-statement of the vstd lemmas used throughout the codecs.
pub proof fn lemma_le_roundtrips()
    ensures
        forall|x: u16| spec_u16_from_le_bytes(#[trigger] spec_u16_to_le_bytes(x)) == x,
        forall|x: u32| spec_u32_from_le_bytes(#[trigger] spec_u32_to_le_bytes(x)) == x,
        forall|x: u64| spec_u64_from_le_bytes(#[trigger] spec_u64_to_le_bytes(x)) == x,
        forall|x: u16| (#[trigger] spec_u16_to_le_bytes(x)).len() == 2,
        forall|x: u32| (#[trigger] spec_u32_to_le_bytes(x)).len() == 4,
        forall|x: u64| (#[trigger] spec_u64_to_le_bytes(x)).len() == 8,
        forall|s: Seq<u8>|
            s.len() == 2 ==> #[trigger] spec_u16_to_le_bytes(spec_u16_from_le_bytes(s)) == s,
        forall|s: Seq<u8>|
            s.len() == 4 ==> #[trigger] spec_u32_to_le_bytes(spec_u32_from_le_bytes(s)) == s,
        forall|s: Seq<u8>|
            s.len() == 8 ==> #[trigger] spec_u64_to_le_bytes(spec_u64_from_le_bytes(s)) == s,
{
    lemma_auto_spec_u16_to_from_le_bytes();
    lemma_auto_spec_u32_to_from_le_bytes();
    lemma_auto_spec_u64_to_from_le_bytes();
    assert forall|x: u16| spec_u16_from_le_bytes(#[trigger] spec_u16_to_le_bytes(x)) == x by {
        assert(spec_u16_to_le_bytes(x).len() == 2);
    }
    assert forall|x: u32| spec_u32_from_le_bytes(#[trigger] spec_u32_to_le_bytes(x)) == x by {
        assert(spec_u32_to_le_bytes(x).len() == 4);
    }
    assert forall|x: u16| (#[trigger] spec_u16_to_le_bytes(x)).len() == 2 by {
        assert(spec_u16_to_le_bytes(x).len() == 2);
    }
    assert forall|x: u32| (#[trigger] spec_u32_to_le_bytes(x)).len() == 4 by {
        assert(spec_u32_to_le_bytes(x).len() == 4);
    }
}

/// The varint (seven bits per byte, low group first, high bit set on all
/// but the last byte) that prefixes variable-width values in the arena.
pub open spec fn spec_varint(x: u32) -> Seq<u8>
    decreases x,
{
    if x < 0x80 {
        seq![x as u8]
    } else {
        seq![(x % 0x80 + 0x80) as u8] + spec_varint(x / 0x80)
    }
}

/// Decode a varint from the front of `s`, reading at most `k` bytes: the
/// value and the number of bytes consumed, or `None` when no complete
/// varint fits in that window.
pub open spec fn spec_varint_decode_k(s: Seq<u8>, k: nat) -> Option<(u32, int)>
    decreases k,
{
    if k == 0 || s.len() == 0 {
        None
    } else if s[0] < 0x80 {
        Some((s[0] as u32, 1))
    } else {
        match spec_varint_decode_k(s.drop_first(), (k - 1) as nat) {
            None => None,
            Some(p) => {
                if (s[0] - 0x80) + p.0 * 0x80 <= u32::MAX {
                    Some((((s[0] - 0x80) + p.0 * 0x80) as u32, p.1 + 1))
                } else {
                    None
                }
            },
        }
    }
}

/// Decode a varint from the front of `s`; a 32-bit value spans at most
/// five bytes.
pub open spec fn spec_varint_decode(s: Seq<u8>) -> Option<(u32, int)> {
    spec_varint_decode_k(s, 5)
}

/// Powers of 128, as far as a 32-bit varint can reach.
pub open spec fn pow128(k: nat) -> int
    decreases k,
{
    if k == 0 {
        1
    } else {
        0x80 * pow128((k - 1) as nat)
    }
}

proof fn lemma_varint_len_aux(x: u32, k: nat)
    requires
        k >= 1,
        x < pow128(k),
    ensures
        1 <= spec_varint(x).len() <= k,
    decreases k,
{
    if x >= 0x80 {
        assert(pow128(k) == 0x80 * pow128((k - 1) as nat));
        assert(x / 0x80 < pow128((k - 1) as nat)) by (nonlinear_arith)
            requires
                x < 0x80 * pow128((k - 1) as nat),
        ;
        assert(k >= 2) by {
            if k == 1 {
                assert(pow128(1nat) == 0x80);
            }
        }
        lemma_varint_len_aux(x / 0x80, (k - 1) as nat);
    }
}

/// A varint encoding takes between one and five bytes.
pub proof fn lemma_varint_len(x: u32)
    ensures
        1 <= spec_varint(x).len() <= 5,
{
    assert(pow128(0nat) == 1);
    assert(pow128(1nat) == 0x80);
    assert(pow128(2nat) == 0x4000);
    assert(pow128(3nat) == 0x200000);
    assert(pow128(4nat) == 0x10000000);
    assert(pow128(5nat) == 0x800000000);
    lemma_varint_len_aux(x, 5);
}

proof fn lemma_varint_roundtrip_k(x: u32, rest: Seq<u8>, k: nat)
    requires
        spec_varint(x).len() <= k,
    ensures
        spec_varint_decode_k(spec_varint(x) + rest, k) == Some((x, spec_varint(x).len() as int)),
    decreases x,
{
    let s = spec_varint(x) + rest;
    if x < 0x80 {
        assert(s[0] == x as u8);
    } else {
        assert(spec_varint(x).len() == 1 + spec_varint(x / 0x80).len());
        lemma_varint_roundtrip_k(x / 0x80, rest, (k - 1) as nat);
        assert(s.drop_first() =~= spec_varint(x / 0x80) + rest);
        assert(s[0] == (x % 0x80 + 0x80) as u8);
        assert((s[0] - 0x80) + (x / 0x80) * 0x80 == x);
    }
}

/// Decoding an encoded varint yields the value back, whatever follows it.
pub proof fn lemma_varint_roundtrip(x: u32, rest: Seq<u8>)
    ensures
        spec_varint_decode(spec_varint(x) + rest) == Some((x, spec_varint(x).len() as int)),
{
    lemma_varint_len(x);
    lemma_varint_roundtrip_k(x, rest, 5);
}

/// A successful decode consumes between one byte and the window size,
/// never more than the bytes available.
pub proof fn lemma_varint_decode_k_bound(s: Seq<u8>, k: nat)
    ensures
        match spec_varint_decode_k(s, k) {
            None => true,
            Some(p) => 1 <= p.1 <= k && p.1 <= s.len(),
        },
    decreases k,
{
    if k > 0 && s.len() > 0 && s[0] >= 0x80 {
        lemma_varint_decode_k_bound(s.drop_first(), (k - 1) as nat);
    }
}

/// A decode that succeeds is unchanged when more bytes follow.
pub proof fn lemma_varint_decode_extend(s: Seq<u8>, ext: Seq<u8>)
    requires
        spec_varint_decode(s) is Some,
    ensures
        spec_varint_decode(s + ext) == spec_varint_decode(s),
{
    lemma_varint_decode_k_extend(s, ext, 5);
}

proof fn lemma_varint_decode_k_extend(s: Seq<u8>, ext: Seq<u8>, k: nat)
    requires
        spec_varint_decode_k(s, k) is Some,
    ensures
        spec_varint_decode_k(s + ext, k) == spec_varint_decode_k(s, k),
    decreases k,
{
    let t = s + ext;
    assert(t[0] == s[0]);
    if s[0] >= 0x80 {
        lemma_varint_decode_k_extend(s.drop_first(), ext, (k - 1) as nat);
        assert(t.drop_first() =~= s.drop_first() + ext);
    }
}

/// Encode `x` as a varint onto `out`.
pub fn encode_varint(out: &mut Vec<u8>, x: u32)
    ensures
        final(out)@ == old(out)@ + spec_varint(x),
{
    let mut v: u32 = x;
    while v >= 0x80
        invariant
            out@ + spec_varint(v) == old(out)@ + spec_varint(x),
        decreases v,
    {
        out.push((v % 0x80 + 0x80) as u8);
        proof {
            assert(out@ + spec_varint(v / 0x80) =~= old(out)@ + spec_varint(x));
        }
        v = v / 0x80;
    }
    out.push(v as u8);
    proof {
        assert(spec_varint(v) =~= seq![v as u8]);
        assert(out@ =~= old(out)@ + spec_varint(x));
    }
}

fn decode_varint_k(s: &[u8], pos: usize, k: u8) -> (r: Option<(u32, usize)>)
    requires
        pos <= s@.len(),
    ensures
        match r {
            None => spec_varint_decode_k(s@.skip(pos as int), k as nat) is None,
            Some(p) => {
                &&& spec_varint_decode_k(s@.skip(pos as int), k as nat) == Some((p.0, p.1 as int))
                &&& 1 <= p.1 <= k
                &&& pos + p.1 <= s@.len()
            },
        },
    decreases k,
{
    let n = s.len();
    if k == 0 || pos == n {
        return None;
    }
    let b = s[pos];
    let ghost tail = s@.skip(pos as int);
    assert(tail[0] == b);
    if b < 0x80 {
        Some((b as u32, 1))
    } else {
        proof {
            assert(tail.drop_first() =~= s@.skip(pos as int + 1));
        }
        match decode_varint_k(s, pos + 1, k - 1) {
            None => None,
            Some((v, m)) => {
                let low: u32 = (b - 0x80) as u32;
                if v <= (u32::MAX - low) / 0x80 {
                    assert(low + v * 0x80 <= u32::MAX) by (nonlinear_arith)
                        requires
                            v <= (u32::MAX - low) / 0x80,
                            low <= 0x7f,
                    ;
                    Some((low + v * 0x80, m + 1))
                } else {
                    assert(low + v * 0x80 > u32::MAX) by (nonlinear_arith)
                        requires
                            v > (u32::MAX - low) / 0x80,
                            low <= 0x7f,
                    ;
                    None
                }
            },
        }
    }
}

/// Decode a varint at `pos` in `s`, following `spec_varint_decode` on the
/// bytes from `pos` on.
pub fn decode_varint(s: &[u8], pos: usize) -> (r: Option<(u32, usize)>)
    requires
        pos <= s@.len(),
    ensures
        match r {
            None => spec_varint_decode(s@.skip(pos as int)) is None,
            Some(p) => {
                &&& spec_varint_decode(s@.skip(pos as int)) == Some((p.0, p.1 as int))
                &&& 1 <= p.1 <= 5
                &&& pos + p.1 <= s@.len()
            },
        },
{
    decode_varint_k(s, pos, 5)
}


/// Byte-for-byte equality of two slices.
pub fn bytes_eq(a: &[u8], b: &[u8]) -> (r: bool)
    ensures
        r == (a@ == b@),
{
    if a.len() != b.len() {
        proof {
            assert(a@.len() != b@.len());
        }
        return false;
    }
    let n = a.len();
    let mut i: usize = 0;
    while i < n
        invariant
            n == a@.len() == b@.len(),
            i <= n,
            forall|j: int| 0 <= j < i ==> a@[j] == b@[j],
        decreases n - i,
    {
        if a[i] != b[i] {
            return false;
        }
        i = i + 1;
    }
    proof {
        assert(a@ =~= b@);
    }
    true
}

/// Equality of two string slices, through their UTF-8 bytes; the UTF-8
/// encoding is injective, so byte equality decides character equality.
pub fn str_eq(a: &str, b: &str) -> (r: bool)
    ensures
        r == (a@ == b@),
{
    let r = bytes_eq(a.as_bytes(), b.as_bytes());
    proof {
        if r {
            vstd::utf8::encode_utf8_decode_utf8(a@);
            vstd::utf8::encode_utf8_decode_utf8(b@);
        }
    }
    r
}


/// Copy a byte vector.
pub fn copy_bytes(v: &Vec<u8>) -> (r: Vec<u8>)
    ensures
        r@ == v@,
{
    let mut out: Vec<u8> = Vec::new();
    push_bytes(&mut out, v.as_slice());
    out
}



proof fn lemma_varint_decode_k_take(s: Seq<u8>, m: int, k: nat)
    requires
        spec_varint_decode_k(s, k) is Some,
        spec_varint_decode_k(s, k)->Some_0.1 <= m <= s.len(),
    ensures
        spec_varint_decode_k(s.take(m), k) == spec_varint_decode_k(s, k),
    decreases k,
{
    lemma_varint_decode_k_bound(s, k);
    let t = s.take(m);
    assert(t[0] == s[0]);
    if s[0] >= 0x80 {
        lemma_varint_decode_k_bound(s.drop_first(), (k - 1) as nat);
        lemma_varint_decode_k_take(s.drop_first(), m - 1, (k - 1) as nat);
        assert(t.drop_first() =~= s.drop_first().take(m - 1));
    }
}

/// A decode that succeeds within a prefix succeeds on the prefix alone.
pub proof fn lemma_varint_decode_take(s: Seq<u8>, m: int)
    requires
        spec_varint_decode(s) is Some,
        spec_varint_decode(s)->Some_0.1 <= m <= s.len(),
    ensures
        spec_varint_decode(s.take(m)) == spec_varint_decode(s),
{
    lemma_varint_decode_k_take(s, m, 5);
}



/// Relies on String::from_utf8: it succeeds exactly on valid UTF-8 and
/// returns the string those bytes encode.
#[verifier::external_body]
pub fn bytes_to_string(v: Vec<u8>) -> (r: Option<String>)
    ensures
        r is Some <==> vstd::utf8::valid_utf8(v@),
        r matches Some(s) ==> vstd::utf8::encode_utf8(s@) == v@,
{
    String::from_utf8(v).ok()
}


} // verus!
