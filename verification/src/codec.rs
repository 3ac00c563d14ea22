//! The record codec: one log entry to and from bytes.
//!
//! Layout, big-endian fixed-width integers:
//! `key_length: u32 | value_length_or_tombstone: u32 | key bytes | value bytes`.
//! A value-length field with the top bit set marks a deletion and is followed
//! by no value bytes; an insert writes the value's exact byte count, which is
//! therefore capped at `MAX_VALUE_LEN`. Writers only ever emit the sentinel
//! `TOMBSTONE` (the two's-complement encoding of `-1_i32`), but readers treat
//! any top-bit value as a tombstone.

use vstd::prelude::*;

use crate::errors::Error;

verus! {

/// Number of header bytes in an encoded record.
pub const HEADER_LEN: usize = 8;

/// Sentinel stored in the value-length field of a delete marker.
pub const TOMBSTONE: u32 = 0xFFFF_FFFF;

/// Largest storable value length; larger lengths would collide with the
/// tombstone bit.
pub const MAX_VALUE_LEN: u32 = 0x7FFF_FFFF;

/// One log record: a key together with either a value (an insert) or no
/// value (a tombstone, marking the key deleted).
pub struct Record {
    pub key: Vec<u8>,
    pub value: Option<Vec<u8>>,
}

impl Record {
    pub open spec fn key_view(self) -> Seq<u8> {
        self.key@
    }

    pub open spec fn value_view(self) -> Option<Seq<u8>> {
        match self.value {
            Option::Some(v) => Option::Some(v@),
            Option::None => Option::None,
        }
    }

    /// The record's lengths fit the fixed-width header fields.
    pub open spec fn fits(self) -> bool {
        record_fits(self.key_view(), self.value_view())
    }

    /// Encode this record; the bytes are exactly `spec_encode` of its views.
    pub fn encode(&self) -> (out: Vec<u8>)
        requires
            self.fits(),
        ensures
            out@ == spec_encode(self.key_view(), self.value_view()),
    {
        match &self.value {
            Option::Some(v) => encode_record(self.key.as_slice(), Option::Some(v.as_slice())),
            Option::None => encode_record(self.key.as_slice(), Option::None),
        }
    }
}

/// The four big-endian bytes of a `u32`.
pub open spec fn be32(n: u32) -> Seq<u8> {
    seq![
        (n >> 24) as u8,
        ((n >> 16) & 0xFF) as u8,
        ((n >> 8) & 0xFF) as u8,
        (n & 0xFF) as u8,
    ]
}

/// The `u32` read back from four big-endian bytes.
pub open spec fn be32_val(s: Seq<u8>) -> u32
    recommends
        s.len() == 4,
{
    ((s[0] as u32) << 24) | ((s[1] as u32) << 16) | ((s[2] as u32) << 8) | (s[3] as u32)
}

pub proof fn lemma_be32_roundtrip(n: u32)
    ensures
        be32(n).len() == 4,
        be32_val(be32(n)) == n,
{
    assert((((n >> 24) as u8 as u32) << 24) | ((((n >> 16) & 0xFF) as u8 as u32) << 16) | ((((n
        >> 8) & 0xFF) as u8 as u32) << 8) | ((n & 0xFF) as u8 as u32) == n) by (bit_vector);
}

/// What the value-length header field holds.
pub open spec fn value_len_field(v: Option<Seq<u8>>) -> u32 {
    match v {
        Option::Some(s) => s.len() as u32,
        Option::None => TOMBSTONE,
    }
}

/// The payload bytes that follow the key: the value, or nothing.
pub open spec fn value_payload(v: Option<Seq<u8>>) -> Seq<u8> {
    match v {
        Option::Some(s) => s,
        Option::None => Seq::empty(),
    }
}

/// The record's lengths fit the fixed-width header fields.
pub open spec fn record_fits(k: Seq<u8>, v: Option<Seq<u8>>) -> bool {
    &&& k.len() <= u32::MAX
    &&& (v matches Option::Some(s) ==> s.len() <= MAX_VALUE_LEN)
}

/// The encoded bytes of one record.
pub open spec fn spec_encode(k: Seq<u8>, v: Option<Seq<u8>>) -> Seq<u8> {
    be32(k.len() as u32) + be32(value_len_field(v)) + k + value_payload(v)
}

/// The encoded size of one record.
pub open spec fn spec_encoded_len(k: Seq<u8>, v: Option<Seq<u8>>) -> int {
    HEADER_LEN + k.len() + value_payload(v).len()
}

// Reading a record back out of a byte buffer, described position by position.
/// The key length declared by the header at `pos`.
pub open spec fn hdr_key_len(b: Seq<u8>, pos: int) -> u32 {
    be32_val(b.subrange(pos, pos + 4))
}

/// The raw value-length field of the header at `pos`.
pub open spec fn hdr_value_raw(b: Seq<u8>, pos: int) -> u32 {
    be32_val(b.subrange(pos + 4, pos + 8))
}

/// Any value-length field with the top bit set marks a tombstone.
pub open spec fn is_tombstone(vraw: u32) -> bool {
    vraw >= 0x8000_0000
}

/// How many bytes the record whose header sits at `pos` occupies.
pub open spec fn rec_need(b: Seq<u8>, pos: int) -> int {
    HEADER_LEN + hdr_key_len(b, pos) + if is_tombstone(hdr_value_raw(b, pos)) {
        0int
    } else {
        hdr_value_raw(b, pos) as int
    }
}

/// A whole record sits at `pos`: the header and all payload bytes it
/// declares are available.
pub open spec fn decodable(b: Seq<u8>, pos: int) -> bool {
    &&& 0 <= pos
    &&& pos + HEADER_LEN <= b.len()
    &&& pos + rec_need(b, pos) <= b.len()
}

/// The key bytes of the record at `pos`.
pub open spec fn rec_key(b: Seq<u8>, pos: int) -> Seq<u8> {
    b.subrange(pos + HEADER_LEN, pos + HEADER_LEN + hdr_key_len(b, pos))
}

/// Where the value bytes of the record at `pos` begin.
pub open spec fn rec_value_off(b: Seq<u8>, pos: int) -> int {
    pos + HEADER_LEN + hdr_key_len(b, pos)
}

/// The value of the record at `pos`: `None` for a tombstone.
pub open spec fn rec_value(b: Seq<u8>, pos: int) -> Option<Seq<u8>> {
    if is_tombstone(hdr_value_raw(b, pos)) {
        Option::None
    } else {
        Option::Some(b.subrange(rec_value_off(b, pos), pos + rec_need(b, pos)))
    }
}

/// An encoded record reads back as itself wherever it is placed after an
/// arbitrary prefix: decoding is the exact inverse of encoding.
pub proof fn lemma_encode_decodes_at(prefix: Seq<u8>, k: Seq<u8>, v: Option<Seq<u8>>)
    requires
        record_fits(k, v),
    ensures
        decodable(prefix + spec_encode(k, v), prefix.len() as int),
        rec_need(prefix + spec_encode(k, v), prefix.len() as int) == spec_encoded_len(k, v),
        rec_key(prefix + spec_encode(k, v), prefix.len() as int) == k,
        rec_value(prefix + spec_encode(k, v), prefix.len() as int) == v,
        rec_value_off(prefix + spec_encode(k, v), prefix.len() as int) == prefix.len()
            + HEADER_LEN + k.len(),
        hdr_key_len(prefix + spec_encode(k, v), prefix.len() as int) == k.len(),
        hdr_value_raw(prefix + spec_encode(k, v), prefix.len() as int) == value_len_field(v),
{
    let b = prefix + spec_encode(k, v);
    let pos = prefix.len() as int;
    let klen = k.len() as u32;
    let vraw = value_len_field(v);
    assert(b.subrange(pos, pos + 4) =~= be32(klen));
    assert(b.subrange(pos + 4, pos + 8) =~= be32(vraw));
    lemma_be32_roundtrip(klen);
    lemma_be32_roundtrip(vraw);
    assert(hdr_key_len(b, pos) == klen);
    assert(hdr_value_raw(b, pos) == vraw);
    if v is Some {
        assert(!is_tombstone(vraw)) by {
            assert(vraw <= MAX_VALUE_LEN);
        }
    } else {
        assert(is_tombstone(vraw));
    }
    assert(rec_need(b, pos) == spec_encoded_len(k, v));
    assert(b.subrange(pos + HEADER_LEN, pos + HEADER_LEN + k.len() as int) =~= k);
    match v {
        Option::Some(s) => {
            assert(b.subrange(pos + HEADER_LEN + k.len() as int, pos + rec_need(b, pos)) =~= s);
        },
        Option::None => {},
    }
}

/// Round-trip: an encoded record decodes back to exactly the key and value
/// it was built from, consuming exactly its own bytes.
pub proof fn lemma_codec_roundtrip(k: Seq<u8>, v: Option<Seq<u8>>)
    requires
        record_fits(k, v),
    ensures
        decodable(spec_encode(k, v), 0),
        rec_need(spec_encode(k, v), 0) == spec_encode(k, v).len(),
        rec_key(spec_encode(k, v), 0) == k,
        rec_value(spec_encode(k, v), 0) == v,
{
    lemma_encode_decodes_at(Seq::empty(), k, v);
    assert(Seq::<u8>::empty() + spec_encode(k, v) =~= spec_encode(k, v));
}

/// A strict prefix of an encoded record never reads back as a whole record:
/// the header either is itself cut short or declares more payload bytes than
/// the cut leaves available. This is how a write that was interrupted partway
/// is recognised.
pub proof fn lemma_partial_record_undecodable(prefix: Seq<u8>, k: Seq<u8>, v: Option<Seq<u8>>, cut: int)
    requires
        record_fits(k, v),
        0 <= cut < spec_encode(k, v).len(),
    ensures
        !decodable(prefix + spec_encode(k, v).subrange(0, cut), prefix.len() as int),
{
    let e = spec_encode(k, v);
    let b = prefix + e.subrange(0, cut);
    let pos = prefix.len() as int;
    if cut < HEADER_LEN {
        assert(pos + HEADER_LEN > b.len());
    } else {
        let klen = k.len() as u32;
        let vraw = value_len_field(v);
        assert(b.subrange(pos, pos + 4) =~= be32(klen));
        assert(b.subrange(pos + 4, pos + 8) =~= be32(vraw));
        lemma_be32_roundtrip(klen);
        lemma_be32_roundtrip(vraw);
        if v is Some {
            assert(!is_tombstone(vraw)) by {
                assert(vraw <= MAX_VALUE_LEN);
            }
        }
        assert(rec_need(b, pos) == spec_encoded_len(k, v));
        assert(pos + rec_need(b, pos) > b.len());
    }
}

/// The view of an optional byte slice.
pub open spec fn opt_slice_view(v: Option<&[u8]>) -> Option<Seq<u8>> {
    match v {
        Option::Some(s) => Option::Some(s@),
        Option::None => Option::None,
    }
}

/// Append the four big-endian bytes of `n`.
fn push_be32(out: &mut Vec<u8>, n: u32)
    ensures
        final(out)@ == old(out)@ + be32(n),
{
    out.push((n >> 24) as u8);
    out.push(((n >> 16) & 0xFF) as u8);
    out.push(((n >> 8) & 0xFF) as u8);
    out.push((n & 0xFF) as u8);
    proof {
        assert(out@ =~= old(out)@ + be32(n));
    }
}

/// Append a whole byte slice.
pub fn push_bytes(out: &mut Vec<u8>, bytes: &[u8])
    ensures
        final(out)@ == old(out)@ + bytes@,
{
    let mut i: usize = 0;
    while i < bytes.len()
        invariant
            i <= bytes@.len(),
            out@ == old(out)@ + bytes@.subrange(0, i as int),
        decreases bytes@.len() - i,
    {
        out.push(bytes[i]);
        i = i + 1;
        proof {
            assert(out@ =~= old(out)@ + bytes@.subrange(0, i as int));
        }
    }
    proof {
        assert(out@ =~= old(out)@ + bytes@);
    }
}

/// Read the big-endian `u32` at `pos`.
fn read_be32(data: &Vec<u8>, pos: usize) -> (n: u32)
    requires
        pos + 4 <= data.len(),
    ensures
        n == be32_val(data@.subrange(pos as int, pos as int + 4)),
{
    let b0 = data[pos];
    let b1 = data[pos + 1];
    let b2 = data[pos + 2];
    let b3 = data[pos + 3];
    ((b0 as u32) << 24) | ((b1 as u32) << 16) | ((b2 as u32) << 8) | (b3 as u32)
}

/// Copy `len` bytes starting at `start` into a fresh vector.
pub fn copy_range(data: &Vec<u8>, start: usize, len: usize) -> (out: Vec<u8>)
    requires
        start + len <= data.len(),
    ensures
        out@ == data@.subrange(start as int, start as int + len as int),
{
    let mut out: Vec<u8> = Vec::with_capacity(len);
    let mut i: usize = 0;
    while i < len
        invariant
            i <= len,
            start + len <= data.len(),
            out@ == data@.subrange(start as int, start as int + i as int),
        decreases len - i,
    {
        out.push(data[start + i]);
        i = i + 1;
        proof {
            assert(out@ =~= data@.subrange(start as int, start as int + i as int));
        }
    }
    out
}

/// Copy a byte slice into a fresh vector.
pub fn slice_to_vec(b: &[u8]) -> (out: Vec<u8>)
    ensures
        out@ == b@,
{
    let mut out: Vec<u8> = Vec::new();
    push_bytes(&mut out, b);
    out
}

/// Copy a whole byte vector.
pub fn clone_bytes(data: &Vec<u8>) -> (out: Vec<u8>)
    ensures
        out@ == data@,
{
    let out = copy_range(data, 0, data.len());
    proof {
        assert(data@.subrange(0, data@.len() as int) =~= data@);
    }
    out
}

/// Encode one record as bytes.
pub fn encode_record(key: &[u8], value: Option<&[u8]>) -> (out: Vec<u8>)
    requires
        record_fits(key@, opt_slice_view(value)),
    ensures
        out@ == spec_encode(key@, opt_slice_view(value)),
{
    let mut out: Vec<u8> = Vec::new();
    push_be32(&mut out, key.len() as u32);
    match value {
        Option::Some(v) => {
            push_be32(&mut out, v.len() as u32);
        },
        Option::None => {
            push_be32(&mut out, TOMBSTONE);
        },
    }
    push_bytes(&mut out, key);
    match value {
        Option::Some(v) => {
            push_bytes(&mut out, v);
        },
        Option::None => {},
    }
    proof {
        assert(out@ =~= spec_encode(key@, opt_slice_view(value)));
    }
    out
}

/// Decode the record whose header sits at `pos`, returning it together with
/// the position just past its last byte. Fails with `CorruptRecord` exactly
/// when fewer bytes are available than the header asks for.
pub fn decode_record(data: &Vec<u8>, pos: usize) -> (r: Result<(Record, usize), Error>)
    requires
        pos <= data.len(),
    ensures
        match r {
            Ok(p) => {
                &&& decodable(data@, pos as int)
                &&& p.0.key@ == rec_key(data@, pos as int)
                &&& p.0.value_view() == rec_value(data@, pos as int)
                &&& p.1 == pos + rec_need(data@, pos as int)
                &&& p.0.fits()
            },
            Err(e) => {
                &&& e == Error::CorruptRecord
                &&& !decodable(data@, pos as int)
            },
        },
{
    if data.len() - pos < HEADER_LEN {
        return Err(Error::CorruptRecord);
    }
    let klen = read_be32(data, pos);
    let vraw = read_be32(data, pos + 4);
    let rem: usize = data.len() - pos - HEADER_LEN;
    if vraw >= 0x8000_0000 {
        if klen as u64 > rem as u64 {
            return Err(Error::CorruptRecord);
        }
        let key = copy_range(data, pos + HEADER_LEN, klen as usize);
        Ok((Record { key, value: None }, pos + HEADER_LEN + klen as usize))
    } else {
        if klen as u64 + vraw as u64 > rem as u64 {
            return Err(Error::CorruptRecord);
        }
        let key = copy_range(data, pos + HEADER_LEN, klen as usize);
        let value = copy_range(data, pos + HEADER_LEN + klen as usize, vraw as usize);
        Ok((Record { key, value: Some(value) }, pos + HEADER_LEN + klen as usize + vraw as usize))
    }
}

} // verus!
