//! The log: an append-only buffer of encoded records, and the replay that
//! rebuilds the index from it.
//!
//! The buffer holds the exact bytes of the data file. Replay scans it from
//! byte zero, applying each whole record to a fresh index, and stops at the
//! first position that does not hold a whole record — that is how a write
//! that a crash cut short is tolerated without losing any earlier record.

use vstd::prelude::*;

use crate::codec;
use crate::errors::Error;
use crate::keydir::KeyDir;
use crate::keydir::ValueLoc;

verus! {

/// Apply one decoded record to an index map: a value record points its key
/// at the value bytes, a tombstone removes the key.
pub open spec fn apply_record(b: Seq<u8>, pos: int, acc: Map<Seq<u8>, ValueLoc>) -> Map<
    Seq<u8>,
    ValueLoc,
> {
    if codec::rec_value(b, pos) is Some {
        acc.insert(
            codec::rec_key(b, pos),
            ValueLoc { offset: codec::rec_value_off(b, pos) as u64, len: codec::hdr_value_raw(b, pos) },
        )
    } else {
        acc.remove(codec::rec_key(b, pos))
    }
}

/// Where a scan from `pos` stops: the first position from which no whole
/// record can be read.
pub open spec fn scan_end(b: Seq<u8>, pos: int) -> int
    decreases b.len() - pos,
{
    if !codec::decodable(b, pos) {
        pos
    } else {
        scan_end(b, pos + codec::rec_need(b, pos))
    }
}

/// The index built by replaying `b` from `pos` onto `acc`.
pub open spec fn replay_from(b: Seq<u8>, pos: int, acc: Map<Seq<u8>, ValueLoc>) -> Map<
    Seq<u8>,
    ValueLoc,
>
    decreases b.len() - pos,
{
    if !codec::decodable(b, pos) {
        acc
    } else {
        replay_from(b, pos + codec::rec_need(b, pos), apply_record(b, pos, acc))
    }
}

/// The index of a whole buffer, replayed from an empty index.
pub open spec fn replay(b: Seq<u8>) -> Map<Seq<u8>, ValueLoc> {
    replay_from(b, 0, Map::empty())
}

/// The buffer parses to its very end: no partial bytes trail the records.
pub open spec fn parse_ok(b: Seq<u8>) -> bool {
    scan_end(b, 0) == b.len()
}

/// Every entry of the map points at a byte range within the first `limit`
/// bytes.
pub open spec fn locs_bounded(m: Map<Seq<u8>, ValueLoc>, limit: int) -> bool {
    forall|k: Seq<u8>| m.dom().contains(k) ==> (#[trigger] m[k]).offset + m[k].len <= limit
}

pub proof fn lemma_scan_end_ge(b: Seq<u8>, pos: int)
    ensures
        scan_end(b, pos) >= pos,
    decreases b.len() - pos,
{
    if codec::decodable(b, pos) {
        lemma_scan_end_ge(b, pos + codec::rec_need(b, pos));
    }
}

pub proof fn lemma_scan_end_le(b: Seq<u8>, pos: int)
    requires
        pos <= b.len(),
    ensures
        scan_end(b, pos) <= b.len(),
    decreases b.len() - pos,
{
    if codec::decodable(b, pos) {
        lemma_scan_end_le(b, pos + codec::rec_need(b, pos));
    }
}

/// Header fields read the same in a buffer and in any extension of it, as
/// long as the header lies within the shorter one.
proof fn lemma_prefix_headers_agree(inner: Seq<u8>, outer: Seq<u8>, pos: int)
    requires
        0 <= pos,
        pos + codec::HEADER_LEN <= inner.len(),
        inner.len() <= outer.len(),
        inner == outer.subrange(0, inner.len() as int),
    ensures
        codec::hdr_key_len(outer, pos) == codec::hdr_key_len(inner, pos),
        codec::hdr_value_raw(outer, pos) == codec::hdr_value_raw(inner, pos),
        codec::rec_need(outer, pos) == codec::rec_need(inner, pos),
{
    assert(outer.subrange(pos, pos + 4) =~= inner.subrange(pos, pos + 4));
    assert(outer.subrange(pos + 4, pos + 8) =~= inner.subrange(pos + 4, pos + 8));
}

/// A record wholly inside the shorter buffer reads the same in the longer.
proof fn lemma_record_agree_extend(inner: Seq<u8>, outer: Seq<u8>, pos: int)
    requires
        0 <= pos,
        codec::decodable(inner, pos),
        inner.len() <= outer.len(),
        inner == outer.subrange(0, inner.len() as int),
    ensures
        codec::decodable(outer, pos),
        codec::rec_need(outer, pos) == codec::rec_need(inner, pos),
        codec::rec_key(outer, pos) == codec::rec_key(inner, pos),
        codec::rec_value(outer, pos) == codec::rec_value(inner, pos),
        codec::rec_value_off(outer, pos) == codec::rec_value_off(inner, pos),
        apply_record(outer, pos, Map::empty()) == apply_record(inner, pos, Map::empty()),
{
    lemma_prefix_headers_agree(inner, outer, pos);
    assert(codec::rec_key(outer, pos) =~= codec::rec_key(inner, pos));
    if !codec::is_tombstone(codec::hdr_value_raw(inner, pos)) {
        assert(outer.subrange(codec::rec_value_off(inner, pos), pos + codec::rec_need(inner, pos))
            =~= inner.subrange(codec::rec_value_off(inner, pos), pos + codec::rec_need(inner, pos)));
    }
}

/// A record that the longer buffer holds wholly within the length of the
/// shorter one reads the same in the shorter.
proof fn lemma_record_agree_restrict(inner: Seq<u8>, outer: Seq<u8>, pos: int)
    requires
        0 <= pos,
        codec::decodable(outer, pos),
        pos + codec::rec_need(outer, pos) <= inner.len(),
        inner.len() <= outer.len(),
        inner == outer.subrange(0, inner.len() as int),
    ensures
        codec::decodable(inner, pos),
        codec::rec_need(inner, pos) == codec::rec_need(outer, pos),
        codec::rec_key(inner, pos) == codec::rec_key(outer, pos),
        codec::rec_value(inner, pos) == codec::rec_value(outer, pos),
        codec::rec_value_off(inner, pos) == codec::rec_value_off(outer, pos),
{
    lemma_prefix_headers_agree(inner, outer, pos);
    assert(codec::rec_key(inner, pos) =~= codec::rec_key(outer, pos));
    if !codec::is_tombstone(codec::hdr_value_raw(outer, pos)) {
        assert(inner.subrange(codec::rec_value_off(outer, pos), pos + codec::rec_need(outer, pos))
            =~= outer.subrange(codec::rec_value_off(outer, pos), pos + codec::rec_need(outer, pos)));
    }
}

/// The records applied at matching positions agree between a buffer and an
/// extension of it.
proof fn lemma_apply_record_agree(inner: Seq<u8>, outer: Seq<u8>, pos: int, acc: Map<Seq<u8>, ValueLoc>)
    requires
        0 <= pos,
        codec::decodable(inner, pos),
        inner.len() <= outer.len(),
        inner == outer.subrange(0, inner.len() as int),
    ensures
        apply_record(outer, pos, acc) == apply_record(inner, pos, acc),
{
    lemma_record_agree_extend(inner, outer, pos);
}

/// Appending one whole encoded record to a cleanly parsing buffer extends
/// the scan by exactly that record and applies it to the replayed index.
pub proof fn lemma_replay_append(b: Seq<u8>, e: Seq<u8>, pos: int, acc: Map<Seq<u8>, ValueLoc>)
    requires
        0 <= pos <= b.len(),
        scan_end(b, pos) == b.len(),
        codec::decodable(b + e, b.len() as int),
        codec::rec_need(b + e, b.len() as int) == e.len(),
    ensures
        scan_end(b + e, pos) == b.len() + e.len(),
        replay_from(b + e, pos, acc) == apply_record(b + e, b.len() as int, replay_from(b, pos, acc)),
    decreases b.len() - pos,
{
    let c = b + e;
    if pos == b.len() {
        assert(!codec::decodable(b, pos));
        assert(!codec::decodable(c, c.len() as int));
        assert(pos + codec::rec_need(c, pos) == c.len());
        assert(scan_end(c, pos) == scan_end(c, c.len() as int));
        assert(scan_end(c, c.len() as int) == c.len());
        assert(replay_from(c, pos, acc) == replay_from(
            c,
            c.len() as int,
            apply_record(c, pos, acc),
        ));
        assert(replay_from(c, c.len() as int, apply_record(c, pos, acc)) == apply_record(
            c,
            pos,
            acc,
        ));
        assert(replay_from(b, pos, acc) == acc);
    } else {
        assert(codec::decodable(b, pos));
        assert(b =~= c.subrange(0, b.len() as int));
        lemma_record_agree_extend(b, c, pos);
        let next = pos + codec::rec_need(b, pos);
        lemma_replay_append(b, e, next, apply_record(b, pos, acc));
        lemma_apply_record_agree(b, c, pos, acc);
        assert(scan_end(c, pos) == scan_end(c, next));
        assert(replay_from(c, pos, acc) == replay_from(c, next, apply_record(c, pos, acc)));
        assert(replay_from(b, pos, acc) == replay_from(b, next, apply_record(b, pos, acc)));
    }
}

/// Bytes after a cleanly parsing buffer that do not form a whole record are
/// ignored by the scan: nothing already written is lost and nothing new is
/// seen.
pub proof fn lemma_replay_blocked_tail(b: Seq<u8>, t: Seq<u8>, pos: int, acc: Map<Seq<u8>, ValueLoc>)
    requires
        0 <= pos <= b.len(),
        scan_end(b, pos) == b.len(),
        !codec::decodable(b + t, b.len() as int),
    ensures
        scan_end(b + t, pos) == b.len(),
        replay_from(b + t, pos, acc) == replay_from(b, pos, acc),
    decreases b.len() - pos,
{
    let c = b + t;
    if pos == b.len() {
        assert(!codec::decodable(b, pos));
    } else {
        assert(codec::decodable(b, pos));
        assert(b =~= c.subrange(0, b.len() as int));
        lemma_record_agree_extend(b, c, pos);
        let next = pos + codec::rec_need(b, pos);
        lemma_replay_blocked_tail(b, t, next, apply_record(b, pos, acc));
        lemma_apply_record_agree(b, c, pos, acc);
    }
}

/// Cutting a buffer back to where its scan stops changes nothing that the
/// scan sees.
pub proof fn lemma_replay_prefix(b: Seq<u8>, pos: int, acc: Map<Seq<u8>, ValueLoc>)
    requires
        0 <= pos <= scan_end(b, 0),
        scan_end(b, pos) == scan_end(b, 0),
        scan_end(b, 0) <= b.len(),
    ensures
        scan_end(b.take(scan_end(b, 0)), pos) == scan_end(b, 0),
        replay_from(b.take(scan_end(b, 0)), pos, acc) == replay_from(b, pos, acc),
    decreases b.len() - pos,
{
    let p = scan_end(b, 0);
    let c = b.take(p);
    if pos == p {
        if codec::decodable(b, pos) {
            lemma_scan_end_ge(b, pos + codec::rec_need(b, pos));
            assert(false);
        }
        assert(!codec::decodable(c, pos));
    } else {
        if !codec::decodable(b, pos) {
            assert(scan_end(b, pos) == pos);
            assert(false);
        }
        let next = pos + codec::rec_need(b, pos);
        lemma_scan_end_ge(b, next);
        assert(next <= p);
        assert(c =~= b.subrange(0, c.len() as int));
        lemma_record_agree_restrict(c, b, pos);
        lemma_replay_prefix(b, next, apply_record(b, pos, acc));
        assert(apply_record(c, pos, acc) == apply_record(b, pos, acc)) by {
            lemma_record_agree_extend(c, b, pos);
        }
    }
}

/// Every entry that replay adds points within the scanned bytes.
pub proof fn lemma_replay_bounded(b: Seq<u8>, pos: int, acc: Map<Seq<u8>, ValueLoc>, limit: int)
    requires
        0 <= pos <= b.len(),
        b.len() <= u64::MAX,
        scan_end(b, pos) <= limit,
        locs_bounded(acc, limit),
    ensures
        locs_bounded(replay_from(b, pos, acc), limit),
    decreases b.len() - pos,
{
    if codec::decodable(b, pos) {
        let next = pos + codec::rec_need(b, pos);
        lemma_scan_end_ge(b, next);
        let acc2 = apply_record(b, pos, acc);
        assert(locs_bounded(acc2, limit)) by {
            if codec::rec_value(b, pos) is Some {
                assert(codec::rec_value_off(b, pos) + codec::hdr_value_raw(b, pos) == next);
            }
        }
        lemma_replay_bounded(b, next, acc2, limit);
    }
}

/// Every entry of the map names a key and a value length that fit the
/// fixed-width record header.
pub open spec fn locs_encodable(m: Map<Seq<u8>, ValueLoc>) -> bool {
    forall|k: Seq<u8>|
        #[trigger] m.dom().contains(k) ==> k.len() <= u32::MAX && m[k].len
            <= codec::MAX_VALUE_LEN
}

/// Every entry that replay adds fits the record header: its key came out of
/// a header-declared length and its value length has the tombstone bit
/// clear.
pub proof fn lemma_replay_encodable(b: Seq<u8>, pos: int, acc: Map<Seq<u8>, ValueLoc>)
    requires
        0 <= pos,
        locs_encodable(acc),
    ensures
        locs_encodable(replay_from(b, pos, acc)),
    decreases b.len() - pos,
{
    if codec::decodable(b, pos) {
        let acc2 = apply_record(b, pos, acc);
        assert forall|k2: Seq<u8>| #[trigger] acc2.dom().contains(k2) implies k2.len()
            <= u32::MAX && acc2[k2].len <= codec::MAX_VALUE_LEN by {
            if codec::rec_value(b, pos) is Some && k2 == codec::rec_key(b, pos) {
                assert(codec::rec_key(b, pos).len() == codec::hdr_key_len(b, pos));
                assert(!codec::is_tombstone(codec::hdr_value_raw(b, pos)));
            } else {
                assert(acc.dom().contains(k2));
                assert(acc2[k2] == acc[k2]);
            }
        }
        assert(locs_encodable(acc2));
        lemma_replay_encodable(b, pos + codec::rec_need(b, pos), acc2);
    }
}

/// Truncated-tail tolerance: a buffer that ends in the first `cut` bytes of
/// one more record replays exactly like the buffer without those bytes. A
/// crash in the middle of an append loses nothing that was already written.
pub proof fn lemma_truncated_tail_tolerated(b: Seq<u8>, k: Seq<u8>, v: Option<Seq<u8>>, cut: int)
    requires
        parse_ok(b),
        codec::record_fits(k, v),
        0 <= cut < codec::spec_encode(k, v).len(),
    ensures
        scan_end(b + codec::spec_encode(k, v).subrange(0, cut), 0) == b.len(),
        replay(b + codec::spec_encode(k, v).subrange(0, cut)) == replay(b),
{
    codec::lemma_partial_record_undecodable(b, k, v, cut);
    lemma_replay_blocked_tail(b, codec::spec_encode(k, v).subrange(0, cut), 0, Map::empty());
}

/// The log itself: the bytes of the data file, held in memory. The shell
/// that owns the real file persists `data` and hands it back on reopen.
pub struct Log {
    pub data: Vec<u8>,
}

impl View for Log {
    type V = Seq<u8>;

    open spec fn view(&self) -> Seq<u8> {
        self.data@
    }
}

impl Log {
    /// A fresh, empty log.
    pub fn new() -> (log: Log)
        ensures
            log@ == Seq::<u8>::empty(),
    {
        Log { data: Vec::new() }
    }

    /// A log over previously stored bytes, exactly as they were read back.
    pub fn from_bytes(data: Vec<u8>) -> (log: Log)
        ensures
            log@ == data@,
    {
        Log { data }
    }

    pub fn len(&self) -> (n: usize)
        ensures
            n == self@.len(),
    {
        self.data.len()
    }

    /// Append one record; returns where it landed: its starting offset and
    /// its total encoded length.
    pub fn append(&mut self, key: &[u8], value: Option<&[u8]>) -> (r: (u64, u32))
        requires
            codec::record_fits(key@, codec::opt_slice_view(value)),
            old(self)@.len() + codec::spec_encoded_len(key@, codec::opt_slice_view(value))
                <= u64::MAX,
            codec::spec_encoded_len(key@, codec::opt_slice_view(value)) <= u32::MAX,
        ensures
            final(self)@ == old(self)@ + codec::spec_encode(key@, codec::opt_slice_view(value)),
            r.0 == old(self)@.len(),
            r.1 == codec::spec_encoded_len(key@, codec::opt_slice_view(value)),
    {
        let offset: u64 = self.data.len() as u64;
        let bytes = codec::encode_record(key, value);
        let total: u32 = bytes.len() as u32;
        codec::push_bytes(&mut self.data, bytes.as_slice());
        (offset, total)
    }

    /// Read exactly `len` bytes at `offset`; fails with `ShortRead` when the
    /// range reaches past the end of the log.
    pub fn read_value(&self, offset: u64, len: u32) -> (r: Result<Vec<u8>, Error>)
        ensures
            match r {
                Ok(v) => {
                    &&& offset + len <= self@.len()
                    &&& v@ == self@.subrange(offset as int, offset as int + len as int)
                },
                Err(e) => {
                    &&& e == Error::ShortRead
                    &&& offset + len > self@.len()
                },
            },
    {
        let n: u64 = self.data.len() as u64;
        if len as u64 > n || offset > n - (len as u64) {
            return Err(Error::ShortRead);
        }
        Ok(codec::copy_range(&self.data, offset as usize, len as usize))
    }

    /// Replay the whole buffer into a fresh index. Returns the index and the
    /// number of leading bytes that hold whole records; any bytes past that
    /// point are a partial trailing write and are deliberately ignored.
    pub fn load_index(&self) -> (r: (KeyDir, usize))
        ensures
            r.0.wf(),
            r.0.as_map() == replay(self@),
            r.1 == scan_end(self@, 0),
    {
        let mut kd = KeyDir::new();
        let mut pos: usize = 0;
        loop
            invariant
                kd.wf(),
                pos <= self.data.len(),
                replay_from(self@, pos as int, kd.as_map()) == replay(self@),
                scan_end(self@, pos as int) == scan_end(self@, 0),
            ensures
                kd.wf(),
                pos <= self.data.len(),
                !codec::decodable(self@, pos as int),
                replay_from(self@, pos as int, kd.as_map()) == replay(self@),
                scan_end(self@, pos as int) == scan_end(self@, 0),
            decreases self@.len() - pos,
        {
            match codec::decode_record(&self.data, pos) {
                Ok((rec, next)) => {
                    let klen: usize = rec.key.len();
                    match rec.value {
                        Some(v) => {
                            let loc = ValueLoc {
                                offset: (pos + codec::HEADER_LEN + klen) as u64,
                                len: v.len() as u32,
                            };
                            proof {
                                assert(loc.offset == codec::rec_value_off(self@, pos as int) as u64);
                                assert(loc.len == codec::hdr_value_raw(self@, pos as int));
                            }
                            kd.insert(rec.key, loc);
                        },
                        None => {
                            kd.remove(rec.key.as_slice());
                        },
                    }
                    pos = next;
                },
                Err(_) => {
                    break ;
                },
            }
        }
        (kd, pos)
    }
}

} // verus!
