//! The engine: one log and one index, composed so that the index always
//! reflects the most recent durable state of the log.
//!
//! The engine's invariant is the whole design in one line: the index equals
//! the replay of the log bytes. Every operation re-establishes it, so a
//! reader that rebuilds the index from the stored bytes sees exactly the
//! state the engine had — that is crash recovery.

use vstd::prelude::*;

use crate::codec;
use crate::errors::Error;
use crate::keydir::KeyDir;
use crate::keydir::KeyEntry;
use crate::keydir::ScanBound;
use crate::keydir::ValueLoc;
use crate::keydir::in_range;
use crate::keydir::lex_lt;
use crate::log;
use crate::log::Log;

verus! {

/// The `len` bytes at `offset` of a byte buffer.
pub open spec fn value_at(b: Seq<u8>, loc: ValueLoc) -> Seq<u8> {
    b.subrange(loc.offset as int, loc.offset + loc.len)
}

/// The key/value state that replaying stored bytes recovers: one entry per
/// live key, holding the bytes of its most recent value record.
pub open spec fn recovered_view(b: Seq<u8>) -> Map<Seq<u8>, Seq<u8>> {
    Map::new(
        |k: Seq<u8>| log::replay(b).dom().contains(k),
        |k: Seq<u8>| value_at(b, log::replay(b)[k]),
    )
}

/// The concatenated encodings of a list of key/value pairs, in order.
pub open spec fn encode_pairs(ps: Seq<(Seq<u8>, Seq<u8>)>) -> Seq<u8>
    decreases ps.len(),
{
    if ps.len() == 0 {
        Seq::empty()
    } else {
        encode_pairs(ps.drop_last()) + codec::spec_encode(ps.last().0, Some(ps.last().1))
    }
}

/// The order in which compaction rewrites live slots: by the offset of each
/// value in the old log, so the surviving records keep the order in which
/// they were appended. A tie on offsets, which no index built from one log
/// can hold, falls back to key order, so the order is total either way.
pub open spec fn off_key_le(a: (Seq<u8>, ValueLoc), b: (Seq<u8>, ValueLoc)) -> bool {
    ||| a.1.offset < b.1.offset
    ||| (a.1.offset == b.1.offset && !lex_lt(b.0, a.0))
}

/// Insert one slot into a list ordered by `off_key_le`, in front of the
/// first slot it does not come after.
pub open spec fn insert_by_offset(
    e: (Seq<u8>, ValueLoc),
    s: Seq<(Seq<u8>, ValueLoc)>,
) -> Seq<(Seq<u8>, ValueLoc)>
    decreases s.len(),
{
    if s.len() == 0 {
        seq![e]
    } else if off_key_le(e, s[0]) {
        seq![e] + s
    } else {
        seq![s[0]] + insert_by_offset(e, s.skip(1))
    }
}

/// The slots reordered by where their values sit in the old log.
pub open spec fn sort_by_offset(s: Seq<(Seq<u8>, ValueLoc)>) -> Seq<(Seq<u8>, ValueLoc)>
    decreases s.len(),
{
    if s.len() == 0 {
        Seq::empty()
    } else {
        insert_by_offset(s.last(), sort_by_offset(s.drop_last()))
    }
}

/// Index slots as plain pairs of key bytes and value location.
pub open spec fn entry_views(s: Seq<KeyEntry>) -> Seq<(Seq<u8>, ValueLoc)> {
    Seq::new(s.len(), |i: int| (s[i].key@, s[i].loc))
}

/// A one-longer list holds an element exactly when it is the head or in the
/// tail.
proof fn lemma_cons_contains(e: (Seq<u8>, ValueLoc), s: Seq<(Seq<u8>, ValueLoc)>)
    ensures
        forall|x: (Seq<u8>, ValueLoc)| #[trigger]
            (seq![e] + s).contains(x) <==> x == e || s.contains(x),
{
    assert forall|x: (Seq<u8>, ValueLoc)| #[trigger]
        (seq![e] + s).contains(x) implies x == e || s.contains(x) by {
        let i = choose|i: int| 0 <= i < (seq![e] + s).len() && (seq![e] + s)[i] == x;
        if i > 0 {
            assert(s[i - 1] == x);
        }
    }
    assert forall|x: (Seq<u8>, ValueLoc)| x == e || s.contains(x) implies #[trigger]
        (seq![e] + s).contains(x) by {
        if x == e {
            assert((seq![e] + s)[0] == x);
        } else {
            let i = choose|i: int| 0 <= i < s.len() && s[i] == x;
            assert((seq![e] + s)[i + 1] == x);
        }
    }
}

/// Inserting adds exactly the inserted slot.
proof fn lemma_insert_by_offset_contains(e: (Seq<u8>, ValueLoc), s: Seq<(Seq<u8>, ValueLoc)>)
    ensures
        insert_by_offset(e, s).len() == s.len() + 1,
        forall|x: (Seq<u8>, ValueLoc)| #[trigger]
            insert_by_offset(e, s).contains(x) <==> x == e || s.contains(x),
    decreases s.len(),
{
    if s.len() == 0 {
        assert(insert_by_offset(e, s) =~= seq![e] + Seq::<(Seq<u8>, ValueLoc)>::empty());
        lemma_cons_contains(e, Seq::empty());
    } else if off_key_le(e, s[0]) {
        lemma_cons_contains(e, s);
    } else {
        lemma_insert_by_offset_contains(e, s.skip(1));
        lemma_cons_contains(s[0], insert_by_offset(e, s.skip(1)));
        lemma_cons_contains(s[0], s.skip(1));
        assert(seq![s[0]] + s.skip(1) =~= s);
    }
}

/// Sorting keeps exactly the same slots.
proof fn lemma_sort_by_offset_contains(s: Seq<(Seq<u8>, ValueLoc)>)
    ensures
        sort_by_offset(s).len() == s.len(),
        forall|x: (Seq<u8>, ValueLoc)| #[trigger] sort_by_offset(s).contains(x) <==> s.contains(x),
    decreases s.len(),
{
    if s.len() > 0 {
        lemma_sort_by_offset_contains(s.drop_last());
        lemma_insert_by_offset_contains(s.last(), sort_by_offset(s.drop_last()));
        assert forall|x: (Seq<u8>, ValueLoc)| #[trigger]
            sort_by_offset(s).contains(x) implies s.contains(x) by {
            if x == s.last() {
                assert(s[s.len() - 1] == x);
            } else {
                let i = choose|i: int| 0 <= i < s.drop_last().len() && s.drop_last()[i] == x;
                assert(s[i] == x);
            }
        }
        assert forall|x: (Seq<u8>, ValueLoc)| s.contains(x) implies #[trigger]
            sort_by_offset(s).contains(x) by {
            let i = choose|i: int| 0 <= i < s.len() && s[i] == x;
            if i < s.len() - 1 {
                assert(s.drop_last()[i] == x);
            }
        }
    }
}

/// The compaction order is total.
proof fn lemma_off_key_le_total(a: (Seq<u8>, ValueLoc), b: (Seq<u8>, ValueLoc))
    ensures
        off_key_le(a, b) || off_key_le(b, a),
{
    if a.1.offset == b.1.offset {
        crate::keydir::lemma_lex_lt_asymmetric(a.0, b.0);
    }
}

/// The compaction order is transitive.
proof fn lemma_off_key_le_trans(a: (Seq<u8>, ValueLoc), b: (Seq<u8>, ValueLoc), c: (Seq<u8>, ValueLoc))
    ensures
        off_key_le(a, b) && off_key_le(b, c) ==> off_key_le(a, c),
{
    if off_key_le(a, b) && off_key_le(b, c) && a.1.offset == b.1.offset && b.1.offset
        == c.1.offset {
        if lex_lt(c.0, a.0) {
            crate::keydir::lemma_lex_lt_connected(a.0, b.0);
            crate::keydir::lemma_lex_lt_connected(b.0, c.0);
            crate::keydir::lemma_lex_lt_irreflexive(a.0);
            crate::keydir::lemma_lex_lt_transitive(a.0, b.0, c.0);
            crate::keydir::lemma_lex_lt_asymmetric(a.0, c.0);
            crate::keydir::lemma_lex_lt_asymmetric(b.0, c.0);
            crate::keydir::lemma_lex_lt_asymmetric(a.0, b.0);
        }
    }
}

/// Inserting into an ordered list keeps it ordered.
proof fn lemma_insert_by_offset_sorted(e: (Seq<u8>, ValueLoc), s: Seq<(Seq<u8>, ValueLoc)>)
    requires
        forall|p: int, q: int| 0 <= p < q < s.len() ==> off_key_le(#[trigger] s[p], #[trigger] s[q]),
    ensures
        forall|p: int, q: int|
            0 <= p < q < insert_by_offset(e, s).len() ==> off_key_le(
                #[trigger] insert_by_offset(e, s)[p],
                #[trigger] insert_by_offset(e, s)[q],
            ),
    decreases s.len(),
{
    let r = insert_by_offset(e, s);
    if s.len() == 0 {
    } else if off_key_le(e, s[0]) {
        assert forall|p: int, q: int| 0 <= p < q < r.len() implies off_key_le(
            #[trigger] r[p],
            #[trigger] r[q],
        ) by {
            if p == 0 {
                if q == 1 {
                } else {
                    lemma_off_key_le_trans(e, s[0], s[q - 1]);
                }
            } else {
                assert(off_key_le(s[p - 1], s[q - 1]));
            }
        }
    } else {
        lemma_off_key_le_total(e, s[0]);
        assert forall|p: int, q: int|
            0 <= p < q < s.skip(1).len() implies off_key_le(
            #[trigger] s.skip(1)[p],
            #[trigger] s.skip(1)[q],
        ) by {
            assert(off_key_le(s[p + 1], s[q + 1]));
        }
        lemma_insert_by_offset_sorted(e, s.skip(1));
        lemma_insert_by_offset_contains(e, s.skip(1));
        let t = insert_by_offset(e, s.skip(1));
        assert forall|p: int, q: int| 0 <= p < q < r.len() implies off_key_le(
            #[trigger] r[p],
            #[trigger] r[q],
        ) by {
            if p == 0 {
                // Everything in the tail is the new slot or an old one, and
                // the head comes before both.
                assert(t.contains(t[q - 1]));
                if t[q - 1] == e {
                } else {
                    let i = choose|i: int| 0 <= i < s.skip(1).len() && s.skip(1)[i] == t[q - 1];
                    assert(off_key_le(s[0], s[i + 1]));
                }
            } else {
                assert(off_key_le(t[p - 1], t[q - 1]));
            }
        }
    }
}

/// The compaction order is real: the slot list underlying `live_pairs` is
/// ordered by `off_key_le`, so `merge` writes the surviving records by
/// ascending old-log offset — the order in which they were appended.
pub proof fn lemma_sort_by_offset_sorted(s: Seq<(Seq<u8>, ValueLoc)>)
    ensures
        forall|p: int, q: int|
            0 <= p < q < sort_by_offset(s).len() ==> off_key_le(
                #[trigger] sort_by_offset(s)[p],
                #[trigger] sort_by_offset(s)[q],
            ),
    decreases s.len(),
{
    if s.len() > 0 {
        lemma_sort_by_offset_sorted(s.drop_last());
        lemma_insert_by_offset_sorted(s.last(), sort_by_offset(s.drop_last()));
    }
}

/// Where the first fitting position is known, inserting is splicing there.
proof fn lemma_insert_by_offset_at(e: (Seq<u8>, ValueLoc), s: Seq<(Seq<u8>, ValueLoc)>, p: int)
    requires
        0 <= p <= s.len(),
        forall|j: int| 0 <= j < p ==> !off_key_le(e, #[trigger] s[j]),
        p < s.len() ==> off_key_le(e, s[p]),
    ensures
        insert_by_offset(e, s) == s.subrange(0, p) + seq![e] + s.subrange(p, s.len() as int),
    decreases p,
{
    if s.len() == 0 {
        assert(insert_by_offset(e, s) =~= s.subrange(0, p) + seq![e] + s.subrange(
            p,
            s.len() as int,
        ));
    } else if p == 0 {
        assert(insert_by_offset(e, s) =~= s.subrange(0, 0) + seq![e] + s.subrange(
            0,
            s.len() as int,
        ));
    } else {
        assert(!off_key_le(e, s[0]));
        assert forall|j: int| 0 <= j < p - 1 implies !off_key_le(e, #[trigger] s.skip(1)[j]) by {
            assert(s.skip(1)[j] == s[j + 1]);
        }
        if p - 1 < s.skip(1).len() {
            assert(s.skip(1)[p - 1] == s[p]);
        }
        lemma_insert_by_offset_at(e, s.skip(1), p - 1);
        assert(seq![s[0]] + insert_by_offset(e, s.skip(1)) =~= s.subrange(0, p) + seq![e]
            + s.subrange(p, s.len() as int));
    }
}

/// A log-structured key/value store: an append-only log of records and an
/// in-memory index over the live keys.
pub struct MiniBitcask {
    log: Log,
    index: KeyDir,
}

impl View for MiniBitcask {
    type V = Map<Seq<u8>, Seq<u8>>;

    /// The caller-visible state: live keys mapped to their value bytes.
    closed spec fn view(&self) -> Map<Seq<u8>, Seq<u8>> {
        Map::new(
            |k: Seq<u8>| self.index.as_map().dom().contains(k),
            |k: Seq<u8>| value_at(self.log@, self.index.as_map()[k]),
        )
    }
}

impl MiniBitcask {
    /// Internal consistency: the index is well formed and is exactly the
    /// replay of the log, whose bytes parse to their end, and every index
    /// entry points inside the log.
    pub closed spec fn inv(self) -> bool {
        &&& self.index.wf()
        &&& log::parse_ok(self.log@)
        &&& self.index.as_map() == log::replay(self.log@)
        &&& log::locs_bounded(self.index.as_map(), self.log@.len() as int)
    }

    /// The stored bytes of the log.
    pub closed spec fn log_view(self) -> Seq<u8> {
        self.log@
    }

    /// A fresh, empty store.
    pub fn new() -> (eng: MiniBitcask)
        ensures
            eng.inv(),
            eng@ == Map::<Seq<u8>, Seq<u8>>::empty(),
            eng.log_view() == Seq::<u8>::empty(),
    {
        let eng = MiniBitcask { log: Log::new(), index: KeyDir::new() };
        proof {
            assert(!codec::decodable(eng.log@, 0));
            assert(eng.index.as_map() =~= log::replay(eng.log@));
            assert(eng@ =~= Map::<Seq<u8>, Seq<u8>>::empty());
        }
        eng
    }

    /// Open a store over previously stored bytes: replay them into a fresh
    /// index, dropping any partial record that a crash left at the tail.
    pub fn open(data: Vec<u8>) -> (eng: MiniBitcask)
        ensures
            eng.inv(),
            eng@ == recovered_view(data@),
            eng.log_view() == data@.take(log::scan_end(data@, 0)),
    {
        let mut log = Log::from_bytes(data);
        let (index, valid) = log.load_index();
        proof {
            log::lemma_scan_end_le(log@, 0);
            log::lemma_scan_end_ge(log@, 0);
        }
        log.data.truncate(valid);
        let eng = MiniBitcask { log, index };
        proof {
            let b = data@;
            let p = log::scan_end(b, 0);
            log::lemma_replay_prefix(b, 0, Map::empty());
            assert(eng.log@ =~= b.take(p));
            assert(log::parse_ok(eng.log@));
            assert(eng.index.as_map() == log::replay(eng.log@));
            log::lemma_replay_bounded(eng.log@, 0, Map::empty(), eng.log@.len() as int);
            assert(eng@ =~= recovered_view(b)) by {
                assert forall|k: Seq<u8>| log::replay(b).dom().contains(k) implies value_at(
                    eng.log@,
                    log::replay(b)[k],
                ) == value_at(b, log::replay(b)[k]) by {
                    let loc = log::replay(b)[k];
                    assert(loc.offset + loc.len <= p);
                    assert(eng.log@.subrange(loc.offset as int, loc.offset + loc.len) =~= b.subrange(
                        loc.offset as int,
                        loc.offset + loc.len,
                    ));
                }
            }
        }
        eng
    }

    /// Store `value` under `key`: append a value record, then point the
    /// index at the value's exact bytes. The bounds asked of the caller are
    /// the machine limits of the fixed-width record header and offsets.
    pub fn set(&mut self, key: &[u8], value: Vec<u8>) -> (r: Result<(), Error>)
        requires
            old(self).inv(),
            key@.len() <= u32::MAX,
            value@.len() <= codec::MAX_VALUE_LEN,
            old(self).log_view().len() + codec::HEADER_LEN + key@.len() + value@.len()
                <= u64::MAX,
            codec::HEADER_LEN + key@.len() + value@.len() <= u32::MAX,
        ensures
            final(self).inv(),
            r is Ok,
            final(self)@ == old(self)@.insert(key@, value@),
            final(self).log_view() == old(self).log_view() + codec::spec_encode(
                key@,
                Some(value@),
            ),
    {
        let ghost b = self.log@;
        let ghost e = codec::spec_encode(key@, Some(value@));
        let (offset, total) = self.log.append(key, Some(value.as_slice()));
        let vlen: u32 = value.len() as u32;
        let loc = ValueLoc { offset: offset + ((total - vlen) as u64), len: vlen };
        proof {
            codec::lemma_encode_decodes_at(b, key@, Some(value@));
            log::lemma_replay_append(b, e, 0, Map::empty());
        }
        let key_vec = codec::slice_to_vec(key);
        self.index.insert(key_vec, loc);
        proof {
            let c = self.log@;
            let pos = b.len() as int;
            assert(loc.offset == codec::rec_value_off(c, pos) as u64);
            assert(loc.len == codec::hdr_value_raw(c, pos));
            assert(self.index.as_map() == log::replay(c));
            log::lemma_replay_bounded(c, 0, Map::empty(), c.len() as int);
            assert(self@ =~= old(self)@.insert(key@, value@)) by {
                assert(c.subrange(loc.offset as int, loc.offset + loc.len) =~= value@);
                assert forall|k: Seq<u8>|
                    k != key@ && old(self).index.as_map().dom().contains(k) implies value_at(
                    c,
                    old(self).index.as_map()[k],
                ) == value_at(b, old(self).index.as_map()[k]) by {
                    let kloc = old(self).index.as_map()[k];
                    assert(kloc.offset + kloc.len <= b.len());
                    assert(c.subrange(kloc.offset as int, kloc.offset + kloc.len) =~= b.subrange(
                        kloc.offset as int,
                        kloc.offset + kloc.len,
                    ));
                }
            }
        }
        Ok(())
    }

    /// Delete `key`: append a tombstone record, then drop the key from the
    /// index. A tombstone is appended even when the key is absent, exactly
    /// as a replaying reader would expect.
    pub fn delete(&mut self, key: &[u8]) -> (r: Result<(), Error>)
        requires
            old(self).inv(),
            key@.len() <= u32::MAX,
            old(self).log_view().len() + codec::HEADER_LEN + key@.len() <= u64::MAX,
            codec::HEADER_LEN + key@.len() <= u32::MAX,
        ensures
            final(self).inv(),
            r is Ok,
            final(self)@ == old(self)@.remove(key@),
            final(self).log_view() == old(self).log_view() + codec::spec_encode(key@, None),
    {
        let ghost b = self.log@;
        let ghost e = codec::spec_encode(key@, None);
        let (_offset, _total) = self.log.append(key, None);
        proof {
            codec::lemma_encode_decodes_at(b, key@, None);
            log::lemma_replay_append(b, e, 0, Map::empty());
        }
        self.index.remove(key);
        proof {
            let c = self.log@;
            assert(self.index.as_map() == log::replay(c));
            log::lemma_replay_bounded(c, 0, Map::empty(), c.len() as int);
            assert(self@ =~= old(self)@.remove(key@)) by {
                assert forall|k: Seq<u8>|
                    k != key@ && old(self).index.as_map().dom().contains(k) implies value_at(
                    c,
                    old(self).index.as_map()[k],
                ) == value_at(b, old(self).index.as_map()[k]) by {
                    let kloc = old(self).index.as_map()[k];
                    assert(kloc.offset + kloc.len <= b.len());
                    assert(c.subrange(kloc.offset as int, kloc.offset + kloc.len) =~= b.subrange(
                        kloc.offset as int,
                        kloc.offset + kloc.len,
                    ));
                }
            }
        }
        Ok(())
    }

    /// Look `key` up in the index and read its value bytes from the log. A
    /// miss is `Ok(None)`; the error branch exists for an index entry that
    /// no longer matches the log, which the invariant proves unreachable.
    pub fn get(&self, key: &[u8]) -> (r: Result<Option<Vec<u8>>, Error>)
        requires
            self.inv(),
        ensures
            match r {
                Ok(Some(v)) => self@.dom().contains(key@) && v@ == self@[key@],
                Ok(None) => !self@.dom().contains(key@),
                Err(_) => false,
            },
    {
        match self.index.get(key) {
            Some(loc) => match self.log.read_value(loc.offset, loc.len) {
                Ok(v) => Ok(Some(v)),
                Err(_) => Err(Error::InternalInconsistency),
            },
            None => Ok(None),
        }
    }

    /// Ordered range scan: every live key within the bounds in ascending
    /// lexicographic byte order, each paired with its value bytes, and
    /// nothing else. The whole result is materialised; walk it from its
    /// back for the descending direction.
    pub fn scan(&self, lo: &ScanBound, hi: &ScanBound) -> (r: Vec<(Vec<u8>, Vec<u8>)>)
        requires
            self.inv(),
        ensures
            forall|p: int, q: int|
                0 <= p < q < r@.len() ==> #[trigger] lex_lt(r@[p].0@, r@[q].0@),
            forall|p: int|
                0 <= p < r@.len() ==> in_range(*lo, *hi, #[trigger] r@[p].0@)
                    && self@.dom().contains(r@[p].0@) && r@[p].1@ == self@[r@[p].0@],
            forall|k: Seq<u8>|
                self@.dom().contains(k) && in_range(*lo, *hi, k) ==> exists|p: int|
                    0 <= p < r@.len() && #[trigger] r@[p].0@ == k,
    {
        let entries = self.index.range(lo, hi);
        let mut r: Vec<(Vec<u8>, Vec<u8>)> = Vec::new();
        let mut i: usize = 0;
        while i < entries.len()
            invariant
                self.inv(),
                i <= entries@.len(),
                r@.len() == i,
                forall|p: int, q: int|
                    0 <= p < q < entries@.len() ==> #[trigger] lex_lt(
                        entries@[p].key@,
                        entries@[q].key@,
                    ),
                forall|p: int|
                    0 <= p < entries@.len() ==> in_range(*lo, *hi, #[trigger] entries@[p].key@)
                        && self.index.as_map().dom().contains(entries@[p].key@)
                        && self.index.as_map()[entries@[p].key@] == entries@[p].loc,
                forall|k: Seq<u8>|
                    self.index.as_map().dom().contains(k) && in_range(*lo, *hi, k) ==> exists|
                        p: int,
                    |
                        0 <= p < entries@.len() && #[trigger] entries@[p].key@ == k,
                forall|p: int|
                    0 <= p < i ==> #[trigger] r@[p].0@ == entries@[p].key@ && r@[p].1@
                        == self@[entries@[p].key@],
            decreases entries@.len() - i,
        {
            let loc = entries[i].loc;
            proof {
                assert(self.index.as_map()[entries@[i as int].key@] == loc);
                assert(loc.offset + loc.len <= self.log@.len());
            }
            let v = self.log.read_value(loc.offset, loc.len).unwrap();
            let kcopy = codec::clone_bytes(&entries[i].key);
            let ghost prev_r = r@;
            r.push((kcopy, v));
            proof {
                assert forall|p: int|
                    0 <= p < i + 1 implies #[trigger] r@[p].0@ == entries@[p].key@ && r@[p].1@
                    == self@[entries@[p].key@] by {
                    if p < i {
                        assert(r@[p] == prev_r[p]);
                    } else {
                        assert(r@[p].0@ == entries@[i as int].key@);
                        assert(self@[entries@[i as int].key@] == value_at(self.log@, loc));
                    }
                }
            }
            i = i + 1;
        }
        proof {
            assert forall|k: Seq<u8>|
                self@.dom().contains(k) && in_range(*lo, *hi, k) implies exists|p: int|
                0 <= p < r@.len() && #[trigger] r@[p].0@ == k by {
                let p = choose|p: int| 0 <= p < entries@.len() && entries@[p].key@ == k;
                assert(r@[p].0@ == k);
            }
        }
        r
    }

    /// The live records in the order compaction writes them: by the offset
    /// of each value in the old log, so the survivors keep the order in
    /// which they were appended.
    pub closed spec fn live_pairs(self) -> Seq<(Seq<u8>, Seq<u8>)> {
        let sorted = sort_by_offset(entry_views(self.index.entries@));
        Seq::new(sorted.len(), |i: int| (sorted[i].0, value_at(self.log@, sorted[i].1)))
    }

    /// Decide `off_key_le` for two index slots.
    fn entry_le(a: &KeyEntry, b: &KeyEntry) -> (r: bool)
        ensures
            r == off_key_le((a.key@, a.loc), (b.key@, b.loc)),
    {
        if a.loc.offset < b.loc.offset {
            true
        } else if a.loc.offset > b.loc.offset {
            false
        } else {
            match crate::keydir::lex_compare(b.key.as_slice(), a.key.as_slice()) {
                crate::keydir::KeyCmp::Less => false,
                crate::keydir::KeyCmp::Equal => {
                    proof {
                        crate::keydir::lemma_lex_lt_irreflexive(a.key@);
                    }
                    true
                },
                crate::keydir::KeyCmp::Greater => {
                    proof {
                        crate::keydir::lemma_lex_lt_asymmetric(a.key@, b.key@);
                    }
                    true
                },
            }
        }
    }

    /// Compaction: rewrite only the live records, in the order they stand
    /// in the old log, into a fresh log, and swap it in. The visible state
    /// is unchanged and the new log holds exactly one record per live key.
    /// The shell that owns the real file replaces it with the new bytes and
    /// takes a fresh lock, as a rename-based swap would.
    pub fn merge(&mut self) -> (r: Result<(), Error>)
        requires
            old(self).inv(),
        ensures
            final(self).inv(),
            r is Ok,
            final(self)@ == old(self)@,
            final(self).log_view() == encode_pairs(old(self).live_pairs()),
    {
        proof {
            log::lemma_replay_encodable(self.log@, 0, Map::empty());
        }
        let ghost views = entry_views(self.index.entries@);

        // Put the live slots into old-log order: where each value sits.
        let mut order: Vec<KeyEntry> = Vec::new();
        let mut i: usize = 0;
        proof {
            assert(entry_views(order@) =~= sort_by_offset(views.take(0)));
        }
        while i < self.index.len()
            invariant
                self.inv(),
                views == entry_views(self.index.entries@),
                i <= self.index.len_spec(),
                entry_views(order@) == sort_by_offset(views.take(i as int)),
            decreases self.index.len_spec() - i,
        {
            let ghost ev = (self.index.entries@[i as int].key@, self.index.entries@[i as int].loc);
            let mut p: usize = 0;
            loop
                invariant
                    i < self.index.entries@.len(),
                    ev == (self.index.entries@[i as int].key@, self.index.entries@[i as int].loc),
                    p <= order@.len(),
                    forall|j: int| 0 <= j < p ==> !off_key_le(ev, #[trigger] entry_views(order@)[j]),
                ensures
                    i < self.index.entries@.len(),
                    p <= order@.len(),
                    forall|j: int| 0 <= j < p ==> !off_key_le(ev, #[trigger] entry_views(order@)[j]),
                    p < order@.len() ==> off_key_le(ev, entry_views(order@)[p as int]),
                decreases order@.len() - p,
            {
                if p >= order.len() {
                    break ;
                }
                if Self::entry_le(&self.index.entries[i], &order[p]) {
                    break ;
                }
                p = p + 1;
            }
            let ghost before = entry_views(order@);
            let e_key = codec::clone_bytes(&self.index.entries[i].key);
            let e_loc = self.index.entries[i].loc;
            order.insert(p, KeyEntry { key: e_key, loc: e_loc });
            proof {
                lemma_insert_by_offset_at(ev, before, p as int);
                assert(entry_views(order@) =~= before.subrange(0, p as int) + seq![ev]
                    + before.subrange(p as int, before.len() as int));
                assert(views.take(i + 1).drop_last() =~= views.take(i as int));
                assert(views.take(i + 1).last() == ev);
                assert(entry_views(order@) == sort_by_offset(views.take(i + 1)));
            }
            i = i + 1;
        }
        proof {
            assert(views.take(self.index.len_spec()) =~= views);
        }
        let ghost live = self.live_pairs();
        let mut new_log = Log::new();
        let mut new_index = KeyDir::new();
        let mut j: usize = 0;
        proof {
            assert(new_log@ =~= encode_pairs(live.take(0)));
        }
        while j < order.len()
            invariant
                self.inv(),
                log::locs_encodable(self.index.as_map()),
                j <= order@.len(),
                live == self.live_pairs(),
                views == entry_views(self.index.entries@),
                entry_views(order@) == sort_by_offset(views),
                new_index.wf(),
                log::parse_ok(new_log@),
                new_index.as_map() == log::replay(new_log@),
                log::locs_bounded(new_index.as_map(), new_log@.len() as int),
                new_log@ == encode_pairs(live.take(j as int)),
                forall|k: Seq<u8>|
                    new_index.as_map().dom().contains(k) ==> exists|t: int|
                        0 <= t < j && #[trigger] order@[t].key@ == k,
                forall|t: int|
                    0 <= t < j ==> new_index.as_map().dom().contains(#[trigger] order@[t].key@)
                        && value_at(new_log@, new_index.as_map()[order@[t].key@]) == value_at(
                        self.log@,
                        order@[t].loc,
                    ),
            decreases order@.len() - j,
        {
            let loc = order[j].loc;
            proof {
                // The ordered slot names an index entry with this location.
                Self::lemma_ordered_slot(*self, order@, views, j as int);
                assert(self.index.as_map()[order@[j as int].key@] == loc);
                assert(loc.offset + loc.len <= self.log@.len());
            }
            let v = self.log.read_value(loc.offset, loc.len).unwrap();
            let ghost b2 = new_log@;
            let ghost prev_map = new_index.as_map();
            let e_bytes = codec::encode_record(order[j].key.as_slice(), Some(v.as_slice()));
            proof {
                codec::lemma_encode_decodes_at(b2, order@[j as int].key@, Some(v@));
                log::lemma_replay_append(
                    b2,
                    codec::spec_encode(order@[j as int].key@, Some(v@)),
                    0,
                    Map::empty(),
                );
            }
            codec::push_bytes(&mut new_log.data, e_bytes.as_slice());
            let vlen: usize = v.len();
            let newloc = ValueLoc { offset: (new_log.data.len() - vlen) as u64, len: vlen as u32 };
            let kcopy = codec::clone_bytes(&order[j].key);
            new_index.insert(kcopy, newloc);
            proof {
                let c = new_log@;
                let pos = b2.len() as int;
                let k = order@[j as int].key@;
                assert(newloc.offset == codec::rec_value_off(c, pos) as u64);
                assert(newloc.len == codec::hdr_value_raw(c, pos));
                assert(new_index.as_map() == log::replay(c));
                log::lemma_replay_bounded(c, 0, Map::empty(), c.len() as int);
                assert(c == encode_pairs(live.take(j + 1))) by {
                    assert(live.take(j + 1).drop_last() =~= live.take(j as int));
                    assert(live.take(j + 1).last() == live[j as int]);
                    assert(live[j as int] == (k, value_at(self.log@, order@[j as int].loc)));
                    assert(live[j as int].1 == v@);
                }
                // Values already copied keep their bytes under the append.
                assert forall|k2: Seq<u8>| prev_map.dom().contains(k2) implies value_at(
                    c,
                    prev_map[k2],
                ) == value_at(b2, prev_map[k2]) by {
                    let kloc = prev_map[k2];
                    assert(kloc.offset + kloc.len <= b2.len());
                    assert(c.subrange(kloc.offset as int, kloc.offset + kloc.len) =~= b2.subrange(
                        kloc.offset as int,
                        kloc.offset + kloc.len,
                    ));
                }
                assert(c.subrange(newloc.offset as int, newloc.offset + newloc.len) =~= v@);
                assert forall|t: int| 0 <= t < j + 1 implies new_index.as_map().dom().contains(
                    #[trigger] order@[t].key@,
                ) && value_at(c, new_index.as_map()[order@[t].key@]) == value_at(
                    self.log@,
                    order@[t].loc,
                ) by {
                    if t < j {
                        if order@[t].key@ != k {
                            assert(new_index.as_map()[order@[t].key@] == prev_map[order@[t].key@]);
                        } else {
                            // The same key ordered twice carries the same
                            // location, so the overwrite changes nothing.
                            Self::lemma_ordered_slot(*self, order@, views, t);
                            assert(order@[t].loc == loc);
                        }
                    }
                }
            }
            j = j + 1;
        }
        proof {
            assert(live.take(order@.len() as int) =~= live);
        }
        let ghost old_view = self@;
        let ghost old_eng = *self;
        self.log = new_log;
        self.index = new_index;
        proof {
            assert forall|k: Seq<u8>| #[trigger] self@.dom().contains(k) implies old_view.dom().contains(
                k,
            ) && self@[k] == old_view[k] by {
                assert(self.index.as_map().dom().contains(k));
                let t = choose|t: int| 0 <= t < order@.len() && order@[t].key@ == k;
                assert(order@[t].key@ == k);
                Self::lemma_ordered_slot(old_eng, order@, views, t);
                assert(old_eng.index.as_map()[k] == order@[t].loc);
                assert(value_at(self.log@, self.index.as_map()[k]) == value_at(
                    old_eng.log@,
                    order@[t].loc,
                ));
                assert(old_view[k] == value_at(old_eng.log@, old_eng.index.as_map()[k]));
                assert(self@[k] == value_at(self.log@, self.index.as_map()[k]));
            }
            assert forall|k: Seq<u8>| #[trigger] old_view.dom().contains(k) implies self@.dom().contains(
                k,
            ) by {
                assert(old_eng.index.as_map().dom().contains(k));
                let t0 = choose|t0: int|
                    0 <= t0 < old_eng.index.len_spec() && old_eng.index.key_at(t0) == k;
                Self::lemma_index_slot_ordered(old_eng, order@, views, t0);
                let u = choose|u: int|
                    0 <= u < order@.len() && order@[u].key@ == old_eng.index.key_at(t0);
                assert(order@[u].key@ == k);
                assert(self.index.as_map().dom().contains(order@[u].key@));
            }
            assert(self@.dom() =~= old_view.dom());
            assert(self@ =~= old_view);
        }
        Ok(())
    }

    /// An ordered slot names an index entry: its key is live and the index
    /// points it at exactly this slot's location.
    proof fn lemma_ordered_slot(eng: MiniBitcask, order: Seq<KeyEntry>, views: Seq<(Seq<u8>, ValueLoc)>, t: int)
        requires
            eng.inv(),
            views == entry_views(eng.index.entries@),
            entry_views(order) == sort_by_offset(views),
            0 <= t < order.len(),
        ensures
            eng.index.as_map().dom().contains(order[t].key@),
            eng.index.as_map()[order[t].key@] == order[t].loc,
    {
        lemma_sort_by_offset_contains(views);
        assert(entry_views(order)[t] == (order[t].key@, order[t].loc));
        assert(entry_views(order).contains(entry_views(order)[t]));
        assert(views.contains((order[t].key@, order[t].loc)));
        let w = choose|w: int| 0 <= w < views.len() && views[w] == (order[t].key@, order[t].loc);
        assert(views[w] == (eng.index.key_at(w), eng.index.loc_at(w)));
        eng.index.lemma_at(w);
    }

    /// Every index slot's key appears among the ordered slots.
    proof fn lemma_index_slot_ordered(eng: MiniBitcask, order: Seq<KeyEntry>, views: Seq<(Seq<u8>, ValueLoc)>, t: int)
        requires
            eng.inv(),
            views == entry_views(eng.index.entries@),
            entry_views(order) == sort_by_offset(views),
            0 <= t < eng.index.len_spec(),
        ensures
            exists|u: int| 0 <= u < order.len() && #[trigger] order[u].key@ == eng.index.key_at(t),
    {
        lemma_sort_by_offset_contains(views);
        assert(views[t] == (eng.index.key_at(t), eng.index.loc_at(t)));
        assert(views.contains(views[t]));
        assert(entry_views(order).contains(views[t]));
        let u = choose|u: int|
            0 <= u < entry_views(order).len() && entry_views(order)[u] == views[t];
        assert(order[u].key@ == eng.index.key_at(t));
    }

    /// The stored log bytes, for the shell that persists them.
    pub fn log_data(&self) -> (r: &Vec<u8>)
        ensures
            r@ == self.log_view(),
    {
        &self.log.data
    }

    /// The current length of the log in bytes.
    pub fn log_len(&self) -> (n: usize)
        ensures
            n == self.log_view().len(),
    {
        self.log.len()
    }
}

/// Point consistency: writing `v` under `k` makes `k` read back as exactly
/// `v`. `set` turns the state `m` into `m.insert(k, v)`, and `get` answers
/// from the state's entry for the key.
pub proof fn law_point_consistency(m: Map<Seq<u8>, Seq<u8>>, k: Seq<u8>, v: Seq<u8>)
    ensures
        m.insert(k, v).dom().contains(k),
        m.insert(k, v)[k] == v,
{
}

/// Delete visibility: after a delete the state holds nothing for the key,
/// whether or not it was ever set. `delete` turns the state `m` into
/// `m.remove(k)`, and `get` then misses.
pub proof fn law_delete_visibility(m: Map<Seq<u8>, Seq<u8>>, k: Seq<u8>)
    ensures
        !m.remove(k).dom().contains(k),
{
}

/// Overwrite: a second write under the same key replaces the first one
/// entirely; the intermediate value leaves no trace in the state.
pub proof fn law_overwrite(m: Map<Seq<u8>, Seq<u8>>, k: Seq<u8>, v1: Seq<u8>, v2: Seq<u8>)
    ensures
        m.insert(k, v1).insert(k, v2) == m.insert(k, v2),
        m.insert(k, v1).insert(k, v2)[k] == v2,
{
    assert(m.insert(k, v1).insert(k, v2) =~= m.insert(k, v2));
}

/// Truncated-tail tolerance at the engine: if a crash leaves the stored
/// bytes ending in only part of one more record, reopening them recovers
/// exactly the engine's state — no fully written record is lost.
pub proof fn law_truncated_tail(eng: MiniBitcask, k: Seq<u8>, v: Option<Seq<u8>>, cut: int)
    requires
        eng.inv(),
        codec::record_fits(k, v),
        0 <= cut < codec::spec_encode(k, v).len(),
    ensures
        recovered_view(eng.log_view() + codec::spec_encode(k, v).subrange(0, cut)) == eng@,
{
    let b = eng.log_view();
    let t = codec::spec_encode(k, v).subrange(0, cut);
    log::lemma_truncated_tail_tolerated(b, k, v, cut);
    law_recovery_idempotent(eng);
    assert(recovered_view(b + t) =~= recovered_view(b)) by {
        assert forall|k2: Seq<u8>| log::replay(b).dom().contains(k2) implies value_at(
            b + t,
            log::replay(b)[k2],
        ) == value_at(b, log::replay(b)[k2]) by {
            let loc = log::replay(b)[k2];
            assert(loc.offset + loc.len <= b.len());
            assert((b + t).subrange(loc.offset as int, loc.offset + loc.len) =~= b.subrange(
                loc.offset as int,
                loc.offset + loc.len,
            ));
        }
    }
}

/// Recovery idempotence: the state any reader recovers from the engine's
/// stored bytes is exactly the engine's visible state. Together with the
/// contract of `open`, closing and reopening on the same bytes yields
/// identical results for every key.
pub proof fn law_recovery_idempotent(eng: MiniBitcask)
    requires
        eng.inv(),
    ensures
        recovered_view(eng.log_view()) == eng@,
{
    assert(recovered_view(eng.log_view()) =~= eng@);
}

} // verus!
