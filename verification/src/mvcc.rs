//! A small multi-version concurrency layer over a versioned in-memory
//! store.
//!
//! Every write creates a new version of its key instead of overwriting the
//! old one; a transaction sees exactly the versions that were committed
//! when it began, plus its own writes. Versions are handed out by the
//! engine instance itself, and the set of still-active transactions is a
//! field of the engine — shared state lives in the one engine value that
//! callers pass around, never in a process-wide singleton.

use vstd::prelude::*;

use crate::codec;
use crate::keydir::KeyCmp;
use crate::keydir::lex_compare;

verus! {

/// One versioned record: a key, the version that wrote it, and what it
/// wrote (`None` marks a deletion).
pub struct VersionedRecord {
    pub key: Vec<u8>,
    pub version: u64,
    pub value: Option<Vec<u8>>,
}

impl VersionedRecord {
    pub open spec fn value_view(self) -> Option<Seq<u8>> {
        opt_vec_view(self.value)
    }
}

/// The view of an optional byte vector.
pub open spec fn opt_vec_view(v: Option<Vec<u8>>) -> Option<Seq<u8>> {
    match v {
        Option::Some(b) => Option::Some(b@),
        Option::None => Option::None,
    }
}

/// The versioned store that transactions share: every version of every key,
/// keyed by the pair of key bytes and writing version.
pub struct KVEngine {
    pub records: Vec<VersionedRecord>,
}

impl KVEngine {
    pub open spec fn len_spec(self) -> int {
        self.records@.len() as int
    }

    pub open spec fn key_at(self, i: int) -> Seq<u8> {
        self.records@[i].key@
    }

    pub open spec fn ver_at(self, i: int) -> u64 {
        self.records@[i].version
    }

    pub open spec fn val_at(self, i: int) -> Option<Seq<u8>> {
        self.records@[i].value_view()
    }

    /// Well-formed: no two slots hold the same key under the same version.
    pub open spec fn wf(self) -> bool {
        forall|i: int, j: int|
            0 <= i < j < self.len_spec() ==> !(#[trigger] self.key_at(i) == #[trigger] self.key_at(
                j,
            ) && self.ver_at(i) == self.ver_at(j))
    }

    pub open spec fn contains_pair(self, k: Seq<u8>, ver: u64) -> bool {
        exists|i: int|
            0 <= i < self.len_spec() && #[trigger] self.key_at(i) == k && self.ver_at(i) == ver
    }

    pub open spec fn pair_index(self, k: Seq<u8>, ver: u64) -> int {
        choose|i: int|
            0 <= i < self.len_spec() && #[trigger] self.key_at(i) == k && self.ver_at(i) == ver
    }

    /// The store as a mathematical map from (key, version) to the written
    /// value.
    pub open spec fn as_map(self) -> Map<(Seq<u8>, u64), Option<Seq<u8>>> {
        Map::new(
            |p: (Seq<u8>, u64)| self.contains_pair(p.0, p.1),
            |p: (Seq<u8>, u64)| self.val_at(self.pair_index(p.0, p.1)),
        )
    }

    /// The pair at slot `i` is in the map and maps to that slot's value.
    pub proof fn lemma_pair_at(self, i: int)
        requires
            self.wf(),
            0 <= i < self.len_spec(),
        ensures
            self.contains_pair(self.key_at(i), self.ver_at(i)),
            self.pair_index(self.key_at(i), self.ver_at(i)) == i,
            self.as_map().dom().contains((self.key_at(i), self.ver_at(i))),
            self.as_map()[(self.key_at(i), self.ver_at(i))] == self.val_at(i),
    {
        assert(self.contains_pair(self.key_at(i), self.ver_at(i)));
        let j = self.pair_index(self.key_at(i), self.ver_at(i));
        assert(0 <= j < self.len_spec() && self.key_at(j) == self.key_at(i) && self.ver_at(j)
            == self.ver_at(i));
    }

    /// An empty store.
    pub fn new() -> (r: KVEngine)
        ensures
            r.wf(),
            r.as_map() == Map::<(Seq<u8>, u64), Option<Seq<u8>>>::empty(),
            r.len_spec() == 0,
    {
        let r = KVEngine { records: Vec::new() };
        proof {
            assert(r.as_map() =~= Map::<(Seq<u8>, u64), Option<Seq<u8>>>::empty());
        }
        r
    }

    /// After replacing the value at slot `i` (same key and version), the
    /// store is the old one with that pair remapped.
    proof fn lemma_after_replace(self, prev: KVEngine, i: int, value: Option<Seq<u8>>)
        requires
            prev.wf(),
            0 <= i < prev.len_spec(),
            self.len_spec() == prev.len_spec(),
            self.val_at(i) == value,
            forall|j: int|
                0 <= j < self.len_spec() ==> #[trigger] self.key_at(j) == prev.key_at(j)
                    && self.ver_at(j) == prev.ver_at(j),
            forall|j: int| 0 <= j < self.len_spec() && j != i ==> #[trigger] self.val_at(j)
                == prev.val_at(j),
        ensures
            self.wf(),
            self.as_map() == prev.as_map().insert((self.key_at(i), self.ver_at(i)), value),
    {
        let p = (self.key_at(i), self.ver_at(i));
        assert forall|x: Seq<u8>, w: u64| self.contains_pair(x, w) implies prev.contains_pair(
            x,
            w,
        ) by {
            let j = choose|j: int|
                0 <= j < self.len_spec() && #[trigger] self.key_at(j) == x && self.ver_at(j) == w;
            assert(prev.key_at(j) == x && prev.ver_at(j) == w);
        }
        assert forall|x: Seq<u8>, w: u64| prev.contains_pair(x, w) implies self.contains_pair(
            x,
            w,
        ) by {
            let j = choose|j: int|
                0 <= j < prev.len_spec() && #[trigger] prev.key_at(j) == x && prev.ver_at(j) == w;
            assert(self.key_at(j) == x && self.ver_at(j) == w);
        }
        assert forall|x: Seq<u8>, w: u64|
            self.contains_pair(x, w) && !(x == p.0 && w == p.1) implies self.as_map()[(x, w)]
            == prev.as_map()[(x, w)] by {
            let j = choose|j: int|
                0 <= j < self.len_spec() && #[trigger] self.key_at(j) == x && self.ver_at(j) == w;
            self.lemma_pair_at(j);
            prev.lemma_pair_at(j);
        }
        self.lemma_pair_at(i);
        assert(self.as_map() =~= prev.as_map().insert(p, value));
    }

    /// After appending a record whose pair is fresh, the store is the old
    /// one with that pair added.
    proof fn lemma_after_push(self, prev: KVEngine, value: Option<Seq<u8>>)
        requires
            prev.wf(),
            self.len_spec() == prev.len_spec() + 1,
            forall|j: int|
                0 <= j < prev.len_spec() ==> #[trigger] self.key_at(j) == prev.key_at(j)
                    && self.ver_at(j) == prev.ver_at(j) && self.val_at(j) == prev.val_at(j),
            self.val_at(prev.len_spec()) == value,
            !prev.contains_pair(self.key_at(prev.len_spec()), self.ver_at(prev.len_spec())),
        ensures
            self.wf(),
            self.as_map() == prev.as_map().insert(
                (self.key_at(prev.len_spec()), self.ver_at(prev.len_spec())),
                value,
            ),
    {
        let n = prev.len_spec();
        let p = (self.key_at(n), self.ver_at(n));
        assert forall|i: int, j: int| 0 <= i < j < self.len_spec() implies !(
        #[trigger] self.key_at(i) == #[trigger] self.key_at(j) && self.ver_at(i) == self.ver_at(
            j,
        )) by {
            if j == n {
                if self.key_at(i) == p.0 && self.ver_at(i) == p.1 {
                    assert(prev.contains_pair(p.0, p.1));
                }
            }
        }
        assert forall|x: Seq<u8>, w: u64|
            self.contains_pair(x, w) && !(x == p.0 && w == p.1) implies prev.contains_pair(
            x,
            w,
        ) && self.as_map()[(x, w)] == prev.as_map()[(x, w)] by {
            let j = choose|j: int|
                0 <= j < self.len_spec() && #[trigger] self.key_at(j) == x && self.ver_at(j) == w;
            assert(j != n);
            assert(prev.key_at(j) == x && prev.ver_at(j) == w);
            self.lemma_pair_at(j);
            prev.lemma_pair_at(j);
        }
        assert forall|x: Seq<u8>, w: u64| prev.contains_pair(x, w) implies self.contains_pair(
            x,
            w,
        ) by {
            let j = choose|j: int|
                0 <= j < prev.len_spec() && #[trigger] prev.key_at(j) == x && prev.ver_at(j) == w;
            assert(self.key_at(j) == x && self.ver_at(j) == w);
        }
        self.lemma_pair_at(n);
        assert(self.as_map() =~= prev.as_map().insert(p, value));
    }

    /// After removing slot `i`, the store is the old one without that pair.
    proof fn lemma_after_remove(self, prev: KVEngine, i: int)
        requires
            prev.wf(),
            0 <= i < prev.len_spec(),
            self.len_spec() == prev.len_spec() - 1,
            forall|j: int|
                0 <= j < i ==> #[trigger] self.key_at(j) == prev.key_at(j) && self.ver_at(j)
                    == prev.ver_at(j) && self.val_at(j) == prev.val_at(j),
            forall|j: int|
                i <= j < self.len_spec() ==> #[trigger] self.key_at(j) == prev.key_at(j + 1)
                    && self.ver_at(j) == prev.ver_at(j + 1) && self.val_at(j) == prev.val_at(j + 1),
        ensures
            self.wf(),
            self.as_map() == prev.as_map().remove((prev.key_at(i), prev.ver_at(i))),
    {
        let p = (prev.key_at(i), prev.ver_at(i));
        assert forall|a: int, b: int| 0 <= a < b < self.len_spec() implies !(
        #[trigger] self.key_at(a) == #[trigger] self.key_at(b) && self.ver_at(a) == self.ver_at(
            b,
        )) by {
            let a2: int = if a < i { a } else { a + 1 };
            let b2: int = if b < i { b } else { b + 1 };
            assert(!(prev.key_at(a2) == prev.key_at(b2) && prev.ver_at(a2) == prev.ver_at(b2)));
        }
        assert forall|x: Seq<u8>, w: u64| self.contains_pair(x, w) implies prev.contains_pair(
            x,
            w,
        ) && !(x == p.0 && w == p.1) && self.as_map()[(x, w)] == prev.as_map()[(x, w)] by {
            let j = choose|j: int|
                0 <= j < self.len_spec() && #[trigger] self.key_at(j) == x && self.ver_at(j) == w;
            let j2: int = if j < i { j } else { j + 1 };
            assert(prev.key_at(j2) == x && prev.ver_at(j2) == w);
            assert(!(x == p.0 && w == p.1)) by {
                if x == p.0 && w == p.1 {
                    assert(!(prev.key_at(i) == prev.key_at(j2) && prev.ver_at(i) == prev.ver_at(
                        j2,
                    )) || i == j2);
                }
            }
            self.lemma_pair_at(j);
            prev.lemma_pair_at(j2);
        }
        assert forall|x: Seq<u8>, w: u64|
            prev.contains_pair(x, w) && !(x == p.0 && w == p.1) implies self.contains_pair(
            x,
            w,
        ) by {
            let j = choose|j: int|
                0 <= j < prev.len_spec() && #[trigger] prev.key_at(j) == x && prev.ver_at(j) == w;
            assert(j != i);
            if j < i {
                assert(self.key_at(j) == x && self.ver_at(j) == w);
            } else {
                assert(i <= j - 1 < self.len_spec());
                assert(self.key_at(j - 1) == prev.key_at(j));
                assert(self.ver_at(j - 1) == prev.ver_at(j));
                assert(self.key_at(j - 1) == x && self.ver_at(j - 1) == w);
            }
        }
        assert(self.as_map() =~= prev.as_map().remove(p));
    }
}

/// A transaction handle: its own version and a snapshot of the versions
/// that were still active when it began.
pub struct Transaction {
    pub version: u64,
    pub active_xid: Vec<u64>,
}

impl Transaction {
    /// A version's writes are visible to this transaction exactly when the
    /// writer was no longer active at begin time and is not from the
    /// future. The transaction's own writes are visible to itself.
    pub open spec fn visible(self, ver: u64) -> bool {
        !self.active_xid@.contains(ver) && ver <= self.version
    }

    /// The handle belongs to `eng`: registered as active, below the version
    /// counter, and not in its own snapshot.
    pub open spec fn valid(self, eng: MVCC) -> bool {
        &&& eng.active_contains(self.version)
        &&& self.version < eng.next_version
        &&& !self.active_xid@.contains(self.version)
    }
}

/// Slot `i` holds the newest version of `k` in the whole store, visible or
/// not.
pub open spec fn is_latest_for_key(store: KVEngine, k: Seq<u8>, i: int) -> bool {
    &&& 0 <= i < store.len_spec()
    &&& store.key_at(i) == k
    &&& forall|j: int|
        0 <= j < store.len_spec() && #[trigger] store.key_at(j) == k ==> store.ver_at(j)
            <= store.ver_at(i)
}

/// Writing `k` is free of conflict: the newest version of `k`, if any, is
/// visible to the writer. Writing over an invisible newest version would
/// silently bury another live transaction's work.
pub open spec fn no_conflict(store: KVEngine, tx: Transaction, k: Seq<u8>) -> bool {
    forall|i: int| #[trigger] is_latest_for_key(store, k, i) ==> tx.visible(store.ver_at(i))
}

/// Slot `i` holds the newest version of `k` among those visible to `tx`.
pub open spec fn is_latest_visible(store: KVEngine, tx: Transaction, k: Seq<u8>, i: int) -> bool {
    &&& 0 <= i < store.len_spec()
    &&& store.key_at(i) == k
    &&& tx.visible(store.ver_at(i))
    &&& forall|j: int|
        0 <= j < store.len_spec() && #[trigger] store.key_at(j) == k && tx.visible(store.ver_at(j))
            ==> store.ver_at(j) <= store.ver_at(i)
}

/// What a read of `k` by `tx` answers: the value of the newest visible
/// version of `k`, or nothing when no version is visible — a deletion
/// stored as the newest visible version also reads as nothing.
pub open spec fn spec_get(store: KVEngine, tx: Transaction, k: Seq<u8>) -> Option<Seq<u8>> {
    if exists|i: int| is_latest_visible(store, tx, k, i) {
        store.val_at(choose|i: int| is_latest_visible(store, tx, k, i))
    } else {
        Option::None
    }
}

/// The multi-version engine: the shared store, the version counter, and the
/// versions of the transactions that are still active.
pub struct MVCC {
    pub kv: KVEngine,
    pub next_version: u64,
    pub active: Vec<u64>,
}

impl MVCC {
    pub open spec fn active_contains(self, ver: u64) -> bool {
        self.active@.contains(ver)
    }

    /// Well-formed: the store never repeats a pair, active versions are
    /// distinct and below the counter, and the counter is ahead of every
    /// stored version, so a fresh transaction can never collide.
    pub open spec fn wf(self) -> bool {
        &&& self.kv.wf()
        &&& self.next_version >= 1
        &&& forall|a: int, b: int|
            0 <= a < b < self.active@.len() ==> #[trigger] self.active@[a] != #[trigger] self.active@[b]
        &&& forall|a: int| 0 <= a < self.active@.len() ==> #[trigger] self.active@[a] < self.next_version
        &&& forall|i: int| 0 <= i < self.kv.len_spec() ==> #[trigger] self.kv.ver_at(i) < self.next_version
    }

    /// A fresh engine over an initial store, whose records must predate the
    /// version counter; version numbering starts at one.
    pub fn new(kv: KVEngine) -> (r: MVCC)
        requires
            kv.wf(),
            forall|i: int| 0 <= i < kv.len_spec() ==> #[trigger] kv.ver_at(i) < 1,
        ensures
            r.wf(),
            r.kv == kv,
            r.next_version == 1,
            r.active@.len() == 0,
    {
        MVCC { kv, next_version: 1, active: Vec::new() }
    }

    /// Begin a transaction on this engine.
    pub fn begin_transaction(&mut self) -> (tx: Transaction)
        requires
            old(self).wf(),
            old(self).next_version < u64::MAX,
        ensures
            final(self).wf(),
            tx.valid(*final(self)),
            tx.version == old(self).next_version,
            final(self).next_version == old(self).next_version + 1,
            final(self).kv == old(self).kv,
            tx.active_xid@ == old(self).active@,
            final(self).active@ == old(self).active@.push(tx.version),
    {
        Transaction::begin(self)
    }
}

impl Transaction {
    /// Start a transaction: take the next version, snapshot the versions
    /// that are still active, and register as active.
    pub fn begin(eng: &mut MVCC) -> (tx: Transaction)
        requires
            old(eng).wf(),
            old(eng).next_version < u64::MAX,
        ensures
            final(eng).wf(),
            tx.valid(*final(eng)),
            tx.version == old(eng).next_version,
            final(eng).next_version == old(eng).next_version + 1,
            final(eng).kv == old(eng).kv,
            tx.active_xid@ == old(eng).active@,
            final(eng).active@ == old(eng).active@.push(tx.version),
    {
        let version: u64 = eng.next_version;
        eng.next_version = eng.next_version + 1;
        let mut active_xid: Vec<u64> = Vec::new();
        let mut a: usize = 0;
        while a < eng.active.len()
            invariant
                a <= eng.active@.len(),
                active_xid@ == eng.active@.subrange(0, a as int),
            decreases eng.active@.len() - a,
        {
            active_xid.push(eng.active[a]);
            a = a + 1;
            proof {
                assert(active_xid@ =~= eng.active@.subrange(0, a as int));
            }
        }
        eng.active.push(version);
        let tx = Transaction { version, active_xid };
        proof {
            assert(tx.active_xid@ =~= old(eng).active@);
            assert(!tx.active_xid@.contains(tx.version)) by {
                if tx.active_xid@.contains(tx.version) {
                    let a2 = choose|a2: int|
                        0 <= a2 < tx.active_xid@.len() && tx.active_xid@[a2] == tx.version;
                    assert(old(eng).active@[a2] < old(eng).next_version);
                }
            }
            assert(eng.active_contains(tx.version)) by {
                assert(eng.active@[eng.active@.len() - 1] == tx.version);
            }
        }
        tx
    }

    /// Whether a version's writes are visible to this transaction.
    fn is_visible(&self, version: u64) -> (r: bool)
        ensures
            r == self.visible(version),
    {
        let mut a: usize = 0;
        while a < self.active_xid.len()
            invariant
                a <= self.active_xid@.len(),
                forall|j: int| 0 <= j < a ==> self.active_xid@[j] != version,
            decreases self.active_xid@.len() - a,
        {
            if self.active_xid[a] == version {
                return false;
            }
            a = a + 1;
        }
        proof {
            if self.active_xid@.contains(version) {
                let j = choose|j: int|
                    0 <= j < self.active_xid@.len() && self.active_xid@[j] == version;
                assert(false);
            }
        }
        version <= self.version
    }

    /// Store a new version of `key` holding `value`.
    pub fn set(&self, eng: &mut MVCC, key: &[u8], value: Vec<u8>)
        requires
            old(eng).wf(),
            self.valid(*old(eng)),
            no_conflict(old(eng).kv, *self, key@),
        ensures
            final(eng).wf(),
            self.valid(*final(eng)),
            final(eng).kv.as_map() == old(eng).kv.as_map().insert(
                (key@, self.version),
                Some(value@),
            ),
            final(eng).next_version == old(eng).next_version,
            final(eng).active@ == old(eng).active@,
    {
        self.write(eng, key, Some(value));
    }

    /// Store a deletion marker for `key`.
    pub fn delete(&self, eng: &mut MVCC, key: &[u8])
        requires
            old(eng).wf(),
            self.valid(*old(eng)),
            no_conflict(old(eng).kv, *self, key@),
        ensures
            final(eng).wf(),
            self.valid(*final(eng)),
            final(eng).kv.as_map() == old(eng).kv.as_map().insert((key@, self.version), None),
            final(eng).next_version == old(eng).next_version,
            final(eng).active@ == old(eng).active@,
    {
        self.write(eng, key, None);
    }

    /// Record `value` under `(key, self.version)`, replacing an earlier
    /// write of this same transaction to the same key.
    fn write(&self, eng: &mut MVCC, key: &[u8], value: Option<Vec<u8>>)
        requires
            old(eng).wf(),
            self.valid(*old(eng)),
            no_conflict(old(eng).kv, *self, key@),
        ensures
            final(eng).wf(),
            self.valid(*final(eng)),
            final(eng).kv.as_map() == old(eng).kv.as_map().insert(
                (key@, self.version),
                opt_vec_view(value),
            ),
            final(eng).next_version == old(eng).next_version,
            final(eng).active@ == old(eng).active@,
    {
        let ghost val_view: Option<Seq<u8>> = opt_vec_view(value);
        let mut i: usize = 0;
        loop
            invariant
                *eng == *old(eng),
                i <= eng.kv.len_spec(),
                forall|j: int|
                    0 <= j < i ==> !(#[trigger] eng.kv.key_at(j) == key@ && eng.kv.ver_at(j)
                        == self.version),
            ensures
                *eng == *old(eng),
                i <= eng.kv.len_spec(),
                forall|j: int|
                    0 <= j < i ==> !(#[trigger] eng.kv.key_at(j) == key@ && eng.kv.ver_at(j)
                        == self.version),
                i < eng.kv.len_spec() ==> eng.kv.key_at(i as int) == key@ && eng.kv.ver_at(i as int)
                    == self.version,
                i == eng.kv.len_spec() ==> !eng.kv.contains_pair(key@, self.version),
            decreases eng.kv.len_spec() - i,
        {
            if i >= eng.kv.records.len() {
                proof {
                    if eng.kv.contains_pair(key@, self.version) {
                        let j = choose|j: int|
                            0 <= j < eng.kv.len_spec() && #[trigger] eng.kv.key_at(j) == key@
                                && eng.kv.ver_at(j) == self.version;
                        assert(false);
                    }
                }
                break ;
            }
            let same_ver: bool = eng.kv.records[i].version == self.version;
            let same_key: bool = match lex_compare(eng.kv.records[i].key.as_slice(), key) {
                KeyCmp::Equal => true,
                _ => false,
            };
            if same_ver && same_key {
                break ;
            }
            proof {
                // A comparison that was not `Equal` cannot hide this key.
                crate::keydir::lemma_lex_lt_irreflexive(key@);
            }
            i = i + 1;
        }
        let ghost prev = eng.kv;
        if i < eng.kv.records.len() {
            // This transaction wrote this key before: replace its value.
            let old_rec = eng.kv.records.remove(i);
            eng.kv.records.insert(i, VersionedRecord { key: old_rec.key, version: old_rec.version, value });
            proof {
                assert(eng.kv.records@ =~= prev.records@.update(i as int, eng.kv.records@[i as int]));
                eng.kv.lemma_after_replace(prev, i as int, val_view);
                assert forall|j: int| 0 <= j < eng.kv.len_spec() implies #[trigger] eng.kv.ver_at(
                    j,
                ) < eng.next_version by {
                    assert(prev.ver_at(j) < eng.next_version);
                }
            }
        } else {
            let key_vec = codec::slice_to_vec(key);
            eng.kv.records.push(VersionedRecord { key: key_vec, version: self.version, value });
            proof {
                eng.kv.lemma_after_push(prev, val_view);
                assert forall|j: int| 0 <= j < eng.kv.len_spec() implies #[trigger] eng.kv.ver_at(
                    j,
                ) < eng.next_version by {
                    if j < prev.len_spec() {
                        assert(prev.ver_at(j) < eng.next_version);
                    }
                }
            }
        }
    }

    /// Read `key` as of this transaction's snapshot: the newest visible
    /// version decides, and a deletion marker reads as absent.
    pub fn get(&self, eng: &MVCC, key: &[u8]) -> (r: Option<Vec<u8>>)
        requires
            eng.kv.wf(),
        ensures
            match r {
                Option::Some(v) => spec_get(eng.kv, *self, key@) == Option::Some(v@),
                Option::None => spec_get(eng.kv, *self, key@) is None,
            },
    {
        let store = &eng.kv;
        let mut best: Option<usize> = None;
        let mut i: usize = 0;
        while i < store.records.len()
            invariant
                eng.kv == *store,
                store.wf(),
                i <= store.len_spec(),
                match best {
                    Option::Some(b) => {
                        &&& 0 <= b < i
                        &&& store.key_at(b as int) == key@
                        &&& self.visible(store.ver_at(b as int))
                        &&& forall|j: int|
                            0 <= j < i && #[trigger] store.key_at(j) == key@ && self.visible(
                                store.ver_at(j),
                            ) ==> store.ver_at(j) <= store.ver_at(b as int)
                    },
                    Option::None => {
                        forall|j: int|
                            0 <= j < i ==> !(#[trigger] store.key_at(j) == key@ && self.visible(
                                store.ver_at(j),
                            ))
                    },
                },
            decreases store.len_spec() - i,
        {
            let same_key: bool = match lex_compare(store.records[i].key.as_slice(), key) {
                KeyCmp::Equal => true,
                _ => false,
            };
            proof {
                // A comparison that was not `Equal` cannot hide this key.
                crate::keydir::lemma_lex_lt_irreflexive(key@);
            }
            if same_key && self.is_visible(store.records[i].version) {
                match best {
                    Option::Some(b) => {
                        if store.records[i].version > store.records[b].version {
                            best = Some(i);
                        }
                    },
                    Option::None => {
                        best = Some(i);
                    },
                }
            }
            i = i + 1;
        }
        match best {
            Option::Some(b) => {
                proof {
                    assert(is_latest_visible(*store, *self, key@, b as int));
                    let w = choose|w: int| is_latest_visible(*store, *self, key@, w);
                    assert(store.ver_at(w) == store.ver_at(b as int));
                    assert(w == b as int);
                }
                match &store.records[b].value {
                    Option::Some(v) => Some(codec::clone_bytes(v)),
                    Option::None => None,
                }
            },
            Option::None => {
                proof {
                    if exists|w: int| is_latest_visible(*store, *self, key@, w) {
                        let w = choose|w: int| is_latest_visible(*store, *self, key@, w);
                        assert(false);
                    }
                }
                None
            },
        }
    }

    /// Finish the transaction: its writes stay in the store and become
    /// visible to transactions that begin from now on.
    pub fn commit(&self, eng: &mut MVCC)
        requires
            old(eng).wf(),
        ensures
            final(eng).wf(),
            final(eng).kv == old(eng).kv,
            final(eng).next_version == old(eng).next_version,
            !final(eng).active_contains(self.version),
            forall|v: u64|
                v != self.version ==> (final(eng).active_contains(v) <==> old(
                    eng,
                ).active_contains(v)),
    {
        eng.drop_active(self.version);
        proof {
            assert forall|a: int| 0 <= a < eng.active@.len() implies #[trigger] eng.active@[a]
                < eng.next_version by {
                assert(old(eng).active@.contains(eng.active@[a]));
                let j = choose|j: int|
                    0 <= j < old(eng).active@.len() && old(eng).active@[j] == eng.active@[a];
                assert(old(eng).active@[j] < old(eng).next_version);
            }
        }
    }

    /// Abort the transaction: erase every version it wrote from the store
    /// and deregister it.
    pub fn rollback(&self, eng: &mut MVCC)
        requires
            old(eng).wf(),
        ensures
            final(eng).wf(),
            final(eng).kv.as_map() == old(eng).kv.as_map().remove_keys(
                Set::new(|p: (Seq<u8>, u64)| p.1 == self.version),
            ),
            final(eng).next_version == old(eng).next_version,
            !final(eng).active_contains(self.version),
            forall|v: u64|
                v != self.version ==> (final(eng).active_contains(v) <==> old(
                    eng,
                ).active_contains(v)),
    {
        let ghost orig = eng.kv;
        let ghost mut removed: Set<(Seq<u8>, u64)> = Set::empty();
        proof {
            assert(eng.kv.as_map() =~= orig.as_map().remove_keys(removed));
        }
        let mut i: usize = 0;
        while i < eng.kv.records.len()
            invariant
                eng.kv.wf(),
                eng.next_version == old(eng).next_version,
                eng.active@ == old(eng).active@,
                old(eng).wf(),
                orig == old(eng).kv,
                i <= eng.kv.len_spec(),
                forall|j: int| 0 <= j < i ==> #[trigger] eng.kv.ver_at(j) != self.version,
                forall|j: int| 0 <= j < eng.kv.len_spec() ==> #[trigger] eng.kv.ver_at(j)
                    < eng.next_version,
                eng.kv.as_map() == orig.as_map().remove_keys(removed),
                forall|p: (Seq<u8>, u64)| #[trigger] removed.contains(p) ==> p.1 == self.version,
            decreases eng.kv.len_spec() - i,
        {
            if eng.kv.records[i].version == self.version {
                let ghost prev = eng.kv;
                let ghost pr = (prev.key_at(i as int), prev.ver_at(i as int));
                let _ = eng.kv.records.remove(i);
                proof {
                    assert forall|j: int| 0 <= j < i implies #[trigger] eng.kv.key_at(j)
                        == prev.key_at(j) && eng.kv.ver_at(j) == prev.ver_at(j) && eng.kv.val_at(j)
                        == prev.val_at(j) by {
                        assert(eng.kv.records@[j] == prev.records@[j]);
                    }
                    assert forall|j: int| i <= j < eng.kv.len_spec() implies #[trigger] eng.kv.key_at(
                        j,
                    ) == prev.key_at(j + 1) && eng.kv.ver_at(j) == prev.ver_at(j + 1)
                        && eng.kv.val_at(j) == prev.val_at(j + 1) by {
                        assert(eng.kv.records@[j] == prev.records@[j + 1]);
                    }
                    eng.kv.lemma_after_remove(prev, i as int);
                    assert forall|j: int| 0 <= j < eng.kv.len_spec() implies #[trigger] eng.kv.ver_at(
                        j,
                    ) < eng.next_version by {
                        if j < i {
                            assert(prev.ver_at(j) < eng.next_version);
                        } else {
                            assert(prev.ver_at(j + 1) < eng.next_version);
                        }
                    }
                    assert forall|j: int| 0 <= j < i implies #[trigger] eng.kv.ver_at(j)
                        != self.version by {
                        assert(eng.kv.ver_at(j) == prev.ver_at(j));
                    }
                    let removed2 = removed.insert(pr);
                    assert(eng.kv.as_map() =~= orig.as_map().remove_keys(removed2)) by {
                        assert(eng.kv.as_map() == prev.as_map().remove(pr));
                    }
                    removed = removed2;
                }
            } else {
                i = i + 1;
            }
        }
        proof {
            assert forall|p: (Seq<u8>, u64)|
                eng.kv.as_map().dom().contains(p) implies p.1 != self.version by {
                if p.1 == self.version {
                    assert(eng.kv.contains_pair(p.0, p.1));
                    let j = choose|j: int|
                        0 <= j < eng.kv.len_spec() && #[trigger] eng.kv.key_at(j) == p.0
                            && eng.kv.ver_at(j) == p.1;
                    assert(eng.kv.ver_at(j) != self.version);
                }
            }
            assert(eng.kv.as_map() =~= orig.as_map().remove_keys(
                Set::new(|p: (Seq<u8>, u64)| p.1 == self.version),
            )) by {
                assert forall|p: (Seq<u8>, u64)|
                    orig.as_map().dom().contains(p) && p.1 != self.version
                    implies #[trigger] eng.kv.as_map().dom().contains(p) by {
                    assert(!removed.contains(p));
                }
            }
        }
        eng.drop_active(self.version);
        proof {
            assert forall|a: int| 0 <= a < eng.active@.len() implies #[trigger] eng.active@[a]
                < eng.next_version by {
                assert(old(eng).active@.contains(eng.active@[a]));
                let j = choose|j: int|
                    0 <= j < old(eng).active@.len() && old(eng).active@[j] == eng.active@[a];
                assert(old(eng).active@[j] < old(eng).next_version);
            }
        }
    }
}

impl MVCC {
    /// Remove one version from the active table.
    fn drop_active(&mut self, version: u64)
        requires
            forall|a: int, b: int|
                0 <= a < b < old(self).active@.len() ==> #[trigger] old(self).active@[a]
                    != #[trigger] old(self).active@[b],
        ensures
            final(self).kv == old(self).kv,
            final(self).next_version == old(self).next_version,
            !final(self).active_contains(version),
            forall|v: u64|
                v != version ==> (final(self).active_contains(v) <==> old(self).active_contains(
                    v,
                )),
            forall|a: int, b: int|
                0 <= a < b < final(self).active@.len() ==> #[trigger] final(self).active@[a]
                    != #[trigger] final(self).active@[b],
            forall|a: int|
                0 <= a < final(self).active@.len() ==> old(self).active@.contains(
                    #[trigger] final(self).active@[a],
                ),
    {
        let mut a: usize = 0;
        while a < self.active.len()
            invariant
                *self == *old(self),
                a <= self.active@.len(),
                forall|j: int| 0 <= j < a ==> #[trigger] self.active@[j] != version,
                forall|a1: int, b1: int|
                    0 <= a1 < b1 < old(self).active@.len() ==> #[trigger] old(self).active@[a1]
                        != #[trigger] old(self).active@[b1],
            decreases self.active@.len() - a,
        {
            if self.active[a] == version {
                let ghost prev = self.active@;
                let _ = self.active.remove(a);
                proof {
                    assert forall|v: u64|
                        v != version implies (self.active@.contains(v) <==> prev.contains(v)) by {
                        if prev.contains(v) {
                            let j = choose|j: int| 0 <= j < prev.len() && prev[j] == v;
                            if j < a {
                                assert(self.active@[j] == v);
                            } else {
                                assert(j != a);
                                assert(self.active@[j - 1] == v);
                            }
                        }
                        if self.active@.contains(v) {
                            let j = choose|j: int|
                                0 <= j < self.active@.len() && self.active@[j] == v;
                            if j < a {
                                assert(prev[j] == v);
                            } else {
                                assert(prev[j + 1] == v);
                            }
                        }
                    }
                    assert(!self.active@.contains(version)) by {
                        if self.active@.contains(version) {
                            let j = choose|j: int|
                                0 <= j < self.active@.len() && self.active@[j] == version;
                            if j < a {
                                assert(self.active@[j] != version);
                            } else {
                                assert(prev[j + 1] == version);
                                assert(prev[a as int] == version);
                            }
                        }
                    }
                    assert forall|a1: int, b1: int|
                        0 <= a1 < b1 < self.active@.len() implies #[trigger] self.active@[a1]
                        != #[trigger] self.active@[b1] by {
                        let a2: int = if a1 < a { a1 } else { a1 + 1 };
                        let b2: int = if b1 < a { b1 } else { b1 + 1 };
                        assert(prev[a2] != prev[b2]);
                    }
                    assert forall|j: int|
                        0 <= j < self.active@.len() implies prev.contains(
                        #[trigger] self.active@[j],
                    ) by {
                        if j < a {
                            assert(prev[j] == self.active@[j]);
                        } else {
                            assert(prev[j + 1] == self.active@[j]);
                        }
                    }
                }
                return ;
            }
            a = a + 1;
        }
        proof {
            assert(!self.active@.contains(version)) by {
                if self.active@.contains(version) {
                    let j = choose|j: int|
                        0 <= j < self.active@.len() && self.active@[j] == version;
                    assert(false);
                }
            }
            assert forall|j: int|
                0 <= j < self.active@.len() implies old(self).active@.contains(
                #[trigger] self.active@[j],
            ) by {
                assert(old(self).active@[j] == self.active@[j]);
            }
        }
    }
}

} // verus!
