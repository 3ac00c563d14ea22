//! The in-memory index ("keydir"): an ordered map from raw key bytes to the
//! offset and length of the key's most recent value in the log.
//!
//! Keys are kept in a vector in strictly ascending lexicographic byte order,
//! which gives point lookup, overwrite, removal and ordered range iteration.
//! The index holds no durable state of its own; the engine rebuilds it from
//! the log on every open.

use vstd::prelude::*;

verus! {

/// Where a live value sits in the log: `len` bytes starting at `offset`.
#[derive(Clone, Copy, Debug, PartialEq, Eq, Structural)]
pub struct ValueLoc {
    pub offset: u64,
    pub len: u32,
}

/// One index slot: a key and the location of its latest value.
pub struct KeyEntry {
    pub key: Vec<u8>,
    pub loc: ValueLoc,
}

/// Strict lexicographic order on byte strings: a proper prefix comes first,
/// otherwise the first differing byte decides.
pub open spec fn lex_lt(a: Seq<u8>, b: Seq<u8>) -> bool
    decreases a.len(),
{
    if b.len() == 0 {
        false
    } else if a.len() == 0 {
        true
    } else if a[0] < b[0] {
        true
    } else if a[0] > b[0] {
        false
    } else {
        lex_lt(a.skip(1), b.skip(1))
    }
}

pub proof fn lemma_lex_lt_irreflexive(a: Seq<u8>)
    ensures
        !lex_lt(a, a),
    decreases a.len(),
{
    if a.len() > 0 {
        lemma_lex_lt_irreflexive(a.skip(1));
    }
}

pub proof fn lemma_lex_lt_asymmetric(a: Seq<u8>, b: Seq<u8>)
    ensures
        !(lex_lt(a, b) && lex_lt(b, a)),
    decreases a.len(),
{
    if a.len() > 0 && b.len() > 0 && a[0] == b[0] {
        lemma_lex_lt_asymmetric(a.skip(1), b.skip(1));
    }
}

/// Two distinct byte strings are always ordered one way or the other.
pub proof fn lemma_lex_lt_connected(a: Seq<u8>, b: Seq<u8>)
    ensures
        a != b ==> lex_lt(a, b) || lex_lt(b, a),
    decreases a.len(),
{
    if a.len() == 0 && b.len() == 0 {
        assert(a =~= b);
    }
    if a.len() > 0 && b.len() > 0 && a[0] == b[0] {
        lemma_lex_lt_connected(a.skip(1), b.skip(1));
        if a.skip(1) == b.skip(1) {
            assert forall|j: int| 0 <= j < a.len() implies a[j] == b[j] by {
                if j > 0 {
                    assert(a[j] == a.skip(1)[j - 1]);
                    assert(b[j] == b.skip(1)[j - 1]);
                }
            }
            assert(a =~= b);
        }
    }
}

pub proof fn lemma_lex_lt_transitive(a: Seq<u8>, b: Seq<u8>, c: Seq<u8>)
    ensures
        lex_lt(a, b) && lex_lt(b, c) ==> lex_lt(a, c),
    decreases a.len(),
{
    if lex_lt(a, b) && lex_lt(b, c) {
        if a.len() == 0 {
        } else {
            // b and c are nonempty, and the head bytes are ordered weakly.
            if a[0] == b[0] && b[0] == c[0] {
                lemma_lex_lt_transitive(a.skip(1), b.skip(1), c.skip(1));
            }
        }
    }
}

/// Outcome of an executable byte-string comparison.
pub enum KeyCmp {
    Less,
    Equal,
    Greater,
}

/// If two byte strings agree up to `i` and then `a` either ends or has the
/// smaller byte, then `a` is lexicographically smaller.
proof fn lemma_lex_lt_from_diff(a: Seq<u8>, b: Seq<u8>, i: int)
    requires
        0 <= i <= a.len(),
        i <= b.len(),
        forall|j: int| 0 <= j < i ==> a[j] == b[j],
        (i < a.len() && i < b.len() && a[i] < b[i]) || (i == a.len() && i < b.len()),
    ensures
        lex_lt(a, b),
    decreases i,
{
    if i == 0 {
    } else {
        assert(a[0] == b[0]);
        lemma_lex_lt_from_diff(a.skip(1), b.skip(1), i - 1);
    }
}

/// Compare two byte strings; the result names exactly the lexicographic
/// relation of their contents.
pub fn lex_compare(a: &[u8], b: &[u8]) -> (o: KeyCmp)
    ensures
        match o {
            KeyCmp::Less => lex_lt(a@, b@),
            KeyCmp::Equal => a@ == b@,
            KeyCmp::Greater => lex_lt(b@, a@),
        },
{
    let mut i: usize = 0;
    while i < a.len() && i < b.len()
        invariant
            i <= a@.len(),
            i <= b@.len(),
            forall|j: int| 0 <= j < i ==> a@[j] == b@[j],
        decreases a@.len() - i,
    {
        if a[i] < b[i] {
            proof {
                lemma_lex_lt_from_diff(a@, b@, i as int);
            }
            return KeyCmp::Less;
        }
        if a[i] > b[i] {
            proof {
                lemma_lex_lt_from_diff(b@, a@, i as int);
            }
            return KeyCmp::Greater;
        }
        i = i + 1;
    }
    if a.len() < b.len() {
        proof {
            lemma_lex_lt_from_diff(a@, b@, a@.len() as int);
        }
        KeyCmp::Less
    } else if b.len() < a.len() {
        proof {
            lemma_lex_lt_from_diff(b@, a@, b@.len() as int);
        }
        KeyCmp::Greater
    } else {
        proof {
            assert(a@ =~= b@);
        }
        KeyCmp::Equal
    }
}

/// The ordered index. `entries` is kept in strictly ascending key order.
pub struct KeyDir {
    pub entries: Vec<KeyEntry>,
}

impl KeyDir {
    /// The key stored at slot `i`.
    pub open spec fn key_at(self, i: int) -> Seq<u8> {
        self.entries@[i].key@
    }

    /// The value location stored at slot `i`.
    pub open spec fn loc_at(self, i: int) -> ValueLoc {
        self.entries@[i].loc
    }

    pub open spec fn len_spec(self) -> int {
        self.entries@.len() as int
    }

    /// Well-formed: keys strictly ascending, hence unique.
    pub open spec fn wf(self) -> bool {
        forall|i: int, j: int|
            0 <= i < j < self.len_spec() ==> #[trigger] lex_lt(self.key_at(i), self.key_at(j))
    }

    pub open spec fn contains_key(self, k: Seq<u8>) -> bool {
        exists|i: int| 0 <= i < self.len_spec() && self.key_at(i) == k
    }

    pub open spec fn index_of(self, k: Seq<u8>) -> int {
        choose|i: int| 0 <= i < self.len_spec() && self.key_at(i) == k
    }

    pub open spec fn loc_of(self, k: Seq<u8>) -> ValueLoc {
        self.loc_at(self.index_of(k))
    }

    /// The index as a mathematical map from key bytes to value locations.
    pub open spec fn as_map(self) -> Map<Seq<u8>, ValueLoc> {
        Map::new(|k: Seq<u8>| self.contains_key(k), |k: Seq<u8>| self.loc_of(k))
    }

    /// In a well-formed index distinct slots hold distinct keys.
    pub proof fn lemma_keys_distinct(self)
        requires
            self.wf(),
        ensures
            forall|i: int, j: int|
                0 <= i < self.len_spec() && 0 <= j < self.len_spec() && i != j ==> self.key_at(i)
                    != self.key_at(j),
    {
        assert forall|i: int, j: int|
            0 <= i < self.len_spec() && 0 <= j < self.len_spec() && i != j implies self.key_at(i)
            != self.key_at(j) by {
            if i < j {
                assert(lex_lt(self.key_at(i), self.key_at(j)));
                lemma_lex_lt_irreflexive(self.key_at(i));
            } else {
                assert(lex_lt(self.key_at(j), self.key_at(i)));
                lemma_lex_lt_irreflexive(self.key_at(i));
            }
        }
    }

    /// The key at slot `i` is in the map, and maps to that slot's location.
    pub proof fn lemma_at(self, i: int)
        requires
            self.wf(),
            0 <= i < self.len_spec(),
        ensures
            self.contains_key(self.key_at(i)),
            self.index_of(self.key_at(i)) == i,
            self.as_map().dom().contains(self.key_at(i)),
            self.as_map()[self.key_at(i)] == self.loc_at(i),
    {
        self.lemma_keys_distinct();
        assert(self.contains_key(self.key_at(i)));
        let j = self.index_of(self.key_at(i));
        assert(0 <= j < self.len_spec() && self.key_at(j) == self.key_at(i));
    }

    pub fn new() -> (r: KeyDir)
        ensures
            r.wf(),
            r.as_map() == Map::<Seq<u8>, ValueLoc>::empty(),
            r.len_spec() == 0,
    {
        let r = KeyDir { entries: Vec::new() };
        proof {
            assert(r.as_map() =~= Map::<Seq<u8>, ValueLoc>::empty());
        }
        r
    }

    pub fn len(&self) -> (n: usize)
        ensures
            n == self.len_spec(),
    {
        self.entries.len()
    }

    /// Point lookup.
    pub fn get(&self, key: &[u8]) -> (r: Option<ValueLoc>)
        requires
            self.wf(),
        ensures
            match r {
                Some(loc) => self.as_map().dom().contains(key@) && loc == self.as_map()[key@],
                None => !self.as_map().dom().contains(key@),
            },
    {
        let mut i: usize = 0;
        while i < self.entries.len()
            invariant
                self.wf(),
                i <= self.len_spec(),
                forall|j: int| 0 <= j < i ==> self.key_at(j) != key@,
            decreases self.len_spec() - i,
        {
            match lex_compare(self.entries[i].key.as_slice(), key) {
                KeyCmp::Equal => {
                    proof {
                        self.lemma_at(i as int);
                    }
                    return Some(self.entries[i].loc);
                },
                _ => {
                    proof {
                        // An ordered pair of keys cannot be the same key.
                        lemma_lex_lt_irreflexive(key@);
                    }
                },
            }
            i = i + 1;
        }
        None
    }

    /// Insert `key -> loc`, overwriting any prior entry for `key`.
    pub fn insert(&mut self, key: Vec<u8>, loc: ValueLoc)
        requires
            old(self).wf(),
        ensures
            final(self).wf(),
            final(self).as_map() == old(self).as_map().insert(key@, loc),
    {
        let ghost old_self = *old(self);
        let mut i: usize = 0;
        loop
            invariant
                *self == old_self,
                self.wf(),
                i <= self.len_spec(),
                forall|j: int| 0 <= j < i ==> lex_lt(self.key_at(j), key@),
            ensures
                *self == old_self,
                i <= self.len_spec(),
                forall|j: int| 0 <= j < i ==> lex_lt(self.key_at(j), key@),
                i < self.len_spec() ==> !lex_lt(self.key_at(i as int), key@),
                i == self.len_spec() || self.key_at(i as int) == key@ || lex_lt(
                    key@,
                    self.key_at(i as int),
                ),
            decreases self.len_spec() - i,
        {
            if i >= self.entries.len() {
                break ;
            }
            match lex_compare(self.entries[i].key.as_slice(), key.as_slice()) {
                KeyCmp::Less => {
                    i = i + 1;
                },
                KeyCmp::Equal => {
                    proof {
                        lemma_lex_lt_irreflexive(key@);
                    }
                    break ;
                },
                KeyCmp::Greater => {
                    proof {
                        lemma_lex_lt_asymmetric(self.key_at(i as int), key@);
                    }
                    break ;
                },
            }
        }
        if i < self.entries.len() {
            match lex_compare(self.entries[i].key.as_slice(), key.as_slice()) {
                KeyCmp::Equal => {
                    // Overwrite in place; the key sequence is unchanged.
                    let _ = self.entries.remove(i);
                    self.entries.insert(i, KeyEntry { key, loc });
                    proof {
                        self.lemma_after_overwrite(old_self, i as int, loc);
                    }
                    return ;
                },
                _ => {},
            }
        }
        self.entries.insert(i, KeyEntry { key, loc });
        proof {
            self.lemma_after_insert(old_self, i as int, loc);
        }
    }

    /// After replacing the location at slot `i` (same key), the index is the
    /// old one with that key remapped.
    proof fn lemma_after_overwrite(self, prev: KeyDir, i: int, loc: ValueLoc)
        requires
            prev.wf(),
            0 <= i < prev.len_spec(),
            self.len_spec() == prev.len_spec(),
            self.loc_at(i) == loc,
            forall|j: int| 0 <= j < self.len_spec() ==> self.key_at(j) == prev.key_at(j),
            forall|j: int| 0 <= j < self.len_spec() && j != i ==> self.loc_at(j) == prev.loc_at(j),
        ensures
            self.wf(),
            self.as_map() == prev.as_map().insert(self.key_at(i), loc),
    {
        assert forall|p: int, q: int| 0 <= p < q < self.len_spec() implies #[trigger] lex_lt(
            self.key_at(p),
            self.key_at(q),
        ) by {
            assert(lex_lt(prev.key_at(p), prev.key_at(q)));
        }
        let k = self.key_at(i);
        assert forall|x: Seq<u8>| self.contains_key(x) implies prev.contains_key(x) || x == k by {
            let j = choose|j: int| 0 <= j < self.len_spec() && self.key_at(j) == x;
            assert(prev.key_at(j) == x);
        }
        assert forall|x: Seq<u8>| prev.contains_key(x) implies self.contains_key(x) by {
            let j = choose|j: int| 0 <= j < prev.len_spec() && prev.key_at(j) == x;
            assert(self.key_at(j) == x);
        }
        assert forall|x: Seq<u8>| self.contains_key(x) && x != k implies self.loc_of(x)
            == prev.loc_of(x) by {
            let j = choose|j: int| 0 <= j < self.len_spec() && self.key_at(j) == x;
            self.lemma_at(j);
            prev.lemma_at(j);
        }
        self.lemma_at(i);
        assert(self.as_map() =~= prev.as_map().insert(k, loc));
    }

    /// After inserting a fresh entry at slot `i`, the index is the old one
    /// with that key added.
    proof fn lemma_after_insert(self, prev: KeyDir, i: int, loc: ValueLoc)
        requires
            prev.wf(),
            0 <= i <= prev.len_spec(),
            self.len_spec() == prev.len_spec() + 1,
            forall|j: int| 0 <= j < i ==> self.key_at(j) == prev.key_at(j),
            forall|j: int| 0 <= j < i ==> self.loc_at(j) == prev.loc_at(j),
            forall|j: int| i < j < self.len_spec() ==> self.key_at(j) == prev.key_at(j - 1),
            forall|j: int| i < j < self.len_spec() ==> self.loc_at(j) == prev.loc_at(j - 1),
            self.loc_at(i) == loc,
            forall|j: int| 0 <= j < i ==> lex_lt(prev.key_at(j), self.key_at(i)),
            i < prev.len_spec() ==> lex_lt(self.key_at(i), prev.key_at(i)),
        ensures
            self.wf(),
            self.as_map() == prev.as_map().insert(self.key_at(i), loc),
    {
        let k = self.key_at(i);
        assert forall|p: int, q: int| 0 <= p < q < self.len_spec() implies #[trigger] lex_lt(
            self.key_at(p),
            self.key_at(q),
        ) by {
            if p < i && q < i {
                assert(lex_lt(prev.key_at(p), prev.key_at(q)));
            } else if p < i && q == i {
                assert(lex_lt(prev.key_at(p), k));
            } else if p < i && q > i {
                // p < i <= q - 1, so both slots carry keys of `prev`.
                assert(lex_lt(prev.key_at(p), prev.key_at(q - 1)));
            } else if p == i {
                // q > i
                assert(lex_lt(k, prev.key_at(i)));
                if q - 1 == i {
                } else {
                    assert(lex_lt(prev.key_at(i), prev.key_at(q - 1)));
                    lemma_lex_lt_transitive(k, prev.key_at(i), prev.key_at(q - 1));
                }
            } else {
                // i < p < q
                assert(lex_lt(prev.key_at(p - 1), prev.key_at(q - 1)));
            }
        }
        assert forall|x: Seq<u8>| self.contains_key(x) implies prev.contains_key(x) || x == k by {
            let j = choose|j: int| 0 <= j < self.len_spec() && self.key_at(j) == x;
            if j < i {
                assert(prev.key_at(j) == x);
            } else if j > i {
                assert(prev.key_at(j - 1) == x);
            }
        }
        assert forall|x: Seq<u8>| prev.contains_key(x) implies self.contains_key(x) by {
            let j = choose|j: int| 0 <= j < prev.len_spec() && prev.key_at(j) == x;
            if j < i {
                assert(self.key_at(j) == x);
            } else {
                assert(self.key_at(j + 1) == x);
            }
        }
        assert forall|x: Seq<u8>| self.contains_key(x) && x != k implies self.loc_of(x)
            == prev.loc_of(x) by {
            let j = choose|j: int| 0 <= j < self.len_spec() && self.key_at(j) == x;
            self.lemma_at(j);
            if j < i {
                prev.lemma_at(j);
            } else {
                prev.lemma_at(j - 1);
            }
        }
        self.lemma_at(i);
        assert(self.as_map() =~= prev.as_map().insert(k, loc));
    }

    /// Remove `key` if present.
    pub fn remove(&mut self, key: &[u8])
        requires
            old(self).wf(),
        ensures
            final(self).wf(),
            final(self).as_map() == old(self).as_map().remove(key@),
    {
        let mut i: usize = 0;
        while i < self.entries.len()
            invariant
                *self == *old(self),
                self.wf(),
                i <= self.len_spec(),
                forall|j: int| 0 <= j < i ==> self.key_at(j) != key@,
            decreases self.len_spec() - i,
        {
            match lex_compare(self.entries[i].key.as_slice(), key) {
                KeyCmp::Equal => {
                    let _ = self.entries.remove(i);
                    proof {
                        self.lemma_after_remove(*old(self), i as int, key@);
                    }
                    return ;
                },
                _ => {
                    proof {
                        // An ordered pair of keys cannot be the same key.
                        lemma_lex_lt_irreflexive(key@);
                    }
                },
            }
            i = i + 1;
        }
        proof {
            assert(!old(self).contains_key(key@));
            assert(self.as_map() =~= old(self).as_map().remove(key@));
        }
    }

    /// After removing slot `i`, the index is the old one without that key.
    proof fn lemma_after_remove(self, prev: KeyDir, i: int, k: Seq<u8>)
        requires
            prev.wf(),
            0 <= i < prev.len_spec(),
            prev.key_at(i) == k,
            self.len_spec() == prev.len_spec() - 1,
            forall|j: int| 0 <= j < i ==> self.key_at(j) == prev.key_at(j),
            forall|j: int| 0 <= j < i ==> self.loc_at(j) == prev.loc_at(j),
            forall|j: int| i <= j < self.len_spec() ==> self.key_at(j) == prev.key_at(j + 1),
            forall|j: int| i <= j < self.len_spec() ==> self.loc_at(j) == prev.loc_at(j + 1),
        ensures
            self.wf(),
            self.as_map() == prev.as_map().remove(k),
    {
        prev.lemma_keys_distinct();
        assert forall|p: int, q: int| 0 <= p < q < self.len_spec() implies #[trigger] lex_lt(
            self.key_at(p),
            self.key_at(q),
        ) by {
            if q < i {
                assert(lex_lt(prev.key_at(p), prev.key_at(q)));
            } else if p < i {
                assert(lex_lt(prev.key_at(p), prev.key_at(q + 1)));
            } else {
                assert(lex_lt(prev.key_at(p + 1), prev.key_at(q + 1)));
            }
        }
        assert forall|x: Seq<u8>| self.contains_key(x) implies prev.contains_key(x) && x != k by {
            let j = choose|j: int| 0 <= j < self.len_spec() && self.key_at(j) == x;
            if j < i {
                assert(prev.key_at(j) == x);
            } else {
                assert(prev.key_at(j + 1) == x);
            }
        }
        assert forall|x: Seq<u8>| prev.contains_key(x) && x != k implies self.contains_key(x) by {
            let j = choose|j: int| 0 <= j < prev.len_spec() && prev.key_at(j) == x;
            if j < i {
                assert(self.key_at(j) == x);
            } else {
                assert(j != i);
                assert(self.key_at(j - 1) == x);
            }
        }
        assert forall|x: Seq<u8>| self.contains_key(x) implies self.loc_of(x) == prev.loc_of(
            x,
        ) by {
            let j = choose|j: int| 0 <= j < self.len_spec() && self.key_at(j) == x;
            self.lemma_at(j);
            if j < i {
                prev.lemma_at(j);
            } else {
                prev.lemma_at(j + 1);
            }
        }
        assert(self.as_map() =~= prev.as_map().remove(k));
    }
}

/// A range endpoint for ordered scans.
pub enum ScanBound {
    Unbounded,
    Included(Vec<u8>),
    Excluded(Vec<u8>),
}

/// `k` lies on or above the lower bound `lo`.
pub open spec fn above_lower(lo: ScanBound, k: Seq<u8>) -> bool {
    match lo {
        ScanBound::Unbounded => true,
        ScanBound::Included(b) => !lex_lt(k, b@),
        ScanBound::Excluded(b) => lex_lt(b@, k),
    }
}

/// `k` lies on or below the upper bound `hi`.
pub open spec fn below_upper(hi: ScanBound, k: Seq<u8>) -> bool {
    match hi {
        ScanBound::Unbounded => true,
        ScanBound::Included(b) => !lex_lt(b@, k),
        ScanBound::Excluded(b) => lex_lt(k, b@),
    }
}

/// `k` lies within the bound pair.
pub open spec fn in_range(lo: ScanBound, hi: ScanBound, k: Seq<u8>) -> bool {
    above_lower(lo, k) && below_upper(hi, k)
}

/// Decide `above_lower` for concrete bytes.
pub fn key_above_lower(lo: &ScanBound, k: &[u8]) -> (r: bool)
    ensures
        r == above_lower(*lo, k@),
{
    match lo {
        ScanBound::Unbounded => true,
        ScanBound::Included(b) => match lex_compare(k, b.as_slice()) {
            KeyCmp::Less => false,
            KeyCmp::Equal => {
                proof {
                    lemma_lex_lt_irreflexive(k@);
                }
                true
            },
            KeyCmp::Greater => {
                proof {
                    lemma_lex_lt_asymmetric(k@, b@);
                }
                true
            },
        },
        ScanBound::Excluded(b) => match lex_compare(b.as_slice(), k) {
            KeyCmp::Less => true,
            KeyCmp::Equal => {
                proof {
                    lemma_lex_lt_irreflexive(k@);
                }
                false
            },
            KeyCmp::Greater => {
                proof {
                    lemma_lex_lt_asymmetric(b@, k@);
                }
                false
            },
        },
    }
}

/// Decide `below_upper` for concrete bytes.
pub fn key_below_upper(hi: &ScanBound, k: &[u8]) -> (r: bool)
    ensures
        r == below_upper(*hi, k@),
{
    match hi {
        ScanBound::Unbounded => true,
        ScanBound::Included(b) => match lex_compare(b.as_slice(), k) {
            KeyCmp::Less => false,
            KeyCmp::Equal => {
                proof {
                    lemma_lex_lt_irreflexive(k@);
                }
                true
            },
            KeyCmp::Greater => {
                proof {
                    lemma_lex_lt_asymmetric(b@, k@);
                }
                true
            },
        },
        ScanBound::Excluded(b) => match lex_compare(k, b.as_slice()) {
            KeyCmp::Less => true,
            KeyCmp::Equal => {
                proof {
                    lemma_lex_lt_irreflexive(k@);
                }
                false
            },
            KeyCmp::Greater => {
                proof {
                    lemma_lex_lt_asymmetric(k@, b@);
                }
                false
            },
        },
    }
}

impl KeyDir {
    /// Ordered range iteration: the slots whose keys fall within the bounds,
    /// in ascending key order, exactly one per live key in range.
    pub fn range(&self, lo: &ScanBound, hi: &ScanBound) -> (r: Vec<KeyEntry>)
        requires
            self.wf(),
        ensures
            forall|p: int, q: int|
                0 <= p < q < r@.len() ==> #[trigger] lex_lt(r@[p].key@, r@[q].key@),
            forall|p: int|
                0 <= p < r@.len() ==> in_range(*lo, *hi, #[trigger] r@[p].key@)
                    && self.as_map().dom().contains(r@[p].key@) && self.as_map()[r@[p].key@]
                    == r@[p].loc,
            forall|k: Seq<u8>|
                self.as_map().dom().contains(k) && in_range(*lo, *hi, k) ==> exists|p: int|
                    0 <= p < r@.len() && #[trigger] r@[p].key@ == k,
    {
        let mut r: Vec<KeyEntry> = Vec::new();
        // `slots` records, for each element of `r`, which index slot it came
        // from; the slots are strictly increasing.
        let ghost mut slots: Seq<int> = Seq::empty();
        let mut i: usize = 0;
        while i < self.entries.len()
            invariant
                self.wf(),
                i <= self.len_spec(),
                slots.len() == r@.len(),
                forall|p: int| 0 <= p < slots.len() ==> 0 <= #[trigger] slots[p] < i,
                forall|p: int|
                    0 <= p < slots.len() ==> self.key_at(#[trigger] slots[p]) == r@[p].key@
                        && self.loc_at(slots[p]) == r@[p].loc,
                forall|p: int| 0 <= p < r@.len() ==> in_range(*lo, *hi, #[trigger] r@[p].key@),
                forall|p: int, q: int| 0 <= p < q < slots.len() ==> #[trigger] slots[p] < #[trigger] slots[q],
                forall|j: int|
                    0 <= j < i && in_range(*lo, *hi, #[trigger] self.key_at(j)) ==> exists|p: int|
                        0 <= p < slots.len() && slots[p] == j,
            decreases self.len_spec() - i,
        {
            let keep_lo = key_above_lower(lo, self.entries[i].key.as_slice());
            let keep_hi = key_below_upper(hi, self.entries[i].key.as_slice());
            if keep_lo && keep_hi {
                let ghost prev_slots = slots;
                r.push(
                    KeyEntry {
                        key: crate::codec::clone_bytes(&self.entries[i].key),
                        loc: self.entries[i].loc,
                    },
                );
                proof {
                    slots = slots.push(i as int);
                    assert forall|j: int|
                        0 <= j < i + 1 && in_range(
                            *lo,
                            *hi,
                            #[trigger] self.key_at(j),
                        ) implies exists|p: int| 0 <= p < slots.len() && slots[p] == j by {
                        if j < i {
                            let p = choose|p: int| 0 <= p < prev_slots.len() && prev_slots[p] == j;
                            assert(slots[p] == j);
                        } else {
                            assert(slots[slots.len() - 1] == j);
                        }
                    }
                }
            } else {
                proof {
                    assert(!in_range(*lo, *hi, self.key_at(i as int)));
                }
            }
            i = i + 1;
        }
        proof {
            assert forall|p: int, q: int| 0 <= p < q < r@.len() implies #[trigger] lex_lt(
                r@[p].key@,
                r@[q].key@,
            ) by {
                assert(lex_lt(self.key_at(slots[p]), self.key_at(slots[q])));
            }
            assert forall|p: int|
                0 <= p < r@.len() implies in_range(*lo, *hi, #[trigger] r@[p].key@)
                && self.as_map().dom().contains(r@[p].key@) && self.as_map()[r@[p].key@]
                == r@[p].loc by {
                self.lemma_at(slots[p]);
            }
            assert forall|k: Seq<u8>|
                self.as_map().dom().contains(k) && in_range(*lo, *hi, k) implies exists|p: int|
                0 <= p < r@.len() && #[trigger] r@[p].key@ == k by {
                let j = choose|j: int| 0 <= j < self.len_spec() && self.key_at(j) == k;
                assert(in_range(*lo, *hi, self.key_at(j)));
                let p = choose|p: int| 0 <= p < slots.len() && slots[p] == j;
                assert(r@[p].key@ == k);
            }
        }
        r
    }
}

} // verus!
