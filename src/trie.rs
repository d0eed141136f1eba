use vstd::prelude::*;
use crate::authority::{ReadZipper, WriteZipper, ZipperHead};

verus! {

/// `a` comes strictly before `b` in byte-lexicographic order: at the first
/// index where they differ `a` has the smaller byte, or `a` is a proper
/// prefix of `b`.
pub open spec fn lex_lt(a: Seq<u8>, b: Seq<u8>) -> bool {
    exists|i: int| #[trigger] lex_witness(a, b, i)
}

pub open spec fn lex_witness(a: Seq<u8>, b: Seq<u8>, i: int) -> bool {
    &&& 0 <= i <= a.len()
    &&& i <= b.len()
    &&& forall|j: int| 0 <= j < i ==> a[j] == b[j]
    &&& ((i == a.len() && i < b.len()) || (i < a.len() && i < b.len() && a[i] < b[i]))
}

pub proof fn lemma_lex_irreflexive(a: Seq<u8>)
    ensures
        !lex_lt(a, a),
{
}

pub proof fn lemma_lex_transitive(a: Seq<u8>, b: Seq<u8>, c: Seq<u8>)
    requires
        lex_lt(a, b),
        lex_lt(b, c),
    ensures
        lex_lt(a, c),
{
    let i = choose|i: int| lex_witness(a, b, i);
    let j = choose|j: int| lex_witness(b, c, j);
    if i < j {
        assert(lex_witness(a, c, i));
    } else if j < i {
        assert(lex_witness(a, c, j));
    } else {
        assert(lex_witness(a, c, i));
    }
}

pub proof fn lemma_lex_asymmetric(a: Seq<u8>, b: Seq<u8>)
    requires
        lex_lt(a, b),
    ensures
        !lex_lt(b, a),
        a != b,
{
    if lex_lt(b, a) {
        lemma_lex_transitive(a, b, a);
    }
}

/// Compares two byte strings: negative, zero or positive as `a` comes
/// before, equals or comes after `b`.
pub fn compare_bytes(a: &[u8], b: &[u8]) -> (r: i8)
    ensures
        r < 0 <==> lex_lt(a@, b@),
        r == 0 <==> a@ == b@,
        r > 0 <==> lex_lt(b@, a@),
{
    let mut i: usize = 0;
    while i < a.len() && i < b.len()
        invariant
            i <= a@.len(),
            i <= b@.len(),
            forall|j: int| 0 <= j < i ==> a@[j] == b@[j],
        decreases a@.len() - i,
    {
        if a[i] != b[i] {
            if a[i] < b[i] {
                assert(lex_witness(a@, b@, i as int));
                proof { lemma_lex_asymmetric(a@, b@); }
                return -1;
            } else {
                assert(lex_witness(b@, a@, i as int));
                proof { lemma_lex_asymmetric(b@, a@); }
                return 1;
            }
        }
        i = i + 1;
    }
    if a.len() < b.len() {
        assert(lex_witness(a@, b@, i as int));
        proof { lemma_lex_asymmetric(a@, b@); }
        -1
    } else if b.len() < a.len() {
        assert(lex_witness(b@, a@, i as int));
        proof { lemma_lex_asymmetric(b@, a@); }
        1
    } else {
        assert(a@ =~= b@);
        proof { lemma_lex_irreflexive(a@); }
        0
    }
}

/// An ordered map from byte strings to values, kept as its keys in
/// increasing byte-lexicographic order beside their values.
pub struct BytesTrieMap<V> {
    keys: Vec<Vec<u8>>,
    vals: Vec<V>,
}

impl<V> BytesTrieMap<V> {
    pub closed spec fn key_seq(&self) -> Seq<Seq<u8>> {
        self.keys@.map_values(|k: Vec<u8>| k@)
    }

    /// The keys stand in strictly increasing order, each beside its value.
    pub closed spec fn wf(&self) -> bool {
        &&& self.keys@.len() == self.vals@.len()
        &&& forall|i: int, j: int|
            0 <= i < j < self.keys@.len() ==> lex_lt(#[trigger] self.key_seq()[i], #[trigger] self.key_seq()[j])
    }

    pub closed spec fn view(&self) -> Map<Seq<u8>, V> {
        Map::new(
            |k: Seq<u8>| self.key_seq().contains(k),
            |k: Seq<u8>| self.vals@[self.key_seq().index_of(k)],
        )
    }

    proof fn lemma_index(&self, i: int)
        requires
            self.wf(),
            0 <= i < self.keys@.len(),
        ensures
            self.view().contains_key(self.key_seq()[i]),
            self.view()[self.key_seq()[i]] == self.vals@[i],
            self.key_seq().index_of(self.key_seq()[i]) == i,
    {
        let k = self.key_seq()[i];
        assert(self.key_seq().contains(k));
        let j = self.key_seq().index_of(k);
        if j != i {
            if j < i {
                lemma_lex_asymmetric(self.key_seq()[j], self.key_seq()[i]);
            } else {
                lemma_lex_asymmetric(self.key_seq()[i], self.key_seq()[j]);
            }
        }
    }

    proof fn lemma_len(&self)
        requires
            self.wf(),
        ensures
            self.view().dom() == self.key_seq().to_set(),
            self.view().dom().len() == self.keys@.len(),
    {
        assert(self.view().dom() =~= self.key_seq().to_set());
        assert(self.key_seq().no_duplicates()) by {
            assert forall|i: int, j: int|
                0 <= i < self.key_seq().len() && 0 <= j < self.key_seq().len() && i != j implies self.key_seq()[i]
                != self.key_seq()[j] by {
                if i < j {
                    lemma_lex_asymmetric(self.key_seq()[i], self.key_seq()[j]);
                } else {
                    lemma_lex_asymmetric(self.key_seq()[j], self.key_seq()[i]);
                }
            }
        }
        self.key_seq().unique_seq_to_set();
    }

    /// An empty map.
    pub fn new() -> (r: Self)
        ensures
            r.wf(),
            r.view() == Map::<Seq<u8>, V>::empty(),
    {
        let r = BytesTrieMap { keys: Vec::new(), vals: Vec::new() };
        assert(r.view() =~= Map::<Seq<u8>, V>::empty());
        r
    }

    /// The number of keys.
    pub fn len(&self) -> (r: usize)
        requires
            self.wf(),
        ensures
            r == self.view().len(),
    {
        proof { self.lemma_len(); }
        self.keys.len()
    }

    pub fn is_empty(&self) -> (r: bool)
        requires
            self.wf(),
        ensures
            r <==> self.view().len() == 0,
    {
        proof { self.lemma_len(); }
        self.keys.len() == 0
    }

    /// Where `key` stands or would stand: the first index whose key does not
    /// come before it, and whether that key equals it.
    fn search(&self, key: &[u8]) -> (r: (usize, bool))
        requires
            self.wf(),
        ensures
            r.0 <= self.keys@.len(),
            forall|i: int| 0 <= i < r.0 ==> lex_lt(#[trigger] self.key_seq()[i], key@),
            r.1 ==> r.0 < self.keys@.len() && self.key_seq()[r.0 as int] == key@,
            !r.1 ==> forall|i: int| r.0 <= i < self.keys@.len() ==> lex_lt(key@, #[trigger] self.key_seq()[i]),
    {
        let mut i: usize = 0;
        while i < self.keys.len()
            invariant
                self.wf(),
                i <= self.keys@.len(),
                forall|j: int| 0 <= j < i ==> lex_lt(#[trigger] self.key_seq()[j], key@),
            decreases self.keys@.len() - i,
        {
            let c = compare_bytes(self.keys[i].as_slice(), key);
            assert(self.key_seq()[i as int] == self.keys@[i as int]@);
            if c == 0 {
                return (i, true);
            } else if c > 0 {
                assert forall|j: int| i <= j < self.keys@.len() implies lex_lt(key@, #[trigger] self.key_seq()[j]) by {
                    if j > i {
                        lemma_lex_transitive(key@, self.key_seq()[i as int], self.key_seq()[j]);
                    }
                }
                return (i, false);
            }
            i = i + 1;
        }
        (i, false)
    }

    /// The value at `key`, if any.
    pub fn get(&self, key: &[u8]) -> (r: Option<&V>)
        requires
            self.wf(),
        ensures
            r matches Some(v) ==> self.view().contains_key(key@) && *v == self.view()[key@],
            r is None ==> !self.view().contains_key(key@),
    {
        let (i, found) = self.search(key);
        if found {
            proof { self.lemma_index(i as int); }
            Some(&self.vals[i])
        } else {
            proof {
                if self.key_seq().contains(key@) {
                    let j = self.key_seq().index_of(key@);
                    if j < i {
                        lemma_lex_asymmetric(self.key_seq()[j], key@);
                    } else {
                        lemma_lex_irreflexive(key@);
                    }
                }
            }
            None
        }
    }

    pub fn contains_key(&self, key: &[u8]) -> (r: bool)
        requires
            self.wf(),
        ensures
            r == self.view().contains_key(key@),
    {
        self.get(key).is_some()
    }

    /// Sets the value at `key`, and returns the value it replaced.
    pub fn insert(&mut self, key: &[u8], value: V) -> (r: Option<V>)
        requires
            old(self).wf(),
        ensures
            final(self).wf(),
            final(self).view() == old(self).view().insert(key@, value),
            r matches Some(v) ==> old(self).view().contains_key(key@) && v == old(self).view()[key@],
            r is None ==> !old(self).view().contains_key(key@),
    {
        let (i, found) = self.search(key);
        proof { self.lemma_len(); }
        if found {
            proof { self.lemma_index(i as int); }
            let old_v = self.vals.remove(i);
            self.vals.insert(i, value);
            proof {
                assert(self.key_seq() == old(self).key_seq());
                assert forall|k: Seq<u8>| #[trigger] self.view().contains_key(k) == old(self).view().insert(key@, value).contains_key(k) by {}
                assert forall|k: Seq<u8>| self.view().contains_key(k) implies #[trigger] self.view()[k] == old(self).view().insert(key@, value)[k] by {
                    let j = self.key_seq().index_of(k);
                    old(self).lemma_index(j);
                }
                assert(self.view() =~= old(self).view().insert(key@, value));
            }
            Some(old_v)
        } else {
            let kv = crate::encoding::copy_range(key, 0, key.len());
            assert(kv@ =~= key@);
            self.keys.insert(i, kv);
            self.vals.insert(i, value);
            proof {
                let ks = self.key_seq();
                let oks = old(self).key_seq();
                assert(ks =~= oks.insert(i as int, key@));
                assert forall|a: int, b: int| 0 <= a < b < self.keys@.len() implies lex_lt(#[trigger] ks[a], #[trigger] ks[b]) by {
                    if b < i {
                    } else if a < i && b == i {
                    } else if a < i && b > i {
                        lemma_lex_transitive(ks[a], key@, ks[b]);
                    } else if a == i {
                    } else {
                        assert(ks[a] == oks[a - 1] && ks[b] == oks[b - 1]);
                    }
                }
                if oks.contains(key@) {
                    let j = oks.index_of(key@);
                    if j < i {
                        lemma_lex_asymmetric(oks[j], key@);
                    } else {
                        lemma_lex_irreflexive(key@);
                    }
                }
                assert forall|k: Seq<u8>| #[trigger] self.view().contains_key(k) == old(self).view().insert(key@, value).contains_key(k) by {
                    if k == key@ {
                        assert(ks[i as int] == k);
                    }
                    if oks.contains(k) {
                        let j = oks.index_of(k);
                        if j < i {
                            assert(ks[j] == k);
                        } else {
                            assert(ks[j + 1] == k);
                        }
                    }
                    if ks.contains(k) && k != key@ {
                        let j = ks.index_of(k);
                        if j < i {
                            assert(oks[j] == k);
                        } else {
                            assert(oks[j - 1] == k);
                        }
                    }
                }
                assert forall|k: Seq<u8>| self.view().contains_key(k) implies #[trigger] self.view()[k] == old(self).view().insert(key@, value)[k] by {
                    let j = ks.index_of(k);
                    self.lemma_index(j);
                    if k != key@ {
                        if j < i {
                            old(self).lemma_index(j);
                        } else {
                            old(self).lemma_index(j - 1);
                        }
                    } else {
                        self.lemma_index(i as int);
                    }
                }
                assert(self.view() =~= old(self).view().insert(key@, value));
            }
            None
        }
    }

    /// Removes `key`, and returns its value.
    pub fn remove(&mut self, key: &[u8]) -> (r: Option<V>)
        requires
            old(self).wf(),
        ensures
            final(self).wf(),
            final(self).view() == old(self).view().remove(key@),
            r matches Some(v) ==> old(self).view().contains_key(key@) && v == old(self).view()[key@],
            r is None ==> !old(self).view().contains_key(key@),
    {
        let (i, found) = self.search(key);
        if found {
            proof { self.lemma_index(i as int); }
            let _k = self.keys.remove(i);
            let v = self.vals.remove(i);
            proof {
                let ks = self.key_seq();
                let oks = old(self).key_seq();
                assert(ks =~= oks.remove(i as int));
                assert forall|a: int, b: int| 0 <= a < b < self.keys@.len() implies lex_lt(#[trigger] ks[a], #[trigger] ks[b]) by {
                    if b < i {
                    } else if a < i {
                        assert(ks[b] == oks[b + 1]);
                    } else {
                        assert(ks[a] == oks[a + 1] && ks[b] == oks[b + 1]);
                    }
                }
                assert forall|k: Seq<u8>| #[trigger] self.view().contains_key(k) == old(self).view().remove(key@).contains_key(k) by {
                    if oks.contains(k) && k != key@ {
                        let j = oks.index_of(k);
                        old(self).lemma_index(j);
                        if j < i {
                            assert(ks[j] == k);
                        } else {
                            assert(ks[j - 1] == k);
                        }
                    }
                    if ks.contains(k) {
                        let j = ks.index_of(k);
                        if j < i {
                            assert(oks[j] == k);
                            lemma_lex_asymmetric(oks[j], oks[i as int]);
                        } else {
                            assert(oks[j + 1] == k);
                            lemma_lex_asymmetric(oks[i as int], oks[j + 1]);
                        }
                    }
                }
                assert forall|k: Seq<u8>| self.view().contains_key(k) implies #[trigger] self.view()[k] == old(self).view().remove(key@)[k] by {
                    let j = ks.index_of(k);
                    self.lemma_index(j);
                    if j < i {
                        old(self).lemma_index(j);
                    } else {
                        old(self).lemma_index(j + 1);
                    }
                }
                assert(self.view() =~= old(self).view().remove(key@));
            }
            Some(v)
        } else {
            proof {
                if self.key_seq().contains(key@) {
                    let j = self.key_seq().index_of(key@);
                    if j < i {
                        lemma_lex_asymmetric(self.key_seq()[j], key@);
                    } else {
                        lemma_lex_irreflexive(key@);
                    }
                }
                assert(self.view() =~= old(self).view().remove(key@));
            }
            None
        }
    }

    /// The keys of the map, in increasing byte-lexicographic order.
    pub fn keys(&self) -> (r: Vec<Vec<u8>>)
        requires
            self.wf(),
        ensures
            forall|i: int, j: int| 0 <= i < j < r@.len() ==> lex_lt(#[trigger] r@[i]@, #[trigger] r@[j]@),
            forall|i: int| 0 <= i < r@.len() ==> self.view().contains_key(#[trigger] r@[i]@),
            forall|k: Seq<u8>| #[trigger] self.view().contains_key(k) ==> exists|i: int| 0 <= i < r@.len() && r@[i]@ == k,
            r@.len() == self.view().len(),
    {
        proof { self.lemma_len(); }
        let mut out: Vec<Vec<u8>> = Vec::new();
        let mut i: usize = 0;
        while i < self.keys.len()
            invariant
                self.wf(),
                i <= self.keys@.len(),
                out@.len() == i,
                forall|j: int| 0 <= j < i ==> #[trigger] out@[j]@ == self.key_seq()[j],
            decreases self.keys@.len() - i,
        {
            let k = crate::encoding::copy_range(self.keys[i].as_slice(), 0, self.keys[i].len());
            assert(k@ =~= self.key_seq()[i as int]);
            out.push(k);
            i = i + 1;
        }
        proof {
            assert forall|j: int| 0 <= j < out@.len() implies self.view().contains_key(#[trigger] out@[j]@) by {
                self.lemma_index(j);
            }
            assert forall|k: Seq<u8>| #[trigger] self.view().contains_key(k) implies exists|i: int| 0 <= i < out@.len() && out@[i]@ == k by {
                let j = self.key_seq().index_of(k);
                assert(out@[j]@ == k);
            }
        }
        out
    }

    /// The keys of the first `i` entries.
    closed spec fn prefix_keys(&self, i: int) -> Set<Seq<u8>> {
        self.key_seq().take(i).to_set()
    }

    proof fn lemma_prefix_keys_step(&self, i: int)
        requires
            self.wf(),
            0 <= i < self.keys@.len(),
        ensures
            self.prefix_keys(i + 1) == self.prefix_keys(i).insert(self.key_seq()[i]),
    {
        let ks = self.key_seq();
        let a = ks.take(i + 1);
        let b = ks.take(i);
        assert forall|k: Seq<u8>| a.contains(k) <==> (b.contains(k) || k == ks[i]) by {
            if a.contains(k) {
                let j = choose|j: int| 0 <= j < a.len() && a[j] == k;
                if j < i {
                    assert(b[j] == k);
                }
            }
            if b.contains(k) {
                let j = choose|j: int| 0 <= j < b.len() && b[j] == k;
                assert(a[j] == k);
            }
            if k == ks[i] {
                assert(a[i] == k);
            }
        }
        assert(self.prefix_keys(i + 1) =~= self.prefix_keys(i).insert(ks[i]));
    }

    proof fn lemma_prefix_keys_ends(&self)
        requires
            self.wf(),
        ensures
            self.prefix_keys(0) == Set::<Seq<u8>>::empty(),
            self.prefix_keys(self.keys@.len() as int) == self.view().dom(),
    {
        self.lemma_len();
        assert(self.prefix_keys(0) =~= Set::<Seq<u8>>::empty());
        assert(self.key_seq().take(self.keys@.len() as int) =~= self.key_seq());
    }
}

impl<V> BytesTrieMap<V> {
    /// The number of values; the same as `len`.
    pub fn val_count(&self) -> (r: usize)
        requires
            self.wf(),
        ensures
            r == self.view().len(),
    {
        self.len()
    }

    /// `insert` with an owned key.
    pub fn insert_owned(&mut self, key: Vec<u8>, value: V) -> (r: Option<V>)
        requires
            old(self).wf(),
        ensures
            final(self).wf(),
            final(self).view() == old(self).view().insert(key@, value),
            r matches Some(v) ==> old(self).view().contains_key(key@) && v == old(self).view()[key@],
            r is None ==> !old(self).view().contains_key(key@),
    {
        self.insert(key.as_slice(), value)
    }

    /// `get` with an owned key.
    pub fn get_owned(&self, key: &Vec<u8>) -> (r: Option<&V>)
        requires
            self.wf(),
        ensures
            r matches Some(v) ==> self.view().contains_key(key@) && *v == self.view()[key@],
            r is None ==> !self.view().contains_key(key@),
    {
        self.get(key.as_slice())
    }

    /// The entries, in increasing byte-lexicographic order of their keys.
    pub fn iter(&self) -> (r: Vec<(Vec<u8>, &V)>)
        requires
            self.wf(),
        ensures
            r@.len() == self.view().len(),
            forall|i: int, j: int| 0 <= i < j < r@.len() ==> lex_lt(#[trigger] r@[i].0@, #[trigger] r@[j].0@),
            forall|i: int| 0 <= i < r@.len() ==> self.view().contains_key(#[trigger] r@[i].0@) && *r@[i].1 == self.view()[r@[i].0@],
            forall|k: Seq<u8>| #[trigger] self.view().contains_key(k) ==> exists|i: int| 0 <= i < r@.len() && r@[i].0@ == k,
    {
        proof { self.lemma_len(); }
        let mut out: Vec<(Vec<u8>, &V)> = Vec::new();
        let mut i: usize = 0;
        while i < self.keys.len()
            invariant
                self.wf(),
                i <= self.keys@.len(),
                out@.len() == i,
                forall|j: int| 0 <= j < i ==> #[trigger] out@[j].0@ == self.key_seq()[j] && *out@[j].1 == self.vals@[j],
            decreases self.keys@.len() - i,
        {
            let k = crate::encoding::copy_range(self.keys[i].as_slice(), 0, self.keys[i].len());
            assert(k@ =~= self.key_seq()[i as int]);
            let ghost before = out@;
            out.push((k, &self.vals[i]));
            assert forall|j: int| 0 <= j < i + 1 implies #[trigger] out@[j].0@ == self.key_seq()[j] && *out@[j].1 == self.vals@[j] by {
                if j < i {
                    assert(out@[j] == before[j]);
                }
            }
            i = i + 1;
        }
        proof {
            assert forall|j: int| 0 <= j < out@.len() implies self.view().contains_key(#[trigger] out@[j].0@) && *out@[j].1 == self.view()[out@[j].0@] by {
                self.lemma_index(j);
            }
            assert forall|k: Seq<u8>| #[trigger] self.view().contains_key(k) implies exists|i: int| 0 <= i < out@.len() && out@[i].0@ == k by {
                let j = self.key_seq().index_of(k);
                assert(out@[j].0@ == k);
            }
        }
        out
    }

    /// A read cursor at the root.
    pub fn read_zipper(&self) -> (r: ReadZipper)
        ensures
            r.origin@.len() == 0,
            r.local@.len() == 0,
    {
        ReadZipper::new()
    }

    /// A write cursor at the root.
    pub fn write_zipper(&mut self) -> (r: WriteZipper)
        ensures
            r.origin@.len() == 0,
            *final(self) == *old(self),
    {
        WriteZipper::new()
    }

    /// A write cursor at `path`.
    pub fn write_zipper_at_path(&mut self, path: &[u8]) -> (r: WriteZipper)
        ensures
            r.origin@ == path@,
            *final(self) == *old(self),
    {
        let origin = crate::encoding::copy_range(path, 0, path.len());
        assert(origin@ =~= path@);
        WriteZipper { origin }
    }

    /// A registry with no live permits, to hand out cursors over this map.
    pub fn zipper_head(&self) -> (r: ZipperHead)
        ensures
            r.live().len() == 0,
    {
        ZipperHead::new()
    }
}

impl<V: Copy> BytesTrieMap<V> {
    /// The keys of either map; where both hold a key, the value of `self`.
    pub fn union(&self, other: &Self) -> (r: Self)
        requires
            self.wf(),
            other.wf(),
        ensures
            r.wf(),
            r.view() == other.view().union_prefer_right(self.view()),
    {
        let mut r = Self::new();
        let mut i: usize = 0;
        proof { self.lemma_prefix_keys_ends(); }
        while i < self.keys.len()
            invariant
                self.wf(),
                r.wf(),
                i <= self.keys@.len(),
                r.view() == self.view().restrict(self.prefix_keys(i as int)),
            decreases self.keys@.len() - i,
        {
            let v = self.vals[i];
            r.insert(self.keys[i].as_slice(), v);
            proof {
                self.lemma_index(i as int);
                self.lemma_prefix_keys_step(i as int);
                assert(r.view() =~= self.view().restrict(self.prefix_keys(i + 1)));
            }
            i = i + 1;
        }
        proof {
            self.lemma_prefix_keys_ends();
            other.lemma_prefix_keys_ends();
            assert(r.view() =~= other.view().restrict(other.prefix_keys(0).difference(self.view().dom())).union_prefer_right(self.view()));
        }
        let mut j: usize = 0;
        while j < other.keys.len()
            invariant
                self.wf(),
                other.wf(),
                r.wf(),
                j <= other.keys@.len(),
                r.view() == other.view().restrict(other.prefix_keys(j as int).difference(self.view().dom())).union_prefer_right(self.view()),
            decreases other.keys@.len() - j,
        {
            proof {
                other.lemma_index(j as int);
                other.lemma_prefix_keys_step(j as int);
            }
            if !self.contains_key(other.keys[j].as_slice()) {
                let v = other.vals[j];
                r.insert(other.keys[j].as_slice(), v);
            }
            assert(r.view() =~= other.view().restrict(other.prefix_keys(j + 1).difference(self.view().dom())).union_prefer_right(self.view()));
            j = j + 1;
        }
        proof {
            other.lemma_prefix_keys_ends();
            assert(r.view() =~= other.view().union_prefer_right(self.view()));
        }
        r
    }

    /// The keys that both maps hold, with the values of `self`.
    pub fn intersection(&self, other: &Self) -> (r: Self)
        requires
            self.wf(),
            other.wf(),
        ensures
            r.wf(),
            r.view() == self.view().restrict(other.view().dom()),
    {
        let mut r = Self::new();
        let mut i: usize = 0;
        proof {
            self.lemma_prefix_keys_ends();
            assert(r.view() =~= self.view().restrict(self.prefix_keys(0).intersect(other.view().dom())));
        }
        while i < self.keys.len()
            invariant
                self.wf(),
                other.wf(),
                r.wf(),
                i <= self.keys@.len(),
                r.view() == self.view().restrict(self.prefix_keys(i as int).intersect(other.view().dom())),
            decreases self.keys@.len() - i,
        {
            proof {
                self.lemma_index(i as int);
                self.lemma_prefix_keys_step(i as int);
            }
            if other.contains_key(self.keys[i].as_slice()) {
                let v = self.vals[i];
                r.insert(self.keys[i].as_slice(), v);
            }
            assert(r.view() =~= self.view().restrict(self.prefix_keys(i + 1).intersect(other.view().dom())));
            i = i + 1;
        }
        proof {
            self.lemma_prefix_keys_ends();
            assert(r.view() =~= self.view().restrict(other.view().dom()));
        }
        r
    }

    /// The keys of `self` that `other` does not hold, with their values.
    pub fn difference(&self, other: &Self) -> (r: Self)
        requires
            self.wf(),
            other.wf(),
        ensures
            r.wf(),
            r.view() == self.view().remove_keys(other.view().dom()),
    {
        let mut r = Self::new();
        let mut i: usize = 0;
        proof {
            self.lemma_prefix_keys_ends();
            assert(r.view() =~= self.view().restrict(self.prefix_keys(0).difference(other.view().dom())));
        }
        while i < self.keys.len()
            invariant
                self.wf(),
                other.wf(),
                r.wf(),
                i <= self.keys@.len(),
                r.view() == self.view().restrict(self.prefix_keys(i as int).difference(other.view().dom())),
            decreases self.keys@.len() - i,
        {
            proof {
                self.lemma_index(i as int);
                self.lemma_prefix_keys_step(i as int);
            }
            if !other.contains_key(self.keys[i].as_slice()) {
                let v = self.vals[i];
                r.insert(self.keys[i].as_slice(), v);
            }
            assert(r.view() =~= self.view().restrict(self.prefix_keys(i + 1).difference(other.view().dom())));
            i = i + 1;
        }
        proof {
            self.lemma_prefix_keys_ends();
            assert(r.view() =~= self.view().remove_keys(other.view().dom()));
        }
        r
    }
}

} // verus!
