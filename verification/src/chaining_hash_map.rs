//! A hash map that resolves collisions by separate chaining: an array of
//! optional buckets, each bucket an ordered sequence of entries with the most
//! recently prepended entry first. Lookups scan the key's bucket front to
//! back and return the first entry with an equal key.
//!
//! Inserting an existing key overwrites its value in place and leaves the
//! length unchanged; inserting while the length equals the capacity first
//! doubles the capacity and rehashes every stored entry into its new bucket,
//! so growth never loses an entry.

use vstd::prelude::*;

use crate::hashing::{slot_for, slot_of};

verus! {

/// A stored (key, value) pair.
pub struct Entry {
    pub key: String,
    pub value: String,
}

impl Entry {
    /// Packs a key and a value into an entry.
    pub fn new(key: String, value: String) -> (e: Entry)
        ensures
            e == (Entry { key, value }),
    {
        Entry { key, value }
    }
}

/// The entries of one bucket, front first.
pub struct Bucket {
    pub entries: Vec<Entry>,
}

/// Some entry of `s` has key `k`.
pub open spec fn bucket_has_key(s: Seq<Entry>, k: Seq<char>) -> bool {
    exists|j: int| 0 <= j < s.len() && s[j].key@ == k
}

/// The value of the first entry of `s` whose key is `k`, scanning front to
/// back; `None` if no entry has key `k`.
pub open spec fn first_match(s: Seq<Entry>, k: Seq<char>) -> Option<Seq<char>>
    decreases s.len(),
{
    if s.len() == 0 {
        None
    } else if s[0].key@ == k {
        Some(s[0].value@)
    } else {
        first_match(s.skip(1), k)
    }
}

/// A first match exists exactly when some entry has the key.
pub proof fn lemma_first_match_has_key(s: Seq<Entry>, k: Seq<char>)
    ensures
        (first_match(s, k) is Some) <==> bucket_has_key(s, k),
    decreases s.len(),
{
    if s.len() == 0 {
    } else if s[0].key@ == k {
    } else {
        lemma_first_match_has_key(s.skip(1), k);
        if bucket_has_key(s.skip(1), k) {
            let j = choose|j: int| 0 <= j < s.skip(1).len() && s.skip(1)[j].key@ == k;
            assert(s[j + 1].key@ == k);
        }
        if bucket_has_key(s, k) {
            let j = choose|j: int| 0 <= j < s.len() && s[j].key@ == k;
            assert(s.skip(1)[j - 1].key@ == k);
        }
    }
}

/// The first match carries the key and value of some entry of `s`.
pub proof fn lemma_first_match_witness(s: Seq<Entry>, k: Seq<char>)
    requires
        first_match(s, k) is Some,
    ensures
        exists|j: int|
            0 <= j < s.len() && s[j].key@ == k && first_match(s, k) == Some(s[j].value@),
    decreases s.len(),
{
    if s[0].key@ == k {
        assert(s[0].key@ == k && first_match(s, k) == Some(s[0].value@));
    } else {
        lemma_first_match_witness(s.skip(1), k);
        let j = choose|j: int|
            0 <= j < s.skip(1).len() && s.skip(1)[j].key@ == k && first_match(s.skip(1), k)
                == Some(s.skip(1)[j].value@);
        assert(s[j + 1].key@ == k && first_match(s, k) == Some(s[j + 1].value@));
    }
}

/// If `j` is the first position holding key `k`, the first match is its value.
pub proof fn lemma_first_match_at(s: Seq<Entry>, k: Seq<char>, j: int)
    requires
        0 <= j < s.len(),
        s[j].key@ == k,
        forall|j2: int| 0 <= j2 < j ==> s[j2].key@ != k,
    ensures
        first_match(s, k) == Some(s[j].value@),
    decreases s.len(),
{
    if j == 0 {
    } else {
        assert(forall|j2: int| 0 <= j2 < j - 1 ==> s.skip(1)[j2] == s[j2 + 1]);
        lemma_first_match_at(s.skip(1), k, j - 1);
    }
}

/// Replacing an entry whose key is not `k` by another entry whose key is not
/// `k` leaves the first match for `k` unchanged.
pub proof fn lemma_first_match_update_other(s: Seq<Entry>, j: int, e: Entry, k: Seq<char>)
    requires
        0 <= j < s.len(),
        s[j].key@ != k,
        e.key@ != k,
    ensures
        first_match(s.update(j, e), k) == first_match(s, k),
    decreases s.len(),
{
    let s2 = s.update(j, e);
    if j == 0 {
        assert(s2.skip(1) =~= s.skip(1));
    } else {
        assert(s2[0] == s[0]);
        assert(s2.skip(1) =~= s.skip(1).update(j - 1, e));
        lemma_first_match_update_other(s.skip(1), j - 1, e, k);
    }
}

impl Bucket {
    /// An empty bucket.
    pub fn new() -> (b: Bucket)
        ensures
            b.entries@ == Seq::<Entry>::empty(),
    {
        Bucket { entries: Vec::new() }
    }

    /// Prepends a new entry, in front of any existing entries.
    pub fn push_front(&mut self, key: String, value: String)
        ensures
            final(self).entries@ == old(self).entries@.insert(0, (Entry { key, value })),
    {
        self.entries.insert(0, Entry::new(key, value));
    }

    /// Returns the value of the first entry with an equal key, front to back.
    pub fn get(&self, key: &String) -> (r: Option<String>)
        ensures
            match r {
                Some(v) => first_match(self.entries@, key@) == Some(v@),
                None => first_match(self.entries@, key@) is None,
            },
    {
        let mut i: usize = 0;
        proof {
            assert(self.entries@.skip(0) =~= self.entries@);
        }
        while i < self.entries.len()
            invariant
                0 <= i <= self.entries@.len(),
                first_match(self.entries@, key@) == first_match(
                    self.entries@.skip(i as int),
                    key@,
                ),
            decreases self.entries@.len() - i,
        {
            proof {
                assert(self.entries@.skip(i as int)[0] == self.entries@[i as int]);
                assert(self.entries@.skip(i as int).skip(1) =~= self.entries@.skip(i + 1));
            }
            let e = &self.entries[i];
            if e.key == *key {
                return Some(e.value.clone());
            }
            i = i + 1;
        }
        proof {
            assert(self.entries@.skip(self.entries@.len() as int) =~= Seq::<Entry>::empty());
        }
        None
    }

    /// Overwrites the first entry holding `key` in place, or, if no entry
    /// holds `key`, prepends a new entry. Returns whether an entry was added.
    pub fn put(&mut self, key: String, value: String) -> (added: bool)
        ensures
            added == !bucket_has_key(old(self).entries@, key@),
            added ==> final(self).entries@ == old(self).entries@.insert(
                0,
                (Entry { key, value }),
            ),
            !added ==> exists|j: int|
                0 <= j < old(self).entries@.len() && old(self).entries@[j].key@ == key@ && (forall|
                    j2: int,
                |
                    0 <= j2 < j ==> old(self).entries@[j2].key@ != key@) && final(self).entries@
                    == old(self).entries@.update(j, (Entry { key, value })),
    {
        let mut i: usize = 0;
        while i < self.entries.len()
            invariant
                0 <= i <= self.entries@.len(),
                self == old(self),
                forall|j2: int| 0 <= j2 < i ==> self.entries@[j2].key@ != key@,
            decreases self.entries@.len() - i,
        {
            if self.entries[i].key == key {
                let ghost j = i as int;
                self.entries[i] = Entry::new(key, value);
                proof {
                    assert(old(self).entries@[j].key@ == key@);
                }
                return false;
            }
            i = i + 1;
        }
        self.push_front(key, value);
        true
    }
}

/// The entries held by an optional bucket; an absent bucket holds none.
pub open spec fn bucket_entries(ob: Option<Bucket>) -> Seq<Entry> {
    match ob {
        Some(b) => b.entries@,
        None => Seq::empty(),
    }
}

/// `(b, j)` is a valid entry position in the table `bs`.
pub open spec fn pos_ok(bs: Seq<Option<Bucket>>, b: int, j: int) -> bool {
    0 <= b < bs.len() && 0 <= j < bucket_entries(bs[b]).len()
}

/// The key stored at position `(b, j)`.
pub open spec fn key_at(bs: Seq<Option<Bucket>>, b: int, j: int) -> Seq<char> {
    bucket_entries(bs[b])[j].key@
}

/// The value stored at position `(b, j)`.
pub open spec fn value_at(bs: Seq<Option<Bucket>>, b: int, j: int) -> Seq<char> {
    bucket_entries(bs[b])[j].value@
}

/// Position `(b, j)` holds an entry with key `k`.
pub open spec fn pos_has(bs: Seq<Option<Bucket>>, b: int, j: int, k: Seq<char>) -> bool {
    pos_ok(bs, b, j) && key_at(bs, b, j) == k
}

/// Every entry sits in the bucket its key hashes to under the current
/// capacity.
pub open spec fn well_placed(bs: Seq<Option<Bucket>>) -> bool {
    forall|b: int, j: int|
        pos_ok(bs, b, j) ==> slot_of(#[trigger] key_at(bs, b, j), bs.len() as int) == b
}

/// No two distinct positions hold the same key.
pub open spec fn distinct_keys(bs: Seq<Option<Bucket>>) -> bool {
    forall|b1: int, j1: int, b2: int, j2: int|
        pos_ok(bs, b1, j1) && pos_ok(bs, b2, j2) && #[trigger] key_at(bs, b1, j1)
            == #[trigger] key_at(bs, b2, j2) ==> b1 == b2 && j1 == j2
}

/// The number of entries stored over all buckets.
pub open spec fn total_entries(bs: Seq<Option<Bucket>>) -> int
    decreases bs.len(),
{
    if bs.len() == 0 {
        0
    } else {
        total_entries(bs.drop_last()) + bucket_entries(bs.last()).len()
    }
}

/// The entry count is never negative.
pub proof fn lemma_total_nonneg(bs: Seq<Option<Bucket>>)
    ensures
        total_entries(bs) >= 0,
    decreases bs.len(),
{
    if bs.len() > 0 {
        lemma_total_nonneg(bs.drop_last());
    }
}

/// A table whose buckets are all empty holds no entries.
pub proof fn lemma_total_empty(bs: Seq<Option<Bucket>>)
    requires
        forall|b: int| 0 <= b < bs.len() ==> bucket_entries(#[trigger] bs[b]).len() == 0,
    ensures
        total_entries(bs) == 0,
    decreases bs.len(),
{
    if bs.len() > 0 {
        lemma_total_empty(bs.drop_last());
    }
}

/// Replacing one bucket changes the entry count by the difference of the two
/// bucket sizes.
pub proof fn lemma_total_update(bs: Seq<Option<Bucket>>, i: int, ob: Option<Bucket>)
    requires
        0 <= i < bs.len(),
    ensures
        total_entries(bs.update(i, ob)) == total_entries(bs) - bucket_entries(bs[i]).len()
            + bucket_entries(ob).len(),
    decreases bs.len(),
{
    let bs2 = bs.update(i, ob);
    if i == bs.len() - 1 {
        assert(bs2.drop_last() =~= bs.drop_last());
    } else {
        assert(bs2.drop_last() =~= bs.drop_last().update(i, ob));
        assert(bs2.last() == bs.last());
        lemma_total_update(bs.drop_last(), i, ob);
    }
}

/// One step of the entry count over a growing prefix.
pub proof fn lemma_total_take_step(bs: Seq<Option<Bucket>>, i: int)
    requires
        0 <= i < bs.len(),
    ensures
        total_entries(bs.take(i + 1)) == total_entries(bs.take(i)) + bucket_entries(bs[i]).len(),
{
    assert(bs.take(i + 1).drop_last() =~= bs.take(i));
    assert(bs.take(i + 1).last() == bs[i]);
}

/// The abstract contents of the table: each key maps to the value that a
/// front-to-back scan of its bucket finds first.
pub open spec fn table_view(bs: Seq<Option<Bucket>>) -> Map<Seq<char>, Seq<char>>
    recommends
        bs.len() >= 1,
{
    Map::new(
        |k: Seq<char>| first_match(bucket_entries(bs[slot_of(k, bs.len() as int)]), k) is Some,
        |k: Seq<char>|
            match first_match(bucket_entries(bs[slot_of(k, bs.len() as int)]), k) {
                Some(v) => v,
                None => Seq::empty(),
            },
    )
}

/// In a well-placed table with distinct keys, the entry at any position is
/// what the view maps its key to.
pub proof fn lemma_pos_view(bs: Seq<Option<Bucket>>, b: int, j: int)
    requires
        bs.len() >= 1,
        well_placed(bs),
        distinct_keys(bs),
        pos_ok(bs, b, j),
    ensures
        table_view(bs).contains_key(key_at(bs, b, j)),
        table_view(bs)[key_at(bs, b, j)] == value_at(bs, b, j),
{
    let k = key_at(bs, b, j);
    let s = bucket_entries(bs[b]);
    assert(slot_of(k, bs.len() as int) == b);
    assert(bucket_has_key(s, k));
    lemma_first_match_has_key(s, k);
    lemma_first_match_witness(s, k);
    let j2 = choose|j2: int|
        0 <= j2 < s.len() && s[j2].key@ == k && first_match(s, k) == Some(s[j2].value@);
    assert(key_at(bs, b, j2) == key_at(bs, b, j));
    assert(j2 == j);
}

/// Every key of the view is held at some position of the table.
pub proof fn lemma_view_pos(bs: Seq<Option<Bucket>>, k: Seq<char>)
    requires
        bs.len() >= 1,
        table_view(bs).contains_key(k),
    ensures
        exists|b: int, j: int| pos_has(bs, b, j, k),
{
    let b = slot_of(k, bs.len() as int);
    let s = bucket_entries(bs[b]);
    lemma_first_match_has_key(s, k);
    let j = choose|j: int| 0 <= j < s.len() && s[j].key@ == k;
    assert(pos_has(bs, b, j, k));
}

/// The default number of buckets of a freshly created map.
pub const INIT_CAPACITY: usize = 2;

/// A hash map backed by an array of optional buckets, one per slot.
pub struct HashMap {
    buckets: Vec<Option<Bucket>>,
    len: usize,
}

impl View for HashMap {
    type V = Map<Seq<char>, Seq<char>>;

    closed spec fn view(&self) -> Map<Seq<char>, Seq<char>> {
        table_view(self.buckets@)
    }
}

impl HashMap {
    /// The number of buckets currently allocated.
    pub closed spec fn spec_cap(&self) -> int {
        self.buckets@.len() as int
    }

    /// The number of entries currently stored.
    pub closed spec fn spec_len(&self) -> int {
        self.len as int
    }

    /// The map's internal invariant: at least one bucket, every entry in the
    /// bucket its key hashes to, no key stored twice, and the length equal to
    /// the entry count and bounded by the capacity.
    pub closed spec fn wf(&self) -> bool {
        &&& self.buckets@.len() >= 1
        &&& well_placed(self.buckets@)
        &&& distinct_keys(self.buckets@)
        &&& self.len as int == total_entries(self.buckets@)
        &&& self.len as int <= self.buckets@.len() as int
    }

    /// An empty map with `cap` buckets.
    pub fn with_capacity(cap: usize) -> (m: HashMap)
        requires
            cap >= 1,
        ensures
            m.wf(),
            m@ == Map::<Seq<char>, Seq<char>>::empty(),
            m.spec_cap() == cap as int,
            m.spec_len() == 0,
    {
        let mut buckets: Vec<Option<Bucket>> = Vec::new();
        let mut i: usize = 0;
        while i < cap
            invariant
                buckets@.len() == i as int,
                i <= cap,
                forall|b: int| 0 <= b < i ==> buckets@[b] is None,
            decreases cap - i,
        {
            buckets.push(None);
            i = i + 1;
        }
        let m = HashMap { buckets, len: 0 };
        proof {
            assert(forall|b: int|
                0 <= b < m.buckets@.len() ==> bucket_entries(#[trigger] m.buckets@[b]).len() == 0);
            lemma_total_empty(m.buckets@);
            assert forall|k2: Seq<char>| !table_view(m.buckets@).contains_key(k2) by {
                let b = slot_of(k2, m.buckets@.len() as int);
                assert(bucket_entries(m.buckets@[b]) =~= Seq::<Entry>::empty());
            }
            assert(table_view(m.buckets@) =~= Map::<Seq<char>, Seq<char>>::empty());
        }
        m
    }

    /// An empty map with the default capacity.
    pub fn new() -> (m: HashMap)
        ensures
            m.wf(),
            m@ == Map::<Seq<char>, Seq<char>>::empty(),
            m.spec_cap() == 2,
            m.spec_len() == 0,
    {
        Self::with_capacity(INIT_CAPACITY)
    }

    /// The number of buckets currently allocated.
    pub fn capacity(&self) -> (r: usize)
        ensures
            r as int == self.spec_cap(),
    {
        self.buckets.len()
    }

    /// The number of entries currently stored.
    pub fn len(&self) -> (r: usize)
        ensures
            r as int == self.spec_len(),
    {
        self.len
    }

    /// The bucket index of `key` under the current capacity.
    pub fn hash(&self, key: &str) -> (r: usize)
        requires
            self.wf(),
        ensures
            r as int == slot_of(key@, self.spec_cap()),
            (r as int) < self.spec_cap(),
    {
        slot_for(key, self.buckets.len())
    }

    /// Returns a copy of the value stored under `key`, or `None` if no entry
    /// holds `key`.
    pub fn get(&self, key: &str) -> (r: Option<String>)
        requires
            self.wf(),
        ensures
            match r {
                Some(v) => self@.contains_key(key@) && v@ == self@[key@],
                None => !self@.contains_key(key@),
            },
    {
        let idx = slot_for(key, self.buckets.len());
        match self.buckets[idx].as_ref() {
            None => {
                proof {
                    assert(bucket_entries(self.buckets@[idx as int]) =~= Seq::<Entry>::empty());
                }
                None
            },
            Some(bucket) => {
                let k = key.to_owned();
                bucket.get(&k)
            },
        }
    }

    /// Stores `value` under `key` without growing: overwrites in place when
    /// the key is present, otherwise prepends a new entry to its bucket.
    fn insert_no_grow(&mut self, key: String, value: String)
        requires
            old(self).wf(),
            old(self).spec_len() < old(self).spec_cap(),
        ensures
            final(self).wf(),
            final(self)@ == old(self)@.insert(key@, value@),
            final(self).spec_cap() == old(self).spec_cap(),
            old(self)@.contains_key(key@) ==> final(self).spec_len() == old(self).spec_len(),
            !old(self)@.contains_key(key@) ==> final(self).spec_len() == old(self).spec_len()
                + 1,
    {
        let ghost bs0 = self.buckets@;
        let ghost k = key@;
        let ghost v = value@;
        let ghost cap = self.buckets@.len() as int;
        let idx = slot_for(key.as_str(), self.buckets.len());
        let slot = self.buckets.remove(idx);
        let mut bucket = match slot {
            Some(b) => b,
            None => Bucket::new(),
        };
        let ghost s0 = bucket.entries@;
        proof {
            assert(s0 =~= bucket_entries(bs0[idx as int]));
        }
        let added = bucket.put(key, value);
        let ghost s1 = bucket.entries@;
        self.buckets.insert(idx, Some(bucket));
        if added {
            self.len = self.len + 1;
        }
        proof {
            let bs1 = self.buckets@;
            assert(bs1 =~= bs0.update(idx as int, Some(Bucket { entries: bucket.entries })));
            assert(bucket_entries(bs1[idx as int]) == s1);
            assert(forall|b: int| 0 <= b < cap && b != idx ==> bs1[b] == bs0[b]);
            lemma_first_match_has_key(s0, k);
            assert(table_view(bs0).contains_key(k) == (first_match(s0, k) is Some));
            lemma_total_update(bs0, idx as int, Some(Bucket { entries: bucket.entries }));
            if added {
                // The new entry stands at the front; every old entry moved
                // back by one position within this bucket.
                assert(s1 == s0.insert(0, (Entry { key, value })));
                assert(s1[0].key@ == k && s1[0].value@ == v);
                assert(forall|j: int| 1 <= j < s1.len() ==> s1[j] == s0[j - 1]);
                // The key is nowhere in the old table: not in its own bucket,
                // and any other bucket would be ill-placed.
                assert forall|b: int, j: int| pos_ok(bs0, b, j) implies key_at(bs0, b, j) != k by {
                    if key_at(bs0, b, j) == k {
                        assert(slot_of(key_at(bs0, b, j), cap) == b);
                        assert(b == idx);
                        assert(bucket_has_key(s0, k));
                    }
                }
                assert(!table_view(bs0).contains_key(k));
                assert forall|b: int, j: int| pos_ok(bs1, b, j) implies slot_of(
                    #[trigger] key_at(bs1, b, j),
                    cap,
                ) == b by {
                    if b == idx {
                        if j == 0 {
                            assert(key_at(bs1, b, j) == k);
                        } else {
                            assert(key_at(bs1, b, j) == key_at(bs0, idx as int, j - 1));
                        }
                    } else {
                        assert(key_at(bs1, b, j) == key_at(bs0, b, j));
                    }
                }
                assert forall|b1: int, j1: int, b2: int, j2: int|
                    pos_ok(bs1, b1, j1) && pos_ok(bs1, b2, j2) && #[trigger] key_at(bs1, b1, j1)
                        == #[trigger] key_at(bs1, b2, j2) implies b1 == b2 && j1 == j2 by {
                    if b1 == idx && j1 == 0 {
                        if !(b2 == idx && j2 == 0) {
                            if b2 == idx {
                                assert(key_at(bs1, b2, j2) == key_at(bs0, idx as int, j2 - 1));
                            } else {
                                assert(key_at(bs1, b2, j2) == key_at(bs0, b2, j2));
                            }
                            assert(false);
                        }
                    } else if b2 == idx && j2 == 0 {
                        if b1 == idx {
                            assert(key_at(bs1, b1, j1) == key_at(bs0, idx as int, j1 - 1));
                        } else {
                            assert(key_at(bs1, b1, j1) == key_at(bs0, b1, j1));
                        }
                        assert(false);
                    } else {
                        let jj1 = if b1 == idx { j1 - 1 } else { j1 };
                        let jj2 = if b2 == idx { j2 - 1 } else { j2 };
                        assert(key_at(bs1, b1, j1) == key_at(bs0, b1, jj1));
                        assert(key_at(bs1, b2, j2) == key_at(bs0, b2, jj2));
                    }
                }
            } else {
                let j0 = choose|j0: int|
                    0 <= j0 < s0.len() && s0[j0].key@ == k && (forall|j2: int|
                        0 <= j2 < j0 ==> s0[j2].key@ != k) && s1 == s0.update(
                        j0,
                        (Entry { key, value }),
                    );
                lemma_first_match_at(s0, k, j0);
                assert(table_view(bs0).contains_key(k));
                // Only the value at (idx, j0) changed; every key is as before.
                assert forall|b: int, j: int| pos_ok(bs1, b, j) implies pos_ok(bs0, b, j)
                    && #[trigger] key_at(bs1, b, j) == key_at(bs0, b, j) by {
                    if b == idx && j == j0 {
                        assert(s1[j0].key@ == k);
                    }
                }
                assert forall|b: int, j: int| pos_ok(bs0, b, j) implies pos_ok(bs1, b, j) by {}
                assert(s1.len() == s0.len());
                assert(self.len as int == total_entries(bs1));
            }
            // The view after the change is the old view with `k` bound to `v`.
            assert forall|k2: Seq<char>| #[trigger] table_view(bs1).contains_key(k2)
                == table_view(bs0).insert(k, v).contains_key(k2) && (table_view(
                bs1,
            ).contains_key(k2) ==> table_view(bs1)[k2] == table_view(bs0).insert(k, v)[k2]) by {
                let b2 = slot_of(k2, cap);
                if k2 == k {
                    if added {
                        assert(first_match(s1, k) == Some(v));
                    } else {
                        let j0 = choose|j0: int|
                            0 <= j0 < s0.len() && s0[j0].key@ == k && (forall|j2: int|
                                0 <= j2 < j0 ==> s0[j2].key@ != k) && s1 == s0.update(
                                j0,
                                (Entry { key, value }),
                            );
                        assert(s1[j0].key@ == k && s1[j0].value@ == v);
                        assert(forall|j2: int| 0 <= j2 < j0 ==> s1[j2] == s0[j2]);
                        lemma_first_match_at(s1, k, j0);
                    }
                    assert(first_match(bucket_entries(bs1[b2]), k2) == Some(v));
                } else {
                    if b2 == idx {
                        if added {
                            assert(s1[0].key@ != k2);
                            assert(s1.skip(1) =~= s0);
                            assert(first_match(s1, k2) == first_match(s0, k2));
                        } else {
                            let j0 = choose|j0: int|
                                0 <= j0 < s0.len() && s0[j0].key@ == k && (forall|j2: int|
                                    0 <= j2 < j0 ==> s0[j2].key@ != k) && s1 == s0.update(
                                    j0,
                                    (Entry { key, value }),
                                );
                            lemma_first_match_update_other(
                                s0,
                                j0,
                                (Entry { key, value }),
                                k2,
                            );
                        }
                    } else {
                        assert(bucket_entries(bs1[b2]) == bucket_entries(bs0[b2]));
                    }
                }
            }
            assert(table_view(bs1) =~= table_view(bs0).insert(k, v));
        }
    }

    /// Doubles the number of buckets and rehashes every stored entry into
    /// the bucket its key selects under the new capacity, so that the
    /// contents are exactly preserved.
    pub fn resize(&mut self)
        requires
            old(self).wf(),
            2 * old(self).spec_cap() <= usize::MAX as int,
        ensures
            final(self).wf(),
            final(self)@ == old(self)@,
            final(self).spec_cap() == 2 * old(self).spec_cap(),
            final(self).spec_len() == old(self).spec_len(),
    {
        let ghost bs0 = self.buckets@;
        let ghost m0 = table_view(bs0);
        let ghost n0 = bs0.len() as int;
        let new_cap = self.buckets.len() * 2;
        let mut fresh = Self::with_capacity(new_cap);
        let mut old_buckets: Vec<Option<Bucket>> = Vec::new();
        core::mem::swap(&mut old_buckets, &mut self.buckets);
        proof {
            assert(old_buckets@ =~= bs0.take(old_buckets@.len() as int));
        }
        while old_buckets.len() > 0
            invariant
                old(self).wf(),
                bs0 == old(self).buckets@,
                m0 == table_view(bs0),
                n0 == bs0.len() as int,
                fresh.wf(),
                fresh.spec_cap() == 2 * n0,
                old_buckets@.len() <= n0,
                old_buckets@ == bs0.take(old_buckets@.len() as int),
                fresh.spec_len() + total_entries(bs0.take(old_buckets@.len() as int))
                    == total_entries(bs0),
                forall|k2: Seq<char>| #[trigger] fresh@.contains_key(k2) ==> exists|b: int, j: int|
                    pos_has(bs0, b, j, k2) && b >= old_buckets@.len(),
                forall|k2: Seq<char>| #[trigger] fresh@.contains_key(k2) ==> m0.contains_key(k2)
                    && fresh@[k2] == m0[k2],
                forall|b: int, j: int|
                    pos_ok(bs0, b, j) && b >= old_buckets@.len() ==> fresh@.contains_key(
                        #[trigger] key_at(bs0, b, j),
                    ),
            decreases old_buckets@.len(),
        {
            let ghost n_pre = old_buckets@.len() as int;
            let ob = old_buckets.pop().unwrap();
            let ghost bn = old_buckets@.len() as int;
            proof {
                assert(bs0.take(n_pre).last() == bs0[bn]);
                assert(bs0.take(n_pre).drop_last() =~= bs0.take(bn));
                lemma_total_take_step(bs0, bn);
            }
            match ob {
                None => {
                    proof {
                        assert(bucket_entries(bs0[bn]).len() == 0);
                    }
                },
                Some(bk) => {
                    let mut entries = bk.entries;
                    proof {
                        assert(entries@ =~= bucket_entries(bs0[bn]).take(entries@.len() as int));
                    }
                    while entries.len() > 0
                        invariant
                            old(self).wf(),
                            bs0 == old(self).buckets@,
                            m0 == table_view(bs0),
                            n0 == bs0.len() as int,
                            0 <= bn < n0,
                            fresh.wf(),
                            fresh.spec_cap() == 2 * n0,
                            entries@.len() <= bucket_entries(bs0[bn]).len(),
                            entries@ == bucket_entries(bs0[bn]).take(entries@.len() as int),
                            fresh.spec_len() + total_entries(bs0.take(bn)) + entries@.len()
                                == total_entries(bs0),
                            forall|k2: Seq<char>| #[trigger] fresh@.contains_key(k2) ==> exists|
                                b: int,
                                j: int,
                            |
                                pos_has(bs0, b, j, k2) && (b > bn || (b == bn && j
                                    >= entries@.len())),
                            forall|k2: Seq<char>| #[trigger] fresh@.contains_key(k2)
                                ==> m0.contains_key(k2) && fresh@[k2] == m0[k2],
                            forall|b: int, j: int|
                                pos_ok(bs0, b, j) && (b > bn || (b == bn && j >= entries@.len()))
                                    ==> fresh@.contains_key(#[trigger] key_at(bs0, b, j)),
                        decreases entries@.len(),
                    {
                        let ghost el = entries@.len() as int;
                        let e = entries.pop().unwrap();
                        proof {
                            assert(bucket_entries(bs0[bn]).take(el).last() == bucket_entries(
                                bs0[bn],
                            )[el - 1]);
                            assert(entries@ =~= bucket_entries(bs0[bn]).take(el - 1));
                            assert(pos_ok(bs0, bn, el - 1));
                            assert(key_at(bs0, bn, el - 1) == e.key@);
                            assert(value_at(bs0, bn, el - 1) == e.value@);
                            // The key about to move is not in the new table
                            // yet: its only position is the unprocessed one.
                            if fresh@.contains_key(e.key@) {
                                let (b, j) = choose|b: int, j: int|
                                    pos_has(bs0, b, j, e.key@) && (b > bn || (b == bn && j >= el));
                                assert(key_at(bs0, b, j) == key_at(bs0, bn, el - 1));
                                assert(false);
                            }
                            // Room for one more entry in the new table.
                            lemma_total_nonneg(bs0.take(bn));
                            lemma_pos_view(bs0, bn, el - 1);
                        }
                        let ghost pre = fresh@;
                        fresh.insert_no_grow(e.key, e.value);
                        proof {
                            assert(fresh@ == pre.insert(
                                key_at(bs0, bn, el - 1),
                                value_at(bs0, bn, el - 1),
                            ));
                            assert forall|k2: Seq<char>| #[trigger] fresh@.contains_key(k2)
                                implies exists|b: int, j: int|
                                pos_has(bs0, b, j, k2) && (b > bn || (b == bn && j >= el - 1)) by {
                                if k2 == key_at(bs0, bn, el - 1) {
                                    assert(pos_has(bs0, bn, el - 1, k2) && (bn == bn && el - 1 >= el
                                        - 1));
                                } else {
                                    assert(pre.contains_key(k2));
                                    let (b, j) = choose|b: int, j: int|
                                        pos_has(bs0, b, j, k2) && (b > bn || (b == bn && j >= el));
                                    assert(pos_has(bs0, b, j, k2) && (b > bn || (b == bn && j >= el
                                        - 1)));
                                }
                            }
                            assert forall|b: int, j: int|
                                pos_ok(bs0, b, j) && (b > bn || (b == bn && j >= el - 1))
                                implies fresh@.contains_key(#[trigger] key_at(bs0, b, j)) by {
                                if b == bn && j == el - 1 {
                                } else {
                                    assert(pre.contains_key(key_at(bs0, b, j)));
                                }
                            }
                        }
                    }
                    proof {
                        assert(entries@.len() == 0);
                    }
                },
            }
        }
        proof {
            assert(bs0.take(0) =~= Seq::<Option<Bucket>>::empty());
            assert(total_entries(bs0.take(0)) == 0);
            assert(fresh.spec_len() == total_entries(bs0));
            assert forall|k2: Seq<char>| #[trigger] m0.contains_key(k2)
                implies fresh@.contains_key(k2) by {
                lemma_view_pos(bs0, k2);
                let (b, j) = choose|b: int, j: int| pos_has(bs0, b, j, k2);
                assert(fresh@.contains_key(key_at(bs0, b, j)));
            }
            assert(fresh@ =~= m0);
        }
        self.buckets = fresh.buckets;
        self.len = fresh.len;
    }

    /// Stores `value` under `key`. When the length has reached the capacity,
    /// the map first doubles its capacity, rehashing every entry; then the
    /// key's bucket is updated in place if the key is present, and otherwise
    /// receives the new entry at its front.
    pub fn insert(&mut self, key: &str, value: &str)
        requires
            old(self).wf(),
            old(self).spec_len() == old(self).spec_cap() ==> 2 * old(self).spec_cap()
                <= usize::MAX as int,
        ensures
            final(self).wf(),
            final(self)@ == old(self)@.insert(key@, value@),
            final(self).spec_cap() == if old(self).spec_len() == old(self).spec_cap() {
                2 * old(self).spec_cap()
            } else {
                old(self).spec_cap()
            },
            old(self)@.contains_key(key@) ==> final(self).spec_len() == old(self).spec_len(),
            !old(self)@.contains_key(key@) ==> final(self).spec_len() == old(self).spec_len()
                + 1,
    {
        if self.len == self.buckets.len() {
            self.resize();
        }
        self.insert_no_grow(key.to_owned(), value.to_owned());
    }

    /// Whether an entry holds `key`: true exactly when `get` finds a value.
    pub fn contains_key(&self, key: &str) -> (r: bool)
        requires
            self.wf(),
        ensures
            r == self@.contains_key(key@),
    {
        self.get(key).is_some()
    }
}

} // verus!
