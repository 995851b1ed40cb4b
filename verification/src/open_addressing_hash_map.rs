//! A hash map that resolves collisions by open addressing with linear
//! probing: a flat array of optional entries. An insertion probes forward
//! from the key's slot, wrapping at the end of the array, until it finds an
//! empty slot or a slot holding an equal key; a lookup probes the same way
//! and stops at the first empty slot, or after one full pass.
//!
//! Inserting an existing key overwrites its slot and leaves the length
//! unchanged; inserting while the length equals the capacity first doubles
//! the capacity and rehashes every stored entry, so growth never loses an
//! entry and probing always terminates.

use vstd::prelude::*;

use crate::hashing::{slot_for, slot_of};

verus! {

/// A stored (key, value) pair.
pub struct Entry {
    pub key: String,
    pub value: String,
}

impl Entry {
    /// Packs a key and a value into an entry.
    pub fn new(key: String, value: String) -> (e: Entry)
        ensures
            e == (Entry { key, value }),
    {
        Entry { key, value }
    }
}

/// Slot `i` of the table holds an entry.
pub open spec fn occupied(es: Seq<Option<Entry>>, i: int) -> bool {
    0 <= i < es.len() && es[i] is Some
}

/// The key stored in slot `i`.
pub open spec fn key_at(es: Seq<Option<Entry>>, i: int) -> Seq<char> {
    match es[i] {
        Some(e) => e.key@,
        None => Seq::empty(),
    }
}

/// The value stored in slot `i`.
pub open spec fn value_at(es: Seq<Option<Entry>>, i: int) -> Seq<char> {
    match es[i] {
        Some(e) => e.value@,
        None => Seq::empty(),
    }
}

/// The slot reached after `d` probe steps from slot `h`, wrapping once at
/// the end of a table of `cap` slots.
pub open spec fn probe_slot(h: int, d: int, cap: int) -> int {
    if h + d < cap {
        h + d
    } else {
        h + d - cap
    }
}

/// The number of probe steps from slot `h` forward to slot `i`.
pub open spec fn dist(h: int, i: int, cap: int) -> int {
    if i >= h {
        i - h
    } else {
        i + cap - h
    }
}

/// The slot the key in slot `i` hashes to.
pub open spec fn home_of(es: Seq<Option<Entry>>, i: int) -> int {
    slot_of(key_at(es, i), es.len() as int)
}

/// Every stored entry is reachable from its home slot: all slots on the
/// probe path from an entry's home to its position are occupied.
pub open spec fn well_probed(es: Seq<Option<Entry>>) -> bool {
    forall|i: int, d: int|
        occupied(es, i) && 0 <= d < dist(home_of(es, i), i, es.len() as int) ==> occupied(
            es,
            #[trigger] probe_slot(home_of(es, i), d, es.len() as int),
        )
}

/// No two distinct slots hold the same key.
pub open spec fn distinct_keys(es: Seq<Option<Entry>>) -> bool {
    forall|i1: int, i2: int|
        occupied(es, i1) && occupied(es, i2) && #[trigger] key_at(es, i1) == #[trigger] key_at(
            es,
            i2,
        ) ==> i1 == i2
}

/// Some slot holds an entry with key `k`.
pub open spec fn table_has_key(es: Seq<Option<Entry>>, k: Seq<char>) -> bool {
    exists|i: int| occupied(es, i) && key_at(es, i) == k
}

/// The number of occupied slots.
pub open spec fn occupied_count(es: Seq<Option<Entry>>) -> int
    decreases es.len(),
{
    if es.len() == 0 {
        0
    } else {
        occupied_count(es.drop_last()) + if es.last() is Some {
            1int
        } else {
            0int
        }
    }
}

/// The occupied count is never negative.
pub proof fn lemma_count_nonneg(es: Seq<Option<Entry>>)
    ensures
        occupied_count(es) >= 0,
    decreases es.len(),
{
    if es.len() > 0 {
        lemma_count_nonneg(es.drop_last());
    }
}

/// A table of empty slots has no occupied slot.
pub proof fn lemma_count_empty(es: Seq<Option<Entry>>)
    requires
        forall|i: int| 0 <= i < es.len() ==> !(#[trigger] es[i] is Some),
    ensures
        occupied_count(es) == 0,
    decreases es.len(),
{
    if es.len() > 0 {
        lemma_count_empty(es.drop_last());
    }
}

/// A table whose slots are all occupied has as many entries as slots.
pub proof fn lemma_count_full(es: Seq<Option<Entry>>)
    requires
        forall|i: int| 0 <= i < es.len() ==> #[trigger] es[i] is Some,
    ensures
        occupied_count(es) == es.len(),
    decreases es.len(),
{
    if es.len() > 0 {
        lemma_count_full(es.drop_last());
    }
}

/// Replacing one slot changes the occupied count by the difference in
/// occupancy.
pub proof fn lemma_count_update(es: Seq<Option<Entry>>, i: int, oe: Option<Entry>)
    requires
        0 <= i < es.len(),
    ensures
        occupied_count(es.update(i, oe)) == occupied_count(es) - (if es[i] is Some {
            1int
        } else {
            0int
        }) + (if oe is Some {
            1int
        } else {
            0int
        }),
    decreases es.len(),
{
    let es2 = es.update(i, oe);
    if i == es.len() - 1 {
        assert(es2.drop_last() =~= es.drop_last());
    } else {
        assert(es2.drop_last() =~= es.drop_last().update(i, oe));
        assert(es2.last() == es.last());
        lemma_count_update(es.drop_last(), i, oe);
    }
}

/// One step of the occupied count over a growing prefix.
pub proof fn lemma_count_take_step(es: Seq<Option<Entry>>, i: int)
    requires
        0 <= i < es.len(),
    ensures
        occupied_count(es.take(i + 1)) == occupied_count(es.take(i)) + (if es[i] is Some {
            1int
        } else {
            0int
        }),
{
    assert(es.take(i + 1).drop_last() =~= es.take(i));
    assert(es.take(i + 1).last() == es[i]);
}

/// The abstract contents of the table: each stored key maps to the value in
/// its slot.
pub open spec fn table_view(es: Seq<Option<Entry>>) -> Map<Seq<char>, Seq<char>> {
    Map::new(
        |k: Seq<char>| table_has_key(es, k),
        |k: Seq<char>| value_at(es, choose|i: int| occupied(es, i) && key_at(es, i) == k),
    )
}

/// In a table with distinct keys, the entry in any occupied slot is what the
/// view maps its key to.
pub proof fn lemma_pos_view(es: Seq<Option<Entry>>, i: int)
    requires
        distinct_keys(es),
        occupied(es, i),
    ensures
        table_view(es).contains_key(key_at(es, i)),
        table_view(es)[key_at(es, i)] == value_at(es, i),
{
    let k = key_at(es, i);
    assert(table_has_key(es, k));
    let i2 = choose|i2: int| occupied(es, i2) && key_at(es, i2) == k;
    assert(i2 == i);
}

/// If probing from the key's home slot reaches an empty slot after passing
/// only occupied slots with other keys, the key is nowhere in the table.
pub proof fn lemma_probe_empty_absent(es: Seq<Option<Entry>>, k: Seq<char>, d: int)
    requires
        es.len() >= 1,
        well_probed(es),
        0 <= d < es.len(),
        !occupied(es, probe_slot(slot_of(k, es.len() as int), d, es.len() as int)),
        forall|d2: int|
            0 <= d2 < d ==> occupied(
                es,
                #[trigger] probe_slot(slot_of(k, es.len() as int), d2, es.len() as int),
            ) && key_at(es, probe_slot(slot_of(k, es.len() as int), d2, es.len() as int)) != k,
    ensures
        !table_has_key(es, k),
{
    let cap = es.len() as int;
    let h = slot_of(k, cap);
    if table_has_key(es, k) {
        let i = choose|i: int| occupied(es, i) && key_at(es, i) == k;
        assert(home_of(es, i) == h);
        let dd = dist(h, i, cap);
        assert(probe_slot(h, dd, cap) == i);
        if dd < d {
            assert(key_at(es, probe_slot(h, dd, cap)) != k);
        } else if dd == d {
            assert(occupied(es, i));
        } else {
            assert(occupied(es, probe_slot(home_of(es, i), d, cap)));
        }
    }
}

/// The default number of slots of a freshly created map.
pub const INIT_CAPACITY: usize = 2;

/// A hash map backed by a flat array of optional entries, probed linearly.
pub struct HashMap {
    entries: Vec<Option<Entry>>,
    len: usize,
}

impl View for HashMap {
    type V = Map<Seq<char>, Seq<char>>;

    closed spec fn view(&self) -> Map<Seq<char>, Seq<char>> {
        table_view(self.entries@)
    }
}

impl HashMap {
    /// The number of slots currently allocated.
    pub closed spec fn spec_cap(&self) -> int {
        self.entries@.len() as int
    }

    /// The number of entries currently stored.
    pub closed spec fn spec_len(&self) -> int {
        self.len as int
    }

    /// The map's internal invariant: at least one slot, every entry
    /// reachable from its home slot by probing over occupied slots, no key
    /// stored twice, and the length equal to the occupied-slot count and
    /// bounded by the capacity.
    pub closed spec fn wf(&self) -> bool {
        &&& self.entries@.len() >= 1
        &&& well_probed(self.entries@)
        &&& distinct_keys(self.entries@)
        &&& self.len as int == occupied_count(self.entries@)
        &&& self.len as int <= self.entries@.len() as int
    }

    /// An empty map with `cap` slots.
    pub fn with_capacity(cap: usize) -> (m: HashMap)
        requires
            cap >= 1,
        ensures
            m.wf(),
            m@ == Map::<Seq<char>, Seq<char>>::empty(),
            m.spec_cap() == cap as int,
            m.spec_len() == 0,
    {
        let mut entries: Vec<Option<Entry>> = Vec::new();
        let mut i: usize = 0;
        while i < cap
            invariant
                entries@.len() == i as int,
                i <= cap,
                forall|j: int| 0 <= j < i ==> !(#[trigger] entries@[j] is Some),
            decreases cap - i,
        {
            entries.push(None);
            i = i + 1;
        }
        let m = HashMap { entries, len: 0 };
        proof {
            lemma_count_empty(m.entries@);
            assert(table_view(m.entries@) =~= Map::<Seq<char>, Seq<char>>::empty());
        }
        m
    }

    /// An empty map with the default capacity.
    pub fn new() -> (m: HashMap)
        ensures
            m.wf(),
            m@ == Map::<Seq<char>, Seq<char>>::empty(),
            m.spec_cap() == 2,
            m.spec_len() == 0,
    {
        Self::with_capacity(INIT_CAPACITY)
    }

    /// The number of slots currently allocated.
    pub fn capacity(&self) -> (r: usize)
        ensures
            r as int == self.spec_cap(),
    {
        self.entries.len()
    }

    /// The number of entries currently stored.
    pub fn len(&self) -> (r: usize)
        ensures
            r as int == self.spec_len(),
    {
        self.len
    }

    /// The home slot of `key` under the current capacity.
    pub fn hash(&self, key: &str) -> (r: usize)
        requires
            self.wf(),
        ensures
            r as int == slot_of(key@, self.spec_cap()),
            (r as int) < self.spec_cap(),
    {
        slot_for(key, self.entries.len())
    }

    /// Returns a copy of the value stored under `key`, or `None` if no slot
    /// holds `key`. Probing stops at the first empty slot, or after one full
    /// pass over the table.
    pub fn get(&self, key: &str) -> (r: Option<String>)
        requires
            self.wf(),
        ensures
            match r {
                Some(v) => self@.contains_key(key@) && v@ == self@[key@],
                None => !self@.contains_key(key@),
            },
    {
        let cap = self.entries.len();
        let ghost h_spec = slot_of(key@, cap as int);
        let h = slot_for(key, cap);
        let k_owned = key.to_owned();
        let mut idx = h;
        let mut d: usize = 0;
        while d < cap
            invariant
                self.wf(),
                cap as int == self.spec_cap(),
                h_spec == slot_of(key@, cap as int),
                h as int == h_spec,
                0 <= d <= cap,
                idx as int == probe_slot(h_spec, d as int, cap as int),
                k_owned@ == key@,
                forall|d2: int|
                    0 <= d2 < d ==> occupied(
                        self.entries@,
                        #[trigger] probe_slot(h_spec, d2, cap as int),
                    ) && key_at(self.entries@, probe_slot(h_spec, d2, cap as int)) != key@,
            decreases cap - d,
        {
            match self.entries[idx].as_ref() {
                None => {
                    proof {
                        lemma_probe_empty_absent(self.entries@, key@, d as int);
                    }
                    return None;
                },
                Some(e) => {
                    if e.key == k_owned {
                        proof {
                            lemma_pos_view(self.entries@, idx as int);
                        }
                        return Some(e.value.clone());
                    }
                },
            }
            d = d + 1;
            idx = if idx + 1 == cap {
                0
            } else {
                idx + 1
            };
        }
        proof {
            if table_has_key(self.entries@, key@) {
                let i = choose|i: int|
                    occupied(self.entries@, i) && key_at(self.entries@, i) == key@;
                let dd = dist(h_spec, i, cap as int);
                assert(probe_slot(h_spec, dd, cap as int) == i);
                assert(key_at(self.entries@, probe_slot(h_spec, dd, cap as int)) != key@);
            }
        }
        None
    }

    /// Stores `value` under `key` without growing: probes from the key's
    /// home slot and fills the first empty slot, or overwrites the slot
    /// already holding the key.
    fn insert_no_grow(&mut self, key: String, value: String)
        requires
            old(self).wf(),
            old(self).spec_len() < old(self).spec_cap(),
        ensures
            final(self).wf(),
            final(self)@ == old(self)@.insert(key@, value@),
            final(self).spec_cap() == old(self).spec_cap(),
            old(self)@.contains_key(key@) ==> final(self).spec_len() == old(self).spec_len(),
            !old(self)@.contains_key(key@) ==> final(self).spec_len() == old(self).spec_len()
                + 1,
    {
        let ghost es0 = self.entries@;
        let ghost k = key@;
        let ghost v = value@;
        let cap = self.entries.len();
        let ghost capi = cap as int;
        let ghost h_spec = slot_of(k, capi);
        let h = slot_for(key.as_str(), cap);
        let mut idx = h;
        let mut d: usize = 0;
        while d < cap
            invariant
                self == old(self),
                self.wf(),
                es0 == self.entries@,
                capi == cap as int,
                cap as int == self.spec_cap(),
                self.spec_len() < self.spec_cap(),
                h_spec == slot_of(k, capi),
                h as int == h_spec,
                k == key@,
                v == value@,
                0 <= d <= cap,
                idx as int == probe_slot(h_spec, d as int, capi),
                forall|d2: int|
                    0 <= d2 < d ==> occupied(es0, #[trigger] probe_slot(h_spec, d2, capi))
                        && key_at(es0, probe_slot(h_spec, d2, capi)) != k,
            decreases cap - d,
        {
            if self.entries[idx].is_none() {
                proof {
                    lemma_probe_empty_absent(es0, k, d as int);
                }
                self.entries[idx] = Some(Entry::new(key, value));
                self.len = self.len + 1;
                proof {
                    let es1 = self.entries@;
                    assert(forall|i: int| 0 <= i < capi && i != idx ==> es1[i] == es0[i]);
                    assert(occupied(es1, idx as int) && key_at(es1, idx as int) == k && value_at(
                        es1,
                        idx as int,
                    ) == v);
                    lemma_count_update(es0, idx as int, es1[idx as int]);
                    // Every old entry keeps its key and its probe path; the
                    // new entry's path is the scanned, occupied prefix.
                    assert(forall|i: int|
                        occupied(es0, i) ==> occupied(es1, i) && #[trigger] key_at(es1, i)
                            == key_at(es0, i));
                    assert forall|i: int, d2: int|
                        occupied(es1, i) && 0 <= d2 < dist(home_of(es1, i), i, capi)
                        implies occupied(
                        es1,
                        #[trigger] probe_slot(home_of(es1, i), d2, capi),
                    ) by {
                        if i == idx {
                            assert(home_of(es1, i) == h_spec);
                            assert(dist(h_spec, idx as int, capi) == d as int);
                            assert(occupied(es0, probe_slot(h_spec, d2, capi)));
                        } else {
                            assert(occupied(es0, i));
                            assert(home_of(es0, i) == home_of(es1, i));
                            assert(occupied(es0, probe_slot(home_of(es0, i), d2, capi)));
                        }
                    }
                    assert forall|i1: int, i2: int|
                        occupied(es1, i1) && occupied(es1, i2) && #[trigger] key_at(es1, i1)
                            == #[trigger] key_at(es1, i2) implies i1 == i2 by {
                        if i1 == idx && i2 != idx {
                            assert(key_at(es0, i2) == k);
                            assert(table_has_key(es0, k));
                        } else if i2 == idx && i1 != idx {
                            assert(key_at(es0, i1) == k);
                            assert(table_has_key(es0, k));
                        } else if i1 != idx && i2 != idx {
                            assert(key_at(es0, i1) == key_at(es0, i2));
                        }
                    }
                    assert forall|k2: Seq<char>| #[trigger] table_view(es1).contains_key(k2)
                        == table_view(es0).insert(k, v).contains_key(k2) && (table_view(
                        es1,
                    ).contains_key(k2) ==> table_view(es1)[k2] == table_view(es0).insert(
                        k,
                        v,
                    )[k2]) by {
                        if k2 == k {
                            lemma_pos_view(es1, idx as int);
                        } else {
                            if table_has_key(es0, k2) {
                                let i = choose|i: int|
                                    occupied(es0, i) && key_at(es0, i) == k2;
                                assert(occupied(es1, i) && key_at(es1, i) == k2);
                                lemma_pos_view(es0, i);
                                lemma_pos_view(es1, i);
                                assert(value_at(es1, i) == value_at(es0, i));
                            }
                            if table_has_key(es1, k2) {
                                let i = choose|i: int|
                                    occupied(es1, i) && key_at(es1, i) == k2;
                                assert(i != idx);
                                assert(occupied(es0, i) && key_at(es0, i) == k2);
                            }
                        }
                    }
                    assert(table_view(es1) =~= table_view(es0).insert(k, v));
                }
                return ;
            }
            let is_match = self.entries[idx].as_ref().unwrap().key == key;
            if is_match {
                proof {
                    assert(occupied(es0, idx as int) && key_at(es0, idx as int) == k);
                    lemma_pos_view(es0, idx as int);
                }
                self.entries[idx] = Some(Entry::new(key, value));
                proof {
                    let es1 = self.entries@;
                    assert(forall|i: int| 0 <= i < capi && i != idx ==> es1[i] == es0[i]);
                    assert(occupied(es1, idx as int) && key_at(es1, idx as int) == k && value_at(
                        es1,
                        idx as int,
                    ) == v);
                    lemma_count_update(es0, idx as int, es1[idx as int]);
                    // Occupancy and keys are unchanged everywhere; only the
                    // value in this slot differs.
                    assert(forall|i: int|
                        occupied(es1, i) <==> #[trigger] occupied(es0, i));
                    assert(forall|i: int|
                        occupied(es0, i) ==> #[trigger] key_at(es1, i) == key_at(es0, i));
                    assert forall|i: int, d2: int|
                        occupied(es1, i) && 0 <= d2 < dist(home_of(es1, i), i, capi)
                        implies occupied(
                        es1,
                        #[trigger] probe_slot(home_of(es1, i), d2, capi),
                    ) by {
                        assert(occupied(es0, i));
                        assert(home_of(es0, i) == home_of(es1, i));
                        assert(occupied(es0, probe_slot(home_of(es0, i), d2, capi)));
                    }
                    assert forall|i1: int, i2: int|
                        occupied(es1, i1) && occupied(es1, i2) && #[trigger] key_at(es1, i1)
                            == #[trigger] key_at(es1, i2) implies i1 == i2 by {
                        assert(key_at(es0, i1) == key_at(es0, i2));
                    }
                    assert forall|k2: Seq<char>| #[trigger] table_view(es1).contains_key(k2)
                        == table_view(es0).insert(k, v).contains_key(k2) && (table_view(
                        es1,
                    ).contains_key(k2) ==> table_view(es1)[k2] == table_view(es0).insert(
                        k,
                        v,
                    )[k2]) by {
                        if k2 == k {
                            lemma_pos_view(es1, idx as int);
                        } else {
                            if table_has_key(es0, k2) {
                                let i = choose|i: int|
                                    occupied(es0, i) && key_at(es0, i) == k2;
                                assert(i != idx);
                                assert(occupied(es1, i) && key_at(es1, i) == k2);
                                lemma_pos_view(es0, i);
                                lemma_pos_view(es1, i);
                            }
                            if table_has_key(es1, k2) {
                                let i = choose|i: int|
                                    occupied(es1, i) && key_at(es1, i) == k2;
                                assert(i != idx);
                                assert(occupied(es0, i) && key_at(es0, i) == k2);
                            }
                        }
                    }
                    assert(table_view(es1) =~= table_view(es0).insert(k, v));
                }
                return ;
            }
            d = d + 1;
            idx = if idx + 1 == cap {
                0
            } else {
                idx + 1
            };
        }
        proof {
            // A full pass found neither an empty slot nor the key, so every
            // slot is occupied, contradicting the free slot the length bound
            // guarantees.
            assert forall|i: int| 0 <= i < capi implies es0[i] is Some by {
                let dd = dist(h_spec, i, capi);
                assert(probe_slot(h_spec, dd, capi) == i);
                assert(occupied(es0, probe_slot(h_spec, dd, capi)));
            }
            lemma_count_full(es0);
            assert(false);
        }
    }

    /// Doubles the number of slots and rehashes every stored entry into the
    /// position its key probes to under the new capacity, so that the
    /// contents are exactly preserved.
    pub fn resize(&mut self)
        requires
            old(self).wf(),
            2 * old(self).spec_cap() <= usize::MAX as int,
        ensures
            final(self).wf(),
            final(self)@ == old(self)@,
            final(self).spec_cap() == 2 * old(self).spec_cap(),
            final(self).spec_len() == old(self).spec_len(),
    {
        let ghost es0 = self.entries@;
        let ghost m0 = table_view(es0);
        let ghost n0 = es0.len() as int;
        let new_cap = self.entries.len() * 2;
        let mut fresh = Self::with_capacity(new_cap);
        let mut old_entries: Vec<Option<Entry>> = Vec::new();
        core::mem::swap(&mut old_entries, &mut self.entries);
        proof {
            assert(old_entries@ =~= es0.take(old_entries@.len() as int));
        }
        while old_entries.len() > 0
            invariant
                old(self).wf(),
                es0 == old(self).entries@,
                m0 == table_view(es0),
                n0 == es0.len() as int,
                fresh.wf(),
                fresh.spec_cap() == 2 * n0,
                old_entries@.len() <= n0,
                old_entries@ == es0.take(old_entries@.len() as int),
                fresh.spec_len() + occupied_count(es0.take(old_entries@.len() as int))
                    == occupied_count(es0),
                forall|k2: Seq<char>| #[trigger] fresh@.contains_key(k2) ==> exists|i: int|
                    occupied(es0, i) && key_at(es0, i) == k2 && i >= old_entries@.len(),
                forall|k2: Seq<char>| #[trigger] fresh@.contains_key(k2) ==> m0.contains_key(k2)
                    && fresh@[k2] == m0[k2],
                forall|i: int|
                    occupied(es0, i) && i >= old_entries@.len() ==> fresh@.contains_key(
                        #[trigger] key_at(es0, i),
                    ),
            decreases old_entries@.len(),
        {
            let ghost n_pre = old_entries@.len() as int;
            let oe = old_entries.pop().unwrap();
            let ghost sn = old_entries@.len() as int;
            proof {
                assert(es0.take(n_pre).last() == es0[sn]);
                assert(es0.take(n_pre).drop_last() =~= es0.take(sn));
                lemma_count_take_step(es0, sn);
            }
            match oe {
                None => {
                    proof {
                        assert(!(es0[sn] is Some));
                    }
                },
                Some(e) => {
                    proof {
                        assert(occupied(es0, sn) && key_at(es0, sn) == e.key@ && value_at(es0, sn)
                            == e.value@);
                        // The key about to move is not in the new table yet.
                        if fresh@.contains_key(e.key@) {
                            let i = choose|i: int|
                                occupied(es0, i) && key_at(es0, i) == e.key@ && i >= n_pre;
                            assert(key_at(es0, i) == key_at(es0, sn));
                            assert(false);
                        }
                        lemma_count_nonneg(es0.take(sn));
                        lemma_pos_view(es0, sn);
                    }
                    let ghost pre = fresh@;
                    fresh.insert_no_grow(e.key, e.value);
                    proof {
                        assert(fresh@ == pre.insert(key_at(es0, sn), value_at(es0, sn)));
                        assert forall|k2: Seq<char>| #[trigger] fresh@.contains_key(k2)
                            implies exists|i: int|
                            occupied(es0, i) && key_at(es0, i) == k2 && i >= sn by {
                            if k2 == key_at(es0, sn) {
                                assert(occupied(es0, sn) && key_at(es0, sn) == k2 && sn >= sn);
                            } else {
                                assert(pre.contains_key(k2));
                                let i = choose|i: int|
                                    occupied(es0, i) && key_at(es0, i) == k2 && i >= n_pre;
                                assert(occupied(es0, i) && key_at(es0, i) == k2 && i >= sn);
                            }
                        }
                        assert forall|i: int| occupied(es0, i) && i >= sn implies fresh@.contains_key(
                            #[trigger] key_at(es0, i),
                        ) by {
                            if i != sn {
                                assert(pre.contains_key(key_at(es0, i)));
                            }
                        }
                    }
                },
            }
        }
        proof {
            assert(es0.take(0) =~= Seq::<Option<Entry>>::empty());
            assert forall|k2: Seq<char>| #[trigger] m0.contains_key(k2)
                implies fresh@.contains_key(k2) by {
                assert(table_has_key(es0, k2));
                let i = choose|i: int| occupied(es0, i) && key_at(es0, i) == k2;
                assert(fresh@.contains_key(key_at(es0, i)));
            }
            assert(fresh@ =~= m0);
        }
        self.entries = fresh.entries;
        self.len = fresh.len;
    }

    /// Stores `value` under `key`. When the length has reached the capacity,
    /// the map first doubles its capacity, rehashing every entry; then the
    /// key's probe sequence ends at the slot that receives the entry.
    pub fn insert(&mut self, key: &str, value: &str)
        requires
            old(self).wf(),
            old(self).spec_len() == old(self).spec_cap() ==> 2 * old(self).spec_cap()
                <= usize::MAX as int,
        ensures
            final(self).wf(),
            final(self)@ == old(self)@.insert(key@, value@),
            final(self).spec_cap() == if old(self).spec_len() == old(self).spec_cap() {
                2 * old(self).spec_cap()
            } else {
                old(self).spec_cap()
            },
            old(self)@.contains_key(key@) ==> final(self).spec_len() == old(self).spec_len(),
            !old(self)@.contains_key(key@) ==> final(self).spec_len() == old(self).spec_len()
                + 1,
    {
        if self.len == self.entries.len() {
            self.resize();
        }
        self.insert_no_grow(key.to_owned(), value.to_owned());
    }

    /// Whether a slot holds `key`: true exactly when `get` finds a value.
    pub fn contains_key(&self, key: &str) -> (r: bool)
        requires
            self.wf(),
        ensures
            r == self@.contains_key(key@),
    {
        self.get(key).is_some()
    }
}

} // verus!
