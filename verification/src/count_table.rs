//! A table of counts keyed by byte strings.
//!
//! Keys are grouped by their 64-bit FxHash; each group lists its keys with their counts.

use std::collections::HashMap;

use vstd::prelude::*;

use vstd::std_specs::iter::IteratorSpec;

use crate::hashing::{fx_hash64, hash_bytes};

verus! {

broadcast use vstd::std_specs::hash::group_hash_axioms;

/// `a + d` modulo 2^64: what `u64::wrapping_add` computes.
pub open spec fn wrapping_sum(a: u64, d: u64) -> u64 {
    ((a as int + d as int) % 0x1_0000_0000_0000_0000int) as u64
}

fn add_wrapping(a: u64, d: u64) -> (r: u64)
    ensures
        r == wrapping_sum(a, d),
{
    a.wrapping_add(d)
}

/// Whether two byte strings are equal.
pub fn bytes_equal(a: &[u8], b: &[u8]) -> (r: bool)
    ensures
        r == (a@ == b@),
{
    if a.len() != b.len() {
        return false;
    }
    let mut i: usize = 0;
    while i < a.len()
        invariant
            i <= a@.len(),
            a@.len() == b@.len(),
            forall|k: int| 0 <= k < i ==> a@[k] == b@[k],
        decreases a@.len() - i,
    {
        if a[i] != b[i] {
            return false;
        }
        i += 1;
    }
    assert(a@ =~= b@);
    true
}

/// The keys that share one hash, with their counts.
struct Group {
    keys: Vec<Vec<u8>>,
    counts: Vec<u64>,
}

spec fn group_wf(g: Group, h: u64) -> bool {
    &&& g.keys@.len() == g.counts@.len()
    &&& forall|i: int| 0 <= i < g.keys@.len() ==> fx_hash64(#[trigger] g.keys@[i]@) == h
    &&& forall|i: int, j: int| 0 <= i < j < g.keys@.len() ==> (#[trigger] g.keys@[i])@ != (#[trigger] g.keys@[j])@
}

spec fn group_has(g: Group, k: Seq<u8>) -> bool {
    exists|i: int| 0 <= i < g.keys@.len() && (#[trigger] g.keys@[i])@ == k
}

spec fn group_index(g: Group, k: Seq<u8>) -> int {
    choose|i: int| 0 <= i < g.keys@.len() && (#[trigger] g.keys@[i])@ == k
}

spec fn group_get(g: Group, k: Seq<u8>) -> u64 {
    g.counts@[group_index(g, k)]
}

proof fn lemma_group_index(g: Group, h: u64, i: int)
    requires
        group_wf(g, h),
        0 <= i < g.keys@.len(),
    ensures
        group_has(g, g.keys@[i]@),
        group_index(g, g.keys@[i]@) == i,
        group_get(g, g.keys@[i]@) == g.counts@[i],
{
    let k = g.keys@[i]@;
    assert(g.keys@[i]@ == k);
    let j = group_index(g, k);
    if j != i {
        if j < i {
            assert(g.keys@[j]@ != g.keys@[i]@);
        } else {
            assert(g.keys@[i]@ != g.keys@[j]@);
        }
    }
}

/// Counts keyed by byte strings.
pub struct CountTable {
    groups: HashMap<u64, Group>,
}

impl View for CountTable {
    type V = Map<Seq<u8>, u64>;

    closed spec fn view(&self) -> Map<Seq<u8>, u64> {
        Map::new(
            |k: Seq<u8>| self.groups@.contains_key(fx_hash64(k)) && group_has(self.groups@[fx_hash64(k)], k),
            |k: Seq<u8>| group_get(self.groups@[fx_hash64(k)], k),
        )
    }
}

/// The counts of `a` with those of `b` added in, key by key, modulo 2^64.
pub open spec fn merged_counts(a: Map<Seq<u8>, u64>, b: Map<Seq<u8>, u64>) -> Map<Seq<u8>, u64> {
    Map::new(
        |k: Seq<u8>| a.contains_key(k) || b.contains_key(k),
        |k: Seq<u8>|
            if b.contains_key(k) {
                wrapping_sum(if a.contains_key(k) { a[k] } else { 0 }, b[k])
            } else {
                a[k]
            },
    )
}

/// The count that `increment` leaves at a key: the old count, or `start` where the key
/// was absent, plus `delta`, modulo 2^64.
pub open spec fn incremented(m: Map<Seq<u8>, u64>, key: Seq<u8>, start: u64, delta: u64) -> u64 {
    wrapping_sum(if m.contains_key(key) { m[key] } else { start }, delta)
}

/// A read after an increment gives back the incremented count at that key, and the old
/// count (or its absence) at every other key.
pub proof fn lemma_read_after_increment(
    m: Map<Seq<u8>, u64>,
    key: Seq<u8>,
    start: u64,
    delta: u64,
    other: Seq<u8>,
)
    ensures
        m.insert(key, incremented(m, key, start, delta)).contains_key(key),
        m.insert(key, incremented(m, key, start, delta))[key] == incremented(m, key, start, delta),
        other != key ==> m.insert(key, incremented(m, key, start, delta)).contains_key(other) == m.contains_key(other),
        other != key && m.contains_key(other) ==> m.insert(key, incremented(m, key, start, delta))[other] == m[other],
{
}

/// The incremented count is the old count, or `start` for an absent key, plus `delta`,
/// modulo 2^64.
pub proof fn lemma_incremented_value(m: Map<Seq<u8>, u64>, key: Seq<u8>, start: u64, delta: u64)
    ensures
        m.contains_key(key) ==> incremented(m, key, start, delta) as int == (m[key] as int + delta as int) % 0x1_0000_0000_0000_0000int,
        !m.contains_key(key) ==> incremented(m, key, start, delta) as int == (start as int + delta as int) % 0x1_0000_0000_0000_0000int,
{
}

/// Merging tables adds counts: a key of both holds the sum of its counts (modulo 2^64),
/// a key of one of them keeps its count, and no other key appears.
pub proof fn lemma_merged_counts(a: Map<Seq<u8>, u64>, b: Map<Seq<u8>, u64>, k: Seq<u8>)
    ensures
        merged_counts(a, b).contains_key(k) == (a.contains_key(k) || b.contains_key(k)),
        a.contains_key(k) && b.contains_key(k) ==> merged_counts(a, b)[k] as int == (a[k] as int + b[k] as int) % 0x1_0000_0000_0000_0000int,
        a.contains_key(k) && !b.contains_key(k) ==> merged_counts(a, b)[k] == a[k],
        !a.contains_key(k) && b.contains_key(k) ==> merged_counts(a, b)[k] == b[k],
{
}

impl CountTable {
    pub closed spec fn wf(&self) -> bool {
        forall|h: u64| #[trigger] self.groups@.contains_key(h) ==> group_wf(self.groups@[h], h)
    }

    /// An empty table.
    pub fn new() -> (t: CountTable)
        ensures
            t.wf(),
            t@ == Map::<Seq<u8>, u64>::empty(),
    {
        let t = CountTable { groups: HashMap::new() };
        assert(t@ =~= Map::<Seq<u8>, u64>::empty());
        t
    }

    /// The count stored at `key`, if any.
    pub fn get(&self, key: &[u8]) -> (r: Option<u64>)
        requires
            self.wf(),
        ensures
            r == (if self@.contains_key(key@) { Some(self@[key@]) } else { None::<u64> }),
    {
        let h = hash_bytes(key);
        match self.groups.get(&h) {
            None => None,
            Some(g) => {
                match find_key(g, key) {
                    Some(i) => {
                        proof { lemma_group_index(*g, h, i as int); }
                        Some(g.counts[i])
                    },
                    None => None,
                }
            },
        }
    }

    /// Adds `delta` to the count at `key`, modulo 2^64; a key not yet present starts
    /// at `start`.
    pub fn increment(&mut self, key: &[u8], start: u64, delta: u64)
        requires
            old(self).wf(),
        ensures
            final(self).wf(),
            final(self)@ == old(self)@.insert(key@, incremented(old(self)@, key@, start, delta)),
    {
        let ghost old_view = self@;
        let ghost old_groups = self.groups@;
        let h = hash_bytes(key);
        let removed = self.groups.remove(&h);
        let ghost new_value = incremented(old_view, key@, start, delta);
        let group = match removed {
            None => {
                let mut keys: Vec<Vec<u8>> = Vec::new();
                keys.push(vstd::slice::slice_to_vec(key));
                let mut counts: Vec<u64> = Vec::new();
                counts.push(add_wrapping(start, delta));
                let g = Group { keys, counts };
                proof {
                    assert(!old_view.contains_key(key@));
                    lemma_group_index(g, h, 0);
                }
                g
            },
            Some(g0) => {
                let mut g = g0;
                match find_key(&g, key) {
                    Some(i) => {
                        proof { lemma_group_index(g, h, i as int); }
                        let c = g.counts[i];
                        g.counts.set(i, add_wrapping(c, delta));
                        proof {
                            assert(old_view.contains_key(key@));
                            assert(group_wf(g, h));
                            lemma_group_index(g, h, i as int);
                            assert forall|j: int| 0 <= j < g.keys@.len() && j != i implies group_get(g, #[trigger] g.keys@[j]@) == group_get(g0, g0.keys@[j]@) by {
                                lemma_group_index(g, h, j);
                                lemma_group_index(g0, h, j);
                            }
                        }
                    },
                    None => {
                        let ghost n = g.keys@.len();
                        g.keys.push(vstd::slice::slice_to_vec(key));
                        g.counts.push(add_wrapping(start, delta));
                        proof {
                            assert(!old_view.contains_key(key@));
                            assert(group_wf(g, h));
                            lemma_group_index(g, h, n as int);
                            assert forall|j: int| 0 <= j < n implies group_get(g, #[trigger] g.keys@[j]@) == group_get(g0, g0.keys@[j]@) by {
                                lemma_group_index(g, h, j);
                                lemma_group_index(g0, h, j);
                            }
                        }
                    },
                }
                g
            },
        };
        let ghost gnew = group;
        self.groups.insert(h, group);
        proof {
            assert forall|hh: u64| #[trigger] self.groups@.contains_key(hh) implies group_wf(self.groups@[hh], hh) by {
                if hh != h {
                    assert(old_groups.contains_key(hh));
                }
            }
            assert forall|k: Seq<u8>| #[trigger] self@.contains_key(k) == old_view.insert(key@, new_value).contains_key(k) by {
                if fx_hash64(k) == h && k != key@ {
                    if group_has(gnew, k) {
                        let j = choose|j: int| 0 <= j < gnew.keys@.len() && (#[trigger] gnew.keys@[j])@ == k;
                        if removed is Some {
                            let g0 = removed.unwrap();
                            if j < g0.keys@.len() {
                                assert(g0.keys@[j]@ == k);
                            }
                        }
                    }
                    if old_view.contains_key(k) {
                        let g0 = old_groups[h];
                        let j = choose|j: int| 0 <= j < g0.keys@.len() && (#[trigger] g0.keys@[j])@ == k;
                        assert(gnew.keys@[j]@ == k);
                    }
                }
            }
            assert forall|k: Seq<u8>| #[trigger] self@.contains_key(k) implies self@[k] == old_view.insert(key@, new_value)[k] by {
                if fx_hash64(k) == h && k != key@ {
                    let j = choose|j: int| 0 <= j < gnew.keys@.len() && (#[trigger] gnew.keys@[j])@ == k;
                    lemma_group_index(gnew, h, j);
                    let g0 = removed.unwrap();
                    assert(j < g0.keys@.len());
                    assert(g0.keys@[j]@ == k);
                    lemma_group_index(g0, h, j);
                } else if k == key@ {
                    let j = choose|j: int| 0 <= j < gnew.keys@.len() && (#[trigger] gnew.keys@[j])@ == k;
                    lemma_group_index(gnew, h, j);
                }
            }
            assert(self@ =~= old_view.insert(key@, new_value));
        }
    }

    /// Takes the table apart into its entries, each key once, in no particular order.
    pub fn into_entries(self) -> (r: Vec<(Vec<u8>, u64)>)
        requires
            self.wf(),
        ensures
            forall|i: int| 0 <= i < r@.len() ==> self@.contains_key((#[trigger] r@[i]).0@) && self@[r@[i].0@] == r@[i].1,
            forall|k: Seq<u8>| #[trigger] self@.contains_key(k) ==> exists|i: int| 0 <= i < r@.len() && (#[trigger] r@[i]).0@ == k,
            forall|i: int, j: int| 0 <= i < j < r@.len() ==> (#[trigger] r@[i]).0@ != (#[trigger] r@[j]).0@,
    {
        let ghost view0 = self@;
        let ghost g0 = self.groups@;
        let mut groups = self.groups;
        let mut hs: Vec<u64> = Vec::new();
        let ghost ks = vstd::std_specs::hash::spec_keys_iter(&groups).remaining();
        for h in it: groups.keys()
            invariant
                it.seq() == ks,
                hs@.len() == it.index(),
                forall|i: int| 0 <= i < hs@.len() ==> hs@[i] == *ks[i],
        {
            hs.push(*h);
        }
        proof {
            assert(hs@.to_set() =~= g0.dom()) by {
                assert forall|h: u64| hs@.to_set().contains(h) == g0.dom().contains(h) by {
                    if hs@.contains(h) {
                        let i = choose|i: int| 0 <= i < hs@.len() && hs@[i] == h;
                        assert(ks.unref()[i] == h);
                    }
                    if g0.dom().contains(h) {
                        assert(ks.unref().to_set().contains(h));
                        let i = choose|i: int| 0 <= i < ks.unref().len() && ks.unref()[i] == h;
                        assert(hs@[i] == h);
                    }
                }
            }
            assert forall|i: int, j: int| 0 <= i < j < hs@.len() implies hs@[i] != hs@[j] by {
                assert(ks.no_duplicates());
                assert(hs@[i] == *ks[i]);
                assert(hs@[j] == *ks[j]);
                assert(ks[i] != ks[j]);
            }
        }
        let mut r: Vec<(Vec<u8>, u64)> = Vec::new();
        let mut t: usize = 0;
        proof {
            assert(hs@.subrange(0, hs@.len() as int) =~= hs@);
            assert forall|h: u64| #[trigger] groups@.contains_key(h) == (g0.contains_key(h) && hs@.subrange(0, hs@.len() as int).contains(h)) by {
                if g0.contains_key(h) {
                    assert(hs@.to_set().contains(h));
                }
            }
        }
        while t < hs.len()
            invariant
                t <= hs@.len(),
                hs@.to_set() == g0.dom(),
                forall|i: int, j: int| 0 <= i < j < hs@.len() ==> hs@[i] != hs@[j],
                forall|h: u64| #[trigger] g0.contains_key(h) ==> group_wf(g0[h], h),
                view0 == Map::new(
                    |k: Seq<u8>| g0.contains_key(fx_hash64(k)) && group_has(g0[fx_hash64(k)], k),
                    |k: Seq<u8>| group_get(g0[fx_hash64(k)], k),
                ),
                forall|h: u64| #[trigger] groups@.contains_key(h) == (g0.contains_key(h) && hs@.subrange(t as int, hs@.len() as int).contains(h)),
                forall|h: u64| #[trigger] groups@.contains_key(h) ==> groups@[h] == g0[h],
                forall|i: int| 0 <= i < r@.len() ==> view0.contains_key((#[trigger] r@[i]).0@) && view0[r@[i].0@] == r@[i].1
                    && hs@.subrange(0, t as int).contains(fx_hash64(r@[i].0@)),
                forall|k: Seq<u8>| #[trigger] view0.contains_key(k) && hs@.subrange(0, t as int).contains(fx_hash64(k)) ==> exists|i: int| 0 <= i < r@.len() && (#[trigger] r@[i]).0@ == k,
                forall|i: int, j: int| 0 <= i < j < r@.len() ==> (#[trigger] r@[i]).0@ != (#[trigger] r@[j]).0@,
            decreases hs@.len() - t,
        {
            let h = hs[t];
            proof {
                assert(hs@.subrange(t as int, hs@.len() as int)[0] == h);
                assert(hs@.to_set().contains(h));
            }
            let removed = groups.remove(&h);
            let mut g = match removed {
                Some(g) => g,
                None => {
                    proof { assert(false); }
                    Group { keys: Vec::new(), counts: Vec::new() }
                },
            };
            let ghost gorig = g;
            let ghost rbase = r@;
            let ghost n = gorig.keys@.len();
            proof {
                assert(g0.contains_key(h));
                assert(gorig == g0[h]);
            }
            while g.keys.len() > 0
                invariant
                    group_wf(gorig, h),
                    gorig == g0[h],
                    n == gorig.keys@.len(),
                    g.keys@.len() == g.counts@.len(),
                    g.keys@.len() <= n,
                    g.keys@ == gorig.keys@.subrange(0, g.keys@.len() as int),
                    g.counts@ == gorig.counts@.subrange(0, g.keys@.len() as int),
                    r@.len() == rbase.len() + (n - g.keys@.len()),
                    r@.subrange(0, rbase.len() as int) == rbase,
                    forall|q: int| 0 <= q < n - g.keys@.len() ==> #[trigger] r@[rbase.len() + q] == (gorig.keys@[n - 1 - q], gorig.counts@[n - 1 - q]),
                decreases g.keys@.len(),
            {
                let k = g.keys.pop().unwrap();
                let c = g.counts.pop().unwrap();
                r.push((k, c));
                proof {
                    assert(r@.subrange(0, rbase.len() as int) =~= rbase);
                }
            }
            proof {
                let tn = (t + 1) as int;
                assert forall|i: int| 0 <= i < r@.len() implies view0.contains_key((#[trigger] r@[i]).0@) && view0[r@[i].0@] == r@[i].1
                    && hs@.subrange(0, tn).contains(fx_hash64(r@[i].0@)) by {
                    if i < rbase.len() {
                        assert(r@[i] == rbase[i]);
                        let idx = choose|idx: int| 0 <= idx < t && hs@.subrange(0, t as int)[idx] == fx_hash64(r@[i].0@);
                        assert(hs@.subrange(0, tn)[idx] == fx_hash64(r@[i].0@));
                    } else {
                        let q = i - rbase.len();
                        let j = n - 1 - q;
                        assert(r@[rbase.len() + q] == (gorig.keys@[j], gorig.counts@[j]));
                        lemma_group_index(gorig, h, j);
                        assert(fx_hash64(gorig.keys@[j]@) == h);
                        assert(hs@.subrange(0, tn)[t as int] == h);
                    }
                }
                assert forall|k: Seq<u8>| #[trigger] view0.contains_key(k) && hs@.subrange(0, tn).contains(fx_hash64(k)) implies exists|i: int| 0 <= i < r@.len() && (#[trigger] r@[i]).0@ == k by {
                    let idx = choose|idx: int| 0 <= idx < tn && hs@.subrange(0, tn)[idx] == fx_hash64(k);
                    if idx < t {
                        assert(hs@.subrange(0, t as int)[idx] == fx_hash64(k));
                        let i = choose|i: int| 0 <= i < rbase.len() && (#[trigger] rbase[i]).0@ == k;
                        assert(r@[i] == rbase[i]);
                    } else {
                        assert(fx_hash64(k) == h);
                        let j = choose|j: int| 0 <= j < gorig.keys@.len() && (#[trigger] gorig.keys@[j])@ == k;
                        let q = n - 1 - j;
                        assert(r@[rbase.len() + q].0@ == k);
                    }
                }
                assert forall|i: int, j: int| 0 <= i < j < r@.len() implies (#[trigger] r@[i]).0@ != (#[trigger] r@[j]).0@ by {
                    if j < rbase.len() {
                        assert(r@[i] == rbase[i]);
                        assert(r@[j] == rbase[j]);
                    } else if i < rbase.len() {
                        assert(r@[i] == rbase[i]);
                        let qj = j - rbase.len();
                        assert(r@[rbase.len() + qj] == (gorig.keys@[n - 1 - qj], gorig.counts@[n - 1 - qj]));
                        assert(fx_hash64(gorig.keys@[n - 1 - qj]@) == h);
                        let idx = choose|idx: int| 0 <= idx < t && hs@.subrange(0, t as int)[idx] == fx_hash64(rbase[i].0@);
                        assert(hs@[idx] != hs@[t as int]);
                    } else {
                        let qi = i - rbase.len();
                        let qj = j - rbase.len();
                        assert(r@[rbase.len() + qi] == (gorig.keys@[n - 1 - qi], gorig.counts@[n - 1 - qi]));
                        assert(r@[rbase.len() + qj] == (gorig.keys@[n - 1 - qj], gorig.counts@[n - 1 - qj]));
                        assert(gorig.keys@[n - 1 - qj]@ != gorig.keys@[n - 1 - qi]@);
                    }
                }
                assert forall|hh: u64| #[trigger] groups@.contains_key(hh) == (g0.contains_key(hh) && hs@.subrange(tn, hs@.len() as int).contains(hh)) by {
                    if hs@.subrange(tn, hs@.len() as int).contains(hh) {
                        let idx = choose|idx: int| 0 <= idx < hs@.len() - tn && hs@.subrange(tn, hs@.len() as int)[idx] == hh;
                        assert(hs@.subrange(t as int, hs@.len() as int)[idx + 1] == hh);
                        assert(hs@[tn + idx] != hs@[t as int]);
                    }
                    if hh != h && hs@.subrange(t as int, hs@.len() as int).contains(hh) {
                        let idx = choose|idx: int| 0 <= idx < hs@.len() - t && hs@.subrange(t as int, hs@.len() as int)[idx] == hh;
                        assert(idx != 0);
                        assert(hs@.subrange(tn, hs@.len() as int)[idx - 1] == hh);
                    }
                }
            }
            t += 1;
        }
        proof {
            assert(hs@.subrange(0, hs@.len() as int) =~= hs@);
            assert forall|k: Seq<u8>| #[trigger] view0.contains_key(k) implies exists|i: int| 0 <= i < r@.len() && (#[trigger] r@[i]).0@ == k by {
                assert(g0.contains_key(fx_hash64(k)));
                assert(hs@.to_set().contains(fx_hash64(k)));
                assert(hs@.subrange(0, t as int).contains(fx_hash64(k)));
            }
        }
        r
    }

    /// Adds every count of `other` into `self`, key by key, modulo 2^64.
    pub fn merge(&mut self, other: CountTable)
        requires
            old(self).wf(),
            other.wf(),
        ensures
            final(self).wf(),
            final(self)@ == merged_counts(old(self)@, other@),
    {
        let ghost a = self@;
        let ghost b = other@;
        let entries = other.into_entries();
        let mut i: usize = 0;
        while i < entries.len()
            invariant
                i <= entries@.len(),
                self.wf(),
                forall|j: int| 0 <= j < entries@.len() ==> b.contains_key((#[trigger] entries@[j]).0@) && b[entries@[j].0@] == entries@[j].1,
                forall|k: Seq<u8>| #[trigger] b.contains_key(k) ==> exists|j: int| 0 <= j < entries@.len() && (#[trigger] entries@[j]).0@ == k,
                forall|j: int, l: int| 0 <= j < l < entries@.len() ==> (#[trigger] entries@[j]).0@ != (#[trigger] entries@[l]).0@,
                self@ == merged_counts(a, b.restrict(Set::new(|k: Seq<u8>| exists|j: int| 0 <= j < i && (#[trigger] entries@[j]).0@ == k))),
            decreases entries@.len() - i,
        {
            let ghost before = self@;
            let ghost done = Set::new(|k: Seq<u8>| exists|j: int| 0 <= j < i && (#[trigger] entries@[j]).0@ == k);
            let ghost done2 = Set::new(|k: Seq<u8>| exists|j: int| 0 <= j < i + 1 && (#[trigger] entries@[j]).0@ == k);
            let key = &entries[i].0;
            let v = entries[i].1;
            self.increment(key.as_slice(), 0, v);
            proof {
                let kk = entries@[i as int].0@;
                assert(!done.contains(kk)) by {
                    if done.contains(kk) {
                        let j = choose|j: int| 0 <= j < i && (#[trigger] entries@[j]).0@ == kk;
                        assert(entries@[j].0@ != entries@[i as int].0@);
                    }
                }
                assert forall|k: Seq<u8>| done2.contains(k) == (done.contains(k) || k == kk) by {
                    if done2.contains(k) {
                        let j = choose|j: int| 0 <= j < i + 1 && (#[trigger] entries@[j]).0@ == k;
                        if j < i {
                            assert(done.contains(k));
                        }
                    }
                    if done.contains(k) {
                        let j = choose|j: int| 0 <= j < i && (#[trigger] entries@[j]).0@ == k;
                        assert(entries@[j].0@ == k);
                    }
                    if k == kk {
                        assert(entries@[i as int].0@ == k);
                    }
                }
                assert(self@ =~= merged_counts(a, b.restrict(done2)));
            }
            i += 1;
        }
        proof {
            let done = Set::new(|k: Seq<u8>| exists|j: int| 0 <= j < entries@.len() && (#[trigger] entries@[j]).0@ == k);
            assert(b.restrict(done) =~= b);
        }
    }
}

/// The index of `key` among the keys of `g`, if it is there.
fn find_key(g: &Group, key: &[u8]) -> (r: Option<usize>)
    ensures
        match r {
            Some(i) => i < g.keys@.len() && g.keys@[i as int]@ == key@,
            None => forall|i: int| 0 <= i < g.keys@.len() ==> (#[trigger] g.keys@[i])@ != key@,
        },
{
    let mut i: usize = 0;
    while i < g.keys.len()
        invariant
            i <= g.keys@.len(),
            forall|j: int| 0 <= j < i ==> (#[trigger] g.keys@[j])@ != key@,
        decreases g.keys@.len() - i,
    {
        if bytes_equal(g.keys[i].as_slice(), key) {
            return Some(i);
        }
        i += 1;
    }
    None
}

} // verus!
