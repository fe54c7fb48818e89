//! The final vocabulary: the counted n-grams that reach a minimum count, most frequent
//! first, ties broken by the bytes of the n-gram, cut to a maximum size.

use vstd::prelude::*;
use vstd::multiset::Multiset;

use crate::count_table::CountTable;

verus! {

broadcast use {vstd::seq_lib::group_to_multiset_ensures, vstd::multiset::group_multiset_axioms};

/// Lexicographic order of byte strings, strict: the first differing byte decides, and a
/// proper prefix comes first.
pub open spec fn bytes_lt(a: Seq<u8>, b: Seq<u8>) -> bool
    decreases a.len(),
{
    if b.len() == 0 {
        false
    } else if a.len() == 0 {
        true
    } else if a[0] != b[0] {
        a[0] < b[0]
    } else {
        bytes_lt(a.drop_first(), b.drop_first())
    }
}

/// The order of vocabulary entries: higher count first, then smaller bytes first.
pub open spec fn vocab_le(a: (Seq<u8>, u64), b: (Seq<u8>, u64)) -> bool {
    a.1 > b.1 || (a.1 == b.1 && (bytes_lt(a.0, b.0) || a.0 == b.0))
}

/// Whether `s` is in vocabulary order.
pub open spec fn vocab_sorted(s: Seq<(Seq<u8>, u64)>) -> bool {
    forall|i: int, j: int| 0 <= i < j < s.len() ==> vocab_le(#[trigger] s[i], #[trigger] s[j])
}

/// The abstract view of a list of entries.
pub open spec fn entries_view(v: Seq<(Vec<u8>, u64)>) -> Seq<(Seq<u8>, u64)> {
    v.map_values(|e: (Vec<u8>, u64)| (e.0@, e.1))
}

/// Whether `e` is a key of `m` with its count, and that count reaches `min_count`.
pub open spec fn kept_entry(m: Map<Seq<u8>, u64>, min_count: u64, e: (Seq<u8>, u64)) -> bool {
    m.contains_key(e.0) && m[e.0] == e.1 && e.1 >= min_count
}

proof fn lemma_bytes_lt_irreflexive(a: Seq<u8>)
    ensures
        !bytes_lt(a, a),
    decreases a.len(),
{
    if a.len() > 0 {
        lemma_bytes_lt_irreflexive(a.drop_first());
    }
}

proof fn lemma_bytes_lt_trichotomy(a: Seq<u8>, b: Seq<u8>)
    ensures
        bytes_lt(a, b) || a == b || bytes_lt(b, a),
        !(bytes_lt(a, b) && bytes_lt(b, a)),
    decreases a.len(),
{
    if a.len() == 0 || b.len() == 0 {
        if a.len() == 0 && b.len() == 0 {
            assert(a =~= b);
        }
    } else if a[0] == b[0] {
        lemma_bytes_lt_trichotomy(a.drop_first(), b.drop_first());
        if a.drop_first() == b.drop_first() {
            assert forall|i: int| 0 <= i < a.len() implies a[i] == b[i] by {
                if i > 0 {
                    assert(a[i] == a.drop_first()[i - 1]);
                    assert(b[i] == b.drop_first()[i - 1]);
                }
            }
            assert(a =~= b);
        }
    }
}

proof fn lemma_bytes_lt_transitive(a: Seq<u8>, b: Seq<u8>, c: Seq<u8>)
    requires
        bytes_lt(a, b),
        bytes_lt(b, c),
    ensures
        bytes_lt(a, c),
    decreases a.len(),
{
    if a.len() > 0 && b.len() > 0 && c.len() > 0 && a[0] == b[0] && b[0] == c[0] {
        lemma_bytes_lt_transitive(a.drop_first(), b.drop_first(), c.drop_first());
    }
}

/// The vocabulary order is a total order.
pub proof fn lemma_vocab_le_total_order(a: (Seq<u8>, u64), b: (Seq<u8>, u64), c: (Seq<u8>, u64))
    ensures
        vocab_le(a, a),
        vocab_le(a, b) || vocab_le(b, a),
        vocab_le(a, b) && vocab_le(b, a) ==> a == b,
        vocab_le(a, b) && vocab_le(b, c) ==> vocab_le(a, c),
{
    lemma_bytes_lt_trichotomy(a.0, b.0);
    if vocab_le(a, b) && vocab_le(b, c) && a.1 == b.1 && b.1 == c.1 {
        if bytes_lt(a.0, b.0) && bytes_lt(b.0, c.0) {
            lemma_bytes_lt_transitive(a.0, b.0, c.0);
        }
    }
    if vocab_le(a, b) && vocab_le(b, a) {
        assert(a.0 == b.0);
    }
}

/// Whether `a` comes strictly before `b` in byte order.
pub fn bytes_less(a: &[u8], b: &[u8]) -> (r: bool)
    ensures
        r == bytes_lt(a@, b@),
{
    let mut i: usize = 0;
    assert(a@.skip(0) =~= a@);
    assert(b@.skip(0) =~= b@);
    while i < a.len() && i < b.len()
        invariant
            i <= a@.len(),
            i <= b@.len(),
            bytes_lt(a@, b@) == bytes_lt(a@.skip(i as int), b@.skip(i as int)),
        decreases a@.len() - i,
    {
        if a[i] != b[i] {
            return a[i] < b[i];
        }
        proof {
            assert(a@.skip(i as int).drop_first() =~= a@.skip(i + 1));
            assert(b@.skip(i as int).drop_first() =~= b@.skip(i + 1));
        }
        i += 1;
    }
    i < b.len()
}

/// Whether entry `a` may come before entry `b` in the vocabulary.
fn entry_le(a: &(Vec<u8>, u64), b: &(Vec<u8>, u64)) -> (r: bool)
    ensures
        r == vocab_le((a.0@, a.1), (b.0@, b.1)),
{
    if a.1 != b.1 {
        a.1 > b.1
    } else {
        let lt = bytes_less(a.0.as_slice(), b.0.as_slice());
        if lt {
            true
        } else {
            let gt = bytes_less(b.0.as_slice(), a.0.as_slice());
            proof { lemma_bytes_lt_trichotomy(a.0@, b.0@); }
            !gt
        }
    }
}

proof fn lemma_entries_view_push(v: Seq<(Vec<u8>, u64)>, e: (Vec<u8>, u64))
    ensures
        entries_view(v.push(e)) == entries_view(v).push((e.0@, e.1)),
{
    assert(entries_view(v.push(e)) =~= entries_view(v).push((e.0@, e.1)));
}

proof fn lemma_entries_view_take(v: Seq<(Vec<u8>, u64)>, n: int)
    requires
        0 <= n <= v.len(),
    ensures
        entries_view(v.take(n)) == entries_view(v).take(n),
{
    assert(entries_view(v.take(n)) =~= entries_view(v).take(n));
}

proof fn lemma_multiset_drop_last<A>(s: Seq<A>)
    requires
        s.len() > 0,
    ensures
        s.to_multiset() == s.drop_last().to_multiset().insert(s.last()),
{
    assert(s.drop_last().push(s.last()) =~= s);
}

/// Merges two lists in vocabulary order into one.
fn merge_sorted(a: Vec<(Vec<u8>, u64)>, b: Vec<(Vec<u8>, u64)>) -> (r: Vec<(Vec<u8>, u64)>)
    requires
        vocab_sorted(entries_view(a@)),
        vocab_sorted(entries_view(b@)),
    ensures
        vocab_sorted(entries_view(r@)),
        entries_view(r@).to_multiset() == entries_view(a@).to_multiset().add(entries_view(b@).to_multiset()),
{
    let ghost ea = entries_view(a@);
    let ghost eb = entries_view(b@);
    let mut a = a;
    let mut b = b;
    let mut out: Vec<(Vec<u8>, u64)> = Vec::new();
    while a.len() > 0 || b.len() > 0
        invariant
            vocab_sorted(ea),
            vocab_sorted(eb),
            a@.len() <= ea.len(),
            b@.len() <= eb.len(),
            entries_view(a@) == ea.take(a@.len() as int),
            entries_view(b@) == eb.take(b@.len() as int),
            forall|i: int, j: int| 0 <= i < j < out@.len() ==> vocab_le(#[trigger] entries_view(out@)[j], #[trigger] entries_view(out@)[i]),
            forall|i: int, x: int| 0 <= i < out@.len() && 0 <= x < a@.len() ==> vocab_le(#[trigger] ea[x], #[trigger] entries_view(out@)[i]),
            forall|i: int, x: int| 0 <= i < out@.len() && 0 <= x < b@.len() ==> vocab_le(#[trigger] eb[x], #[trigger] entries_view(out@)[i]),
            entries_view(out@).to_multiset().add(entries_view(a@).to_multiset()).add(entries_view(b@).to_multiset())
                == ea.to_multiset().add(eb.to_multiset()),
        decreases a@.len() + b@.len(),
    {
        let ghost out0 = entries_view(out@);
        let ghost la = a@.len() as int;
        let ghost lb = b@.len() as int;
        let take_a = if a.len() == 0 {
            false
        } else if b.len() == 0 {
            true
        } else {
            entry_le(&b[b.len() - 1], &a[a.len() - 1])
        };
        let ghost y = if take_a { ea[la - 1] } else { eb[lb - 1] };
        let ghost outb = out@;
        if take_a {
            proof {
                assert(entries_view(a@)[la - 1] == y);
                lemma_multiset_drop_last(entries_view(a@));
                assert(entries_view(a@).drop_last() =~= ea.take(la - 1));
            }
            let e = a.pop().unwrap();
            out.push(e);
            proof {
                lemma_entries_view_push(outb, e);
                assert(entries_view(a@) =~= ea.take(la - 1));
                assert forall|x: int| 0 <= x < la implies vocab_le(#[trigger] ea[x], y) by {
                    if x < la - 1 {
                        assert(vocab_le(ea[x], ea[la - 1]));
                    } else {
                        lemma_vocab_le_total_order(y, y, y);
                    }
                }
                assert forall|x: int| 0 <= x < lb implies vocab_le(#[trigger] eb[x], y) by {
                    assert(entries_view(b@)[lb - 1] == eb[lb - 1]);
                    if x < lb - 1 {
                        assert(vocab_le(eb[x], eb[lb - 1]));
                        lemma_vocab_le_total_order(eb[x], eb[lb - 1], y);
                    }
                }
            }
        } else {
            proof {
                assert(entries_view(b@)[lb - 1] == y);
                lemma_multiset_drop_last(entries_view(b@));
                assert(entries_view(b@).drop_last() =~= eb.take(lb - 1));
                if la > 0 {
                    assert(entries_view(a@)[la - 1] == ea[la - 1]);
                    lemma_vocab_le_total_order(eb[lb - 1], ea[la - 1], y);
                }
            }
            let e = b.pop().unwrap();
            out.push(e);
            proof {
                lemma_entries_view_push(outb, e);
                assert(entries_view(b@) =~= eb.take(lb - 1));
                assert forall|x: int| 0 <= x < lb implies vocab_le(#[trigger] eb[x], y) by {
                    if x < lb - 1 {
                        assert(vocab_le(eb[x], eb[lb - 1]));
                    } else {
                        lemma_vocab_le_total_order(y, y, y);
                    }
                }
                assert forall|x: int| 0 <= x < la implies vocab_le(#[trigger] ea[x], y) by {
                    if x < la - 1 {
                        assert(vocab_le(ea[x], ea[la - 1]));
                        lemma_vocab_le_total_order(ea[x], ea[la - 1], y);
                    }
                }
            }
        }
        proof {
            let out1 = entries_view(out@);
            assert(out1 == out0.push(y));
            assert forall|i: int, j: int| 0 <= i < j < out1.len() implies vocab_le(#[trigger] out1[j], #[trigger] out1[i]) by {
                if j == out1.len() - 1 {
                    assert(out1[i] == out0[i]);
                    if take_a {
                        assert(vocab_le(ea[la - 1], out0[i]));
                    } else {
                        assert(vocab_le(eb[lb - 1], out0[i]));
                    }
                } else {
                    assert(out1[i] == out0[i]);
                    assert(out1[j] == out0[j]);
                }
            }
            assert forall|i: int, x: int| 0 <= i < out1.len() && 0 <= x < a@.len() implies vocab_le(#[trigger] ea[x], #[trigger] out1[i]) by {
                if i < out0.len() {
                    assert(out1[i] == out0[i]);
                } else {
                    assert(out1[i] == y);
                }
            }
            assert forall|i: int, x: int| 0 <= i < out1.len() && 0 <= x < b@.len() implies vocab_le(#[trigger] eb[x], #[trigger] out1[i]) by {
                if i < out0.len() {
                    assert(out1[i] == out0[i]);
                } else {
                    assert(out1[i] == y);
                }
            }
            assert(out1.to_multiset() == out0.to_multiset().insert(y));
        }
    }
    proof {
        assert(entries_view(a@).to_multiset() =~= Multiset::empty());
        assert(entries_view(b@).to_multiset() =~= Multiset::empty());
    }
    let ghost out0 = entries_view(out@);
    let n = out.len();
    let mut r: Vec<(Vec<u8>, u64)> = Vec::new();
    while out.len() > 0
        invariant
            n == out0.len(),
            out@.len() + r@.len() == n,
            entries_view(out@) == out0.take(out@.len() as int),
            forall|k: int| 0 <= k < r@.len() ==> #[trigger] entries_view(r@)[k] == out0[n - 1 - k],
            forall|i: int, j: int| 0 <= i < j < n ==> vocab_le(#[trigger] out0[j], #[trigger] out0[i]),
            entries_view(r@).to_multiset().add(entries_view(out@).to_multiset()) == out0.to_multiset(),
        decreases out@.len(),
    {
        let ghost before = entries_view(out@);
        proof {
            lemma_multiset_drop_last(before);
            assert(before.drop_last() =~= out0.take(out@.len() - 1));
        }
        let e = out.pop().unwrap();
        let ghost rb = r@;
        r.push(e);
        proof {
            lemma_entries_view_push(rb, e);
            assert(entries_view(out@) =~= out0.take(out@.len() as int));
            assert(before.last() == (e.0@, e.1));
        }
    }
    proof {
        let er = entries_view(r@);
        assert forall|i: int, j: int| 0 <= i < j < er.len() implies vocab_le(#[trigger] er[i], #[trigger] er[j]) by {
            assert(er[i] == out0[n - 1 - i]);
            assert(er[j] == out0[n - 1 - j]);
        }
        assert(entries_view(out@).to_multiset() =~= Multiset::empty());
    }
    r
}

/// Sorts entries into vocabulary order.
pub fn sort_entries(v: Vec<(Vec<u8>, u64)>) -> (r: Vec<(Vec<u8>, u64)>)
    ensures
        vocab_sorted(entries_view(r@)),
        entries_view(r@).to_multiset() == entries_view(v@).to_multiset(),
    decreases v@.len(),
{
    if v.len() <= 1 {
        proof {
            if v@.len() == 1 {
                lemma_vocab_le_total_order(entries_view(v@)[0], entries_view(v@)[0], entries_view(v@)[0]);
            }
        }
        return v;
    }
    let mut left = v;
    let mid = left.len() / 2;
    let ghost whole = left@;
    let right = left.split_off(mid);
    proof {
        assert(whole =~= left@ + right@);
        assert(entries_view(whole) =~= entries_view(left@) + entries_view(right@));
        vstd::seq_lib::lemma_multiset_commutative(entries_view(left@), entries_view(right@));
    }
    let ls = sort_entries(left);
    let rs = sort_entries(right);
    merge_sorted(ls, rs)
}

/// The entries of `entries` whose count reaches `min_count`, in some order.
fn keep_frequent(entries: Vec<(Vec<u8>, u64)>, min_count: u64) -> (r: Vec<(Vec<u8>, u64)>)
    requires
        forall|i: int, j: int| 0 <= i < j < entries@.len() ==> (#[trigger] entries@[i]).0@ != (#[trigger] entries@[j]).0@,
    ensures
        forall|x: (Seq<u8>, u64)| #[trigger] entries_view(r@).contains(x) <==> (entries_view(entries@).contains(x) && x.1 >= min_count),
        forall|i: int, j: int| 0 <= i < j < r@.len() ==> (#[trigger] r@[i]).0@ != (#[trigger] r@[j]).0@,
{
    let ghost orig = entries@;
    let ghost n = orig.len();
    let mut entries = entries;
    let mut r: Vec<(Vec<u8>, u64)> = Vec::new();
    while entries.len() > 0
        invariant
            n == orig.len(),
            entries@.len() <= n,
            entries@ == orig.take(entries@.len() as int),
            forall|i: int, j: int| 0 <= i < j < n ==> (#[trigger] orig[i]).0@ != (#[trigger] orig[j]).0@,
            forall|x: (Seq<u8>, u64)| #[trigger] entries_view(r@).contains(x) <==> (exists|j: int|
                entries@.len() <= j < n && #[trigger] entries_view(orig)[j] == x) && x.1 >= min_count,
            forall|i: int| 0 <= i < r@.len() ==> exists|j: int| entries@.len() <= j < n && #[trigger] orig[j].0@ == (#[trigger] r@[i]).0@,
            forall|i: int, j: int| 0 <= i < j < r@.len() ==> (#[trigger] r@[i]).0@ != (#[trigger] r@[j]).0@,
        decreases entries@.len(),
    {
        let ghost len0 = entries@.len() as int;
        let ghost rb = r@;
        let e = entries.pop().unwrap();
        proof {
            assert(e == orig[len0 - 1]);
            assert(entries@ =~= orig.take(len0 - 1));
        }
        if e.1 >= min_count {
            r.push(e);
            proof {
                lemma_entries_view_push(rb, e);
                assert forall|i: int, j: int| 0 <= i < j < r@.len() implies (#[trigger] r@[i]).0@ != (#[trigger] r@[j]).0@ by {
                    if j == r@.len() - 1 {
                        assert(r@[i] == rb[i]);
                        let jj = choose|jj: int| len0 <= jj < n && #[trigger] orig[jj].0@ == (#[trigger] rb[i]).0@;
                        assert(orig[len0 - 1].0@ != orig[jj].0@);
                    } else {
                        assert(r@[i] == rb[i]);
                        assert(r@[j] == rb[j]);
                    }
                }
                assert forall|i: int| 0 <= i < r@.len() implies exists|j: int| len0 - 1 <= j < n && #[trigger] orig[j].0@ == (#[trigger] r@[i]).0@ by {
                    if i < rb.len() {
                        assert(r@[i] == rb[i]);
                        let jj = choose|jj: int| len0 <= jj < n && #[trigger] orig[jj].0@ == (#[trigger] rb[i]).0@;
                        assert(orig[jj].0@ == r@[i].0@);
                    } else {
                        assert(orig[len0 - 1].0@ == r@[i].0@);
                    }
                }
            }
        } else {
            proof {
                assert forall|i: int| 0 <= i < r@.len() implies exists|j: int| len0 - 1 <= j < n && #[trigger] orig[j].0@ == (#[trigger] r@[i]).0@ by {
                    let jj = choose|jj: int| len0 <= jj < n && #[trigger] orig[jj].0@ == (#[trigger] r@[i]).0@;
                    assert(orig[jj].0@ == r@[i].0@);
                }
            }
        }
        proof {
            let ev = entries_view(orig);
            assert forall|x: (Seq<u8>, u64)| #[trigger] entries_view(r@).contains(x) <==> (exists|j: int|
                len0 - 1 <= j < n && #[trigger] ev[j] == x) && x.1 >= min_count by {
                if exists|j: int| len0 - 1 <= j < n && #[trigger] ev[j] == x {
                    let j = choose|j: int| len0 - 1 <= j < n && #[trigger] ev[j] == x;
                    if j == len0 - 1 {
                        if x.1 >= min_count {
                            assert(entries_view(r@)[r@.len() - 1] == x);
                        }
                    } else {
                        if x.1 >= min_count {
                            assert(entries_view(rb).contains(x));
                            let k = choose|k: int| 0 <= k < rb.len() && entries_view(rb)[k] == x;
                            assert(entries_view(r@)[k] == x);
                        }
                    }
                }
                if entries_view(r@).contains(x) {
                    let k = choose|k: int| 0 <= k < r@.len() && entries_view(r@)[k] == x;
                    if k < rb.len() {
                        assert(entries_view(rb)[k] == x);
                        assert(entries_view(rb).contains(x));
                        let j = choose|j: int| len0 <= j < n && #[trigger] ev[j] == x;
                        assert(len0 - 1 <= j < n && ev[j] == x);
                    } else {
                        assert(ev[len0 - 1] == x);
                    }
                }
            }
        }
    }
    proof {
        let ev = entries_view(orig);
        assert forall|x: (Seq<u8>, u64)| #[trigger] entries_view(r@).contains(x) <==> (ev.contains(x) && x.1 >= min_count) by {
            if ev.contains(x) {
                let j = choose|j: int| 0 <= j < ev.len() && ev[j] == x;
                assert(0 <= j < n && ev[j] == x);
            }
        }
    }
    r
}

/// The vocabulary of a list of entries that holds each key once: the entries whose count
/// reaches `min_count`, most frequent first and, among equal counts, in byte order,
/// keeping only the first `max_vocab` of them unless `max_vocab` is 0.
pub fn vocab_from_entries(entries: Vec<(Vec<u8>, u64)>, min_count: u64, max_vocab: usize) -> (r: Vec<(Vec<u8>, u64)>)
    requires
        forall|i: int, j: int| 0 <= i < j < entries@.len() ==> (#[trigger] entries@[i]).0@ != (#[trigger] entries@[j]).0@,
    ensures
        vocab_sorted(entries_view(r@)),
        forall|i: int| 0 <= i < r@.len() ==> entries_view(entries@).contains(#[trigger] entries_view(r@)[i]) && entries_view(r@)[i].1 >= min_count,
        forall|i: int, j: int| 0 <= i < j < r@.len() ==> (#[trigger] r@[i]).0@ != (#[trigger] r@[j]).0@,
        max_vocab > 0 ==> r@.len() <= max_vocab,
        forall|e: (Seq<u8>, u64)| #[trigger] entries_view(entries@).contains(e) && e.1 >= min_count && !entries_view(r@).contains(e) ==> {
            &&& max_vocab > 0
            &&& r@.len() == max_vocab
            &&& forall|i: int| 0 <= i < r@.len() ==> vocab_le(#[trigger] entries_view(r@)[i], e)
        },
{
    let ghost ev0 = entries_view(entries@);
    let frequent = keep_frequent(entries, min_count);
    let ghost ef = entries_view(frequent@);
    let mut sorted = sort_entries(frequent);
    let ghost es = entries_view(sorted@);
    proof {
        // the sorted entries hold each pair once, and each key once
        assert(ef.no_duplicates()) by {
            assert forall|i: int, j: int| 0 <= i < ef.len() && 0 <= j < ef.len() && i != j implies ef[i] != ef[j] by {
                if i < j {
                    assert(frequent@[i].0@ != frequent@[j].0@);
                } else {
                    assert(frequent@[j].0@ != frequent@[i].0@);
                }
            }
        }
        ef.lemma_multiset_has_no_duplicates();
        es.lemma_multiset_has_no_duplicates_conv();
        assert forall|x: (Seq<u8>, u64)| #[trigger] es.contains(x) <==> ef.contains(x) by {
            assert(es.to_multiset().count(x) == ef.to_multiset().count(x));
        }
        assert forall|i: int, j: int| 0 <= i < j < es.len() implies (#[trigger] es[i]).0 != (#[trigger] es[j]).0 by {
            assert(es.contains(es[i]));
            assert(es.contains(es[j]));
            let p = choose|p: int| 0 <= p < ef.len() && ef[p] == es[i];
            let q = choose|q: int| 0 <= q < ef.len() && ef[q] == es[j];
            if es[i].0 == es[j].0 {
                if p < q {
                    assert(frequent@[p].0@ != frequent@[q].0@);
                } else if q < p {
                    assert(frequent@[q].0@ != frequent@[p].0@);
                }
                assert(es[i] == es[j]);
            }
        }
    }
    if max_vocab > 0 {
        sorted.truncate(max_vocab);
    }
    proof {
        let er = entries_view(sorted@);
        let k = sorted@.len() as int;
        assert(er =~= es.take(k));
        assert forall|i: int| 0 <= i < sorted@.len() implies ev0.contains(#[trigger] er[i]) && er[i].1 >= min_count by {
            assert(er[i] == es[i]);
            assert(es.contains(es[i]));
            assert(ef.contains(es[i]));
        }
        assert forall|i: int, j: int| 0 <= i < j < sorted@.len() implies (#[trigger] sorted@[i]).0@ != (#[trigger] sorted@[j]).0@ by {
            assert(er[i] == es[i]);
            assert(er[j] == es[j]);
        }
        assert forall|e: (Seq<u8>, u64)| #[trigger] ev0.contains(e) && e.1 >= min_count && !er.contains(e) implies {
            &&& max_vocab > 0
            &&& sorted@.len() == max_vocab
            &&& forall|i: int| 0 <= i < sorted@.len() ==> vocab_le(#[trigger] er[i], e)
        } by {
            assert(ef.contains(e));
            assert(es.contains(e));
            let p = choose|p: int| 0 <= p < es.len() && es[p] == e;
            if p < k {
                assert(er[p] == e);
            }
            assert forall|i: int| 0 <= i < sorted@.len() implies vocab_le(#[trigger] er[i], e) by {
                assert(er[i] == es[i]);
            }
        }
    }
    sorted
}

/// The vocabulary of a count table: the entries whose count reaches `min_count`, most
/// frequent first and, among equal counts, in byte order, keeping only the first
/// `max_vocab` of them unless `max_vocab` is 0.
pub fn build_vocab(table: CountTable, min_count: u64, max_vocab: usize) -> (r: Vec<(Vec<u8>, u64)>)
    requires
        table.wf(),
    ensures
        vocab_sorted(entries_view(r@)),
        forall|i: int| 0 <= i < r@.len() ==> kept_entry(table@, min_count, #[trigger] entries_view(r@)[i]),
        forall|i: int, j: int| 0 <= i < j < r@.len() ==> (#[trigger] r@[i]).0@ != (#[trigger] r@[j]).0@,
        max_vocab > 0 ==> r@.len() <= max_vocab,
        forall|e: (Seq<u8>, u64)| #[trigger] kept_entry(table@, min_count, e) && !entries_view(r@).contains(e) ==> {
            &&& max_vocab > 0
            &&& r@.len() == max_vocab
            &&& forall|i: int| 0 <= i < r@.len() ==> vocab_le(#[trigger] entries_view(r@)[i], e)
        },
{
    let ghost m = table@;
    let entries = table.into_entries();
    let ghost ev0 = entries_view(entries@);
    proof {
        assert forall|e: (Seq<u8>, u64)| kept_entry(m, min_count, e) <==> (#[trigger] ev0.contains(e) && e.1 >= min_count) by {
            if kept_entry(m, min_count, e) {
                let j = choose|j: int| 0 <= j < entries@.len() && (#[trigger] entries@[j]).0@ == e.0;
                assert(ev0[j] == e);
            }
            if ev0.contains(e) {
                let j = choose|j: int| 0 <= j < ev0.len() && ev0[j] == e;
                assert(ev0[j] == (entries@[j].0@, entries@[j].1));
            }
        }
    }
    let r = vocab_from_entries(entries, min_count, max_vocab);
    proof {
        assert forall|i: int| 0 <= i < r@.len() implies kept_entry(m, min_count, #[trigger] entries_view(r@)[i]) by {
            assert(ev0.contains(entries_view(r@)[i]));
        }
        assert forall|e: (Seq<u8>, u64)| #[trigger] kept_entry(m, min_count, e) && !entries_view(r@).contains(e) implies {
            &&& max_vocab > 0
            &&& r@.len() == max_vocab
            &&& forall|i: int| 0 <= i < r@.len() ==> vocab_le(#[trigger] entries_view(r@)[i], e)
        } by {
            assert(ev0.contains(e) && e.1 >= min_count);
        }
    }
    r
}

/// The number of windows among the first `n` of `tok` (each `sep.len()` bytes long,
/// starting at successive positions) that equal `sep`.
pub open spec fn matching_windows(tok: Seq<u8>, sep: Seq<u8>, n: nat) -> nat
    decreases n,
{
    if n == 0 {
        0
    } else {
        matching_windows(tok, sep, (n - 1) as nat) + if tok.subrange(n - 1, n - 1 + sep.len()) == sep {
            1nat
        } else {
            0nat
        }
    }
}

/// The number of places where `sep` occurs in `tok`, overlapping occurrences included.
pub open spec fn separator_count(tok: Seq<u8>, sep: Seq<u8>) -> nat {
    if tok.len() < sep.len() {
        0
    } else {
        matching_windows(tok, sep, (tok.len() - sep.len() + 1) as nat)
    }
}

/// The number of entries among the first `n` whose n-gram holds `seps` separators.
pub open spec fn entries_with_separators(items: Seq<(Seq<u8>, u64)>, sep: Seq<u8>, seps: int, n: nat) -> nat
    decreases n,
{
    if n == 0 {
        0
    } else {
        entries_with_separators(items, sep, seps, (n - 1) as nat) + if separator_count(items[n - 1].0, sep) == seps {
            1nat
        } else {
            0nat
        }
    }
}

/// The number of places where `sep` occurs in `tok`, overlapping occurrences included.
pub fn count_separators(tok: &[u8], sep: &[u8]) -> (r: usize)
    requires
        sep@.len() > 0,
    ensures
        r == separator_count(tok@, sep@),
{
    if tok.len() < sep.len() {
        return 0;
    }
    let tl = tok.len();
    let windows = tl - sep.len() + 1;
    let mut count: usize = 0;
    let mut i: usize = 0;
    while i < windows
        invariant
            windows == tok@.len() - sep@.len() + 1,
            tl == tok@.len(),
            sep@.len() <= tok@.len(),
            i <= windows,
            count == matching_windows(tok@, sep@, i as nat),
            count <= i,
        decreases windows - i,
    {
        let mut k: usize = 0;
        let mut same = true;
        while k < sep.len()
            invariant
                i < windows,
                windows == tok@.len() - sep@.len() + 1,
                tl == tok@.len(),
                k <= sep@.len(),
                same == forall|m: int| 0 <= m < k ==> tok@[i + m] == sep@[m],
            decreases sep@.len() - k,
        {
            if tok[i + k] != sep[k] {
                same = false;
            }
            k += 1;
        }
        proof {
            if same {
                assert(tok@.subrange(i as int, i + sep@.len()) =~= sep@);
            } else {
                let m = choose|m: int| 0 <= m < sep@.len() && tok@[i + m] != sep@[m];
                assert(tok@.subrange(i as int, i + sep@.len())[m] == tok@[i + m]);
            }
        }
        if same {
            count += 1;
        }
        i += 1;
    }
    count
}

/// The number of vocabulary entries whose n-gram holds exactly `n - 1` occurrences of the
/// separator `sep`, that is the entries of `n` words when the words hold no separator.
pub fn count_entries_of_size(items: &[(Vec<u8>, u64)], sep: &[u8], n: usize) -> (r: usize)
    requires
        sep@.len() > 0,
    ensures
        r == entries_with_separators(entries_view(items@), sep@, n - 1, items@.len() as nat),
{
    let mut count: usize = 0;
    let mut i: usize = 0;
    while i < items.len()
        invariant
            i <= items@.len(),
            sep@.len() > 0,
            count == entries_with_separators(entries_view(items@), sep@, n - 1, i as nat),
            count <= i,
        decreases items@.len() - i,
    {
        let c = count_separators(items[i].0.as_slice(), sep);
        assert(entries_view(items@)[i as int].0 == items@[i as int].0@);
        if n >= 1 && c == n - 1 {
            count += 1;
        }
        i += 1;
    }
    count
}

/// The name of the n-grams of `n` words in the statistics: pairs, triples, quadruples,
/// and a general name for the other sizes.
pub fn ngram_label(n: usize) -> (r: &'static str)
    ensures
        n == 2 ==> r@ == "пары"@,
        n == 3 ==> r@ == "тройки"@,
        n == 4 ==> r@ == "четвёрки"@,
        n != 2 && n != 3 && n != 4 ==> r@ == "n-граммы"@,
{
    match n {
        2 => "пары",
        3 => "тройки",
        4 => "четвёрки",
        _ => "n-граммы",
    }
}

/// Byte order: `a` comes strictly before `b` exactly when, at the first index where they
/// differ, `a` has the smaller byte, or when `a` is a proper prefix of `b`.
pub proof fn lemma_bytes_lt_first_difference(a: Seq<u8>, b: Seq<u8>)
    ensures
        bytes_lt(a, b) <==> (
            (exists|i: int| 0 <= i < a.len() && i < b.len() && a.take(i) == b.take(i) && #[trigger] a[i] < b[i])
            || (a.len() < b.len() && b.take(a.len() as int) == a)
        ),
    decreases a.len(),
{
    if a.len() == 0 || b.len() == 0 {
        if a.len() == 0 && b.len() > 0 {
            assert(b.take(0) =~= a);
        }
    } else if a[0] != b[0] {
        if a[0] < b[0] {
            assert(a.take(0) =~= b.take(0));
            assert(a[0] < b[0]);
        } else {
            if exists|i: int| 0 <= i < a.len() && i < b.len() && a.take(i) == b.take(i) && #[trigger] a[i] < b[i] {
                let i = choose|i: int| 0 <= i < a.len() && i < b.len() && a.take(i) == b.take(i) && #[trigger] a[i] < b[i];
                if i > 0 {
                    assert(a.take(i)[0] == b.take(i)[0]);
                }
            }
            if a.len() < b.len() && b.take(a.len() as int) == a {
                assert(b.take(a.len() as int)[0] == b[0]);
            }
        }
    } else {
        let a1 = a.drop_first();
        let b1 = b.drop_first();
        lemma_bytes_lt_first_difference(a1, b1);
        if exists|i: int| 0 <= i < a1.len() && i < b1.len() && a1.take(i) == b1.take(i) && #[trigger] a1[i] < b1[i] {
            let i = choose|i: int| 0 <= i < a1.len() && i < b1.len() && a1.take(i) == b1.take(i) && #[trigger] a1[i] < b1[i];
            assert forall|j: int| 0 <= j < i + 1 implies #[trigger] a.take(i + 1)[j] == b.take(i + 1)[j] by {
                if j > 0 {
                    assert(a1.take(i)[j - 1] == b1.take(i)[j - 1]);
                }
            }
            assert(a.take(i + 1) =~= b.take(i + 1));
            assert(a[i + 1] == a1[i]);
        }
        if exists|i: int| 0 <= i < a.len() && i < b.len() && a.take(i) == b.take(i) && #[trigger] a[i] < b[i] {
            let i = choose|i: int| 0 <= i < a.len() && i < b.len() && a.take(i) == b.take(i) && #[trigger] a[i] < b[i];
            assert(i > 0);
            assert forall|j: int| 0 <= j < i - 1 implies #[trigger] a1.take(i - 1)[j] == b1.take(i - 1)[j] by {
                assert(a.take(i)[j + 1] == b.take(i)[j + 1]);
            }
            assert(a1.take(i - 1) =~= b1.take(i - 1));
            assert(a1[i - 1] == a[i]);
        }
        if a1.len() < b1.len() && b1.take(a1.len() as int) == a1 {
            assert forall|j: int| 0 <= j < a.len() implies #[trigger] b.take(a.len() as int)[j] == a[j] by {
                if j > 0 {
                    assert(b1.take(a1.len() as int)[j - 1] == a1[j - 1]);
                }
            }
            assert(b.take(a.len() as int) =~= a);
        }
        if a.len() < b.len() && b.take(a.len() as int) == a {
            assert forall|j: int| 0 <= j < a1.len() implies #[trigger] b1.take(a1.len() as int)[j] == a1[j] by {
                assert(b.take(a.len() as int)[j + 1] == a[j + 1]);
            }
            assert(b1.take(a1.len() as int) =~= a1);
        }
    }
}

/// The vocabulary order: a higher count comes first; among equal counts, the n-gram whose
/// bytes come first in byte order comes first.
pub proof fn lemma_vocab_order(a: (Seq<u8>, u64), b: (Seq<u8>, u64))
    ensures
        a.1 > b.1 ==> vocab_le(a, b) && !vocab_le(b, a),
        a.1 == b.1 ==> (vocab_le(a, b) <==> (a.0 == b.0 || bytes_lt(a.0, b.0))),
{
    lemma_bytes_lt_trichotomy(a.0, b.0);
}

/// An entry is kept in the vocabulary when it is a key of the table with its count and
/// that count is at least `min_count`.
pub proof fn lemma_kept_entry(m: Map<Seq<u8>, u64>, min_count: u64, e: (Seq<u8>, u64))
    ensures
        kept_entry(m, min_count, e) <==> (m.contains_key(e.0) && m[e.0] == e.1 && e.1 >= min_count),
{
}

} // verus!
