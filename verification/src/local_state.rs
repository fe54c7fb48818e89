//! The counting state of one worker: a bloom filter of the n-grams seen once, and the
//! counts of the n-grams seen more than once.

use vstd::prelude::*;
use vstd::utf8::encode_utf8;

use crate::bloom::{
    lemma_inserted_is_set,
    lemma_inserted_item_is_contained,
    lemma_insertion_keeps_contained,
    lemma_unioned_is_set,
    BloomFilter,
    BloomView,
};
use crate::count_table::{incremented, merged_counts, wrapping_sum, CountTable};
use crate::json_text::{extract_text_fast, field_text, has_field_text};
use crate::ngrams::{all_grams, join, lemma_all_grams_has_windows, word_ngrams};
use crate::words::{extract_words, words_of};

verus! {

broadcast use vstd::string::group_string_axioms;

/// The abstract state of a worker: its filter and its counts.
pub struct LocalView {
    pub bloom: BloomView,
    pub counts: Map<Seq<u8>, u64>,
}

impl LocalView {
    pub open spec fn well_formed(self) -> bool {
        self.bloom.well_formed()
    }
}

/// The state after observing `key`: a key that the filter already reports is counted
/// (starting from 1, so that its first count is 2); any other key goes into the filter.
pub open spec fn observed(s: LocalView, key: Seq<u8>) -> LocalView {
    if s.bloom.contains(key) {
        LocalView { bloom: s.bloom, counts: s.counts.insert(key, incremented(s.counts, key, 1, 1)) }
    } else {
        LocalView { bloom: s.bloom.inserted(key), counts: s.counts }
    }
}

/// The state after observing each of `keys` in order.
pub open spec fn observed_all(s: LocalView, keys: Seq<Seq<u8>>) -> LocalView
    decreases keys.len(),
{
    if keys.len() == 0 {
        s
    } else {
        observed(observed_all(s, keys.drop_last()), keys.last())
    }
}

/// The text of a line that words are taken from: the text of the JSON field `field` when
/// the line starts with `{` and holds that field, and the whole line otherwise.
pub open spec fn line_text(line: Seq<char>, field: Seq<char>) -> Seq<char> {
    if line.len() > 0 && line[0] == '{' && has_field_text(line, field) {
        field_text(line, field)
    } else {
        line
    }
}

/// The n-grams of one line, in the order they are observed; none when the text is empty
/// or has fewer than `min_n` words.
pub open spec fn line_grams(
    line: Seq<char>,
    field: Seq<char>,
    lowercase: bool,
    min_word_len: nat,
    ns: Seq<usize>,
    sep: Seq<char>,
    min_n: nat,
) -> Seq<Seq<u8>> {
    let text = line_text(line, field);
    let words = words_of(text, lowercase, min_word_len);
    if text.len() == 0 || words.len() < min_n {
        Seq::empty()
    } else {
        all_grams(words, ns, sep)
    }
}

/// The n-grams of a run of lines, line by line.
pub open spec fn lines_grams(
    lines: Seq<Seq<char>>,
    field: Seq<char>,
    lowercase: bool,
    min_word_len: nat,
    ns: Seq<usize>,
    sep: Seq<char>,
    min_n: nat,
) -> Seq<Seq<u8>>
    decreases lines.len(),
{
    if lines.len() == 0 {
        Seq::empty()
    } else {
        lines_grams(lines.drop_last(), field, lowercase, min_word_len, ns, sep, min_n) + line_grams(
            lines.last(),
            field,
            lowercase,
            min_word_len,
            ns,
            sep,
            min_n,
        )
    }
}

/// Observing two runs of keys one after the other is observing their concatenation.
pub proof fn lemma_observed_all_concat(s: LocalView, a: Seq<Seq<u8>>, b: Seq<Seq<u8>>)
    ensures
        observed_all(s, a + b) == observed_all(observed_all(s, a), b),
    decreases b.len(),
{
    if b.len() == 0 {
        assert(a + b =~= a);
    } else {
        assert((a + b).drop_last() =~= a + b.drop_last());
        assert((a + b).last() == b.last());
        lemma_observed_all_concat(s, a, b.drop_last());
    }
}

proof fn lemma_observed_keeps_well_formed(s: LocalView, key: Seq<u8>)
    requires
        s.well_formed(),
    ensures
        observed(s, key).well_formed(),
        observed(s, key).bloom.same_shape(s.bloom),
        s.bloom.contains(key) ==> observed(s, key).bloom == s.bloom,
{
    if !s.bloom.contains(key) {
        lemma_inserted_is_set(s.bloom, key, 0);
    }
}

/// Observing never removes an item from the filter.
pub proof fn lemma_observed_keeps_contained(s: LocalView, key: Seq<u8>, other: Seq<u8>)
    requires
        s.well_formed(),
        s.bloom.contains(other),
    ensures
        observed(s, key).bloom.contains(other),
{
    if !s.bloom.contains(key) {
        lemma_insertion_keeps_contained(s.bloom, key, other);
    }
}

/// The number of times `k` occurs in `keys`.
pub open spec fn occurrences(keys: Seq<Seq<u8>>, k: Seq<u8>) -> nat
    decreases keys.len(),
{
    if keys.len() == 0 {
        0
    } else {
        occurrences(keys.drop_last(), k) + if keys.last() == k { 1nat } else { 0nat }
    }
}

/// Whether, when `k` is first observed in `keys` (starting from `s`), the filter already
/// reports it: a false positive of the filter.
pub open spec fn false_positive_at_first(s: LocalView, keys: Seq<Seq<u8>>, k: Seq<u8>) -> bool
    decreases keys.len(),
{
    if keys.len() == 0 {
        false
    } else if keys.last() == k && occurrences(keys.drop_last(), k) == 0 {
        observed_all(s, keys.drop_last()).bloom.contains(k)
    } else {
        false_positive_at_first(s, keys.drop_last(), k)
    }
}

/// The count that observing `keys` from a state without `k` leads to for `k`: its number
/// of occurrences, plus one when its first observation was a false positive of the filter.
pub open spec fn expected_count(s: LocalView, keys: Seq<Seq<u8>>, k: Seq<u8>) -> nat {
    occurrences(keys, k) + if false_positive_at_first(s, keys, k) { 1nat } else { 0nat }
}

/// Counting follows occurrences: starting from a state that holds no count for `k`,
/// after observing `keys` the count of `k` is `expected_count` (modulo 2^64) when that is
/// at least 2, and there is no count for `k` otherwise. Once `k` has been observed, the
/// filter reports it.
pub proof fn lemma_count_follows_occurrences(s: LocalView, keys: Seq<Seq<u8>>, k: Seq<u8>)
    requires
        s.well_formed(),
        !s.counts.contains_key(k),
    ensures
        observed_all(s, keys).well_formed(),
        expected_count(s, keys, k) >= 2 ==> observed_all(s, keys).counts.contains_key(k)
            && observed_all(s, keys).counts[k] as int == expected_count(s, keys, k) as int % 0x1_0000_0000_0000_0000int,
        expected_count(s, keys, k) < 2 ==> !observed_all(s, keys).counts.contains_key(k),
        occurrences(keys, k) >= 1 ==> observed_all(s, keys).bloom.contains(k),
    decreases keys.len(),
{
    if keys.len() > 0 {
        let p = keys.drop_last();
        let x = keys.last();
        lemma_count_follows_occurrences(s, p, k);
        let st = observed_all(s, p);
        lemma_observed_keeps_well_formed(st, x);
        let post = observed(st, x);
        assert(observed_all(s, keys) == post);
        if x != k {
            assert(post.counts.contains_key(k) == st.counts.contains_key(k));
            if st.counts.contains_key(k) {
                assert(post.counts[k] == st.counts[k]);
            }
            if occurrences(p, k) >= 1 {
                lemma_observed_keeps_contained(st, x, k);
            }
        } else {
            if occurrences(p, k) == 0 {
                if !st.bloom.contains(k) {
                    lemma_inserted_item_is_contained(st.bloom, k);
                }
            } else {
                assert(st.bloom.contains(k));
                let c = expected_count(s, p, k);
                assert(expected_count(s, keys, k) == c + 1);
                if c >= 2 {
                    assert(post.counts[k] == wrapping_sum(st.counts[k], 1));
                    vstd::arithmetic::div_mod::lemma_add_mod_noop(c as int, 1, 0x1_0000_0000_0000_0000int);
                } else {
                    assert(post.counts[k] == wrapping_sum(1, 1));
                }
            }
        }
    }
}

/// What one line contributes: when the line's text is not empty and has at least `min_n`
/// words, every window of `ns[q]` consecutive words, for every size `ns[q]` in the list,
/// joined by `sep`, is observed, and the n-grams observed are those of all sizes in `ns`;
/// otherwise nothing is observed.
pub proof fn lemma_line_grams_windows(
    line: Seq<char>,
    field: Seq<char>,
    lowercase: bool,
    min_word_len: nat,
    ns: Seq<usize>,
    sep: Seq<char>,
    min_n: nat,
    q: int,
    start: int,
)
    ensures
        ({
            let text = line_text(line, field);
            let words = words_of(text, lowercase, min_word_len);
            let grams = line_grams(line, field, lowercase, min_word_len, ns, sep, min_n);
            &&& (text.len() == 0 || words.len() < min_n) ==> grams.len() == 0
            &&& (text.len() > 0 && words.len() >= min_n) ==> grams == all_grams(words, ns, sep)
            &&& (text.len() > 0 && words.len() >= min_n && 0 <= q < ns.len() && 0 <= start && start + ns[q] <= words.len())
                ==> grams.contains(encode_utf8(join(words.subrange(start, start + ns[q]), sep)))
        }),
{
    let text = line_text(line, field);
    let words = words_of(text, lowercase, min_word_len);
    if text.len() > 0 && words.len() >= min_n && 0 <= q < ns.len() && 0 <= start && start + ns[q] <= words.len() {
        lemma_all_grams_has_windows(words, ns, sep, q, start);
    }
}

/// The counting state of one worker.
pub struct ThreadLocal {
    bloom: BloomFilter,
    map: CountTable,
}

impl View for ThreadLocal {
    type V = LocalView;

    closed spec fn view(&self) -> LocalView {
        LocalView { bloom: self.bloom@, counts: self.map@ }
    }
}

/// Whether the string starts with `{`.
fn starts_with_brace(line: &str) -> (r: bool)
    ensures
        r == (line@.len() > 0 && line@[0] == '{'),
{
    let mut it = line.chars();
    match it.next() {
        Some(c) => c == '{',
        None => false,
    }
}

impl ThreadLocal {
    pub closed spec fn wf(&self) -> bool {
        self.bloom@.well_formed() && self.map.wf()
    }

    /// A state with the given (empty or not) filter and no counts.
    pub fn new(bloom: BloomFilter) -> (t: ThreadLocal)
        requires
            bloom@.well_formed(),
        ensures
            t.wf(),
            t@ == (LocalView { bloom: bloom@, counts: Map::empty() }),
    {
        ThreadLocal { bloom, map: CountTable::new() }
    }

    /// Observes one n-gram: counts it when the filter reports it, and otherwise puts it
    /// into the filter.
    pub fn observe(&mut self, key: &[u8])
        requires
            old(self).wf(),
        ensures
            final(self).wf(),
            final(self)@ == observed(old(self)@, key@),
    {
        if self.bloom.contains(key) {
            self.map.increment(key, 1, 1);
        } else {
            self.bloom.insert(key);
            proof { lemma_inserted_is_set(old(self)@.bloom, key@, 0); }
        }
    }

    /// Observes the n-grams of one line: the text is the JSON field `field` when the line
    /// starts with `{` and holds it, the whole line otherwise; lines with an empty text or
    /// fewer than `min_n` words are skipped.
    pub fn process_line(
        &mut self,
        line: &str,
        field: &str,
        lowercase: bool,
        min_word_len: usize,
        ns: &[usize],
        sep: &str,
        min_n: usize,
    )
        requires
            old(self).wf(),
        ensures
            final(self).wf(),
            final(self)@ == observed_all(
                old(self)@,
                line_grams(line@, field@, lowercase, min_word_len as nat, ns@, sep@, min_n as nat),
            ),
    {
        let ghost grams_spec = line_grams(line@, field@, lowercase, min_word_len as nat, ns@, sep@, min_n as nat);
        let text: &str = if starts_with_brace(line) {
            match extract_text_fast(line, field) {
                Some(t) => t,
                None => line,
            }
        } else {
            line
        };
        assert(text@ == line_text(line@, field@));
        if text.is_empty() {
            assert(grams_spec =~= Seq::<Seq<u8>>::empty());
            return;
        }
        let words = extract_words(text, lowercase, min_word_len);
        if words.len() < min_n {
            assert(grams_spec =~= Seq::<Seq<u8>>::empty());
            return;
        }
        let grams = word_ngrams(words.as_slice(), ns, sep);
        let ghost gs = grams@.map_values(|g: Vec<u8>| g@);
        assert(gs == grams_spec);
        let ghost s0 = self@;
        let mut i: usize = 0;
        while i < grams.len()
            invariant
                i <= grams@.len(),
                gs == grams@.map_values(|g: Vec<u8>| g@),
                self.wf(),
                self@ == observed_all(s0, gs.take(i as int)),
            decreases grams@.len() - i,
        {
            self.observe(grams[i].as_slice());
            proof {
                assert(gs.take(i + 1).drop_last() =~= gs.take(i as int));
                assert(gs.take(i + 1).last() == grams@[i as int]@);
            }
            i += 1;
        }
        assert(gs.take(grams@.len() as int) =~= gs);
    }

    /// Observes the n-grams of each line in turn.
    pub fn process_chunk(
        &mut self,
        lines: &[String],
        field: &str,
        lowercase: bool,
        min_word_len: usize,
        ns: &[usize],
        sep: &str,
        min_n: usize,
    )
        requires
            old(self).wf(),
        ensures
            final(self).wf(),
            final(self)@ == observed_all(
                old(self)@,
                lines_grams(
                    lines@.map_values(|l: String| l@),
                    field@,
                    lowercase,
                    min_word_len as nat,
                    ns@,
                    sep@,
                    min_n as nat,
                ),
            ),
    {
        let ghost ls = lines@.map_values(|l: String| l@);
        let ghost s0 = self@;
        let mut i: usize = 0;
        while i < lines.len()
            invariant
                i <= lines@.len(),
                ls == lines@.map_values(|l: String| l@),
                self.wf(),
                self@ == observed_all(
                    s0,
                    lines_grams(ls.take(i as int), field@, lowercase, min_word_len as nat, ns@, sep@, min_n as nat),
                ),
            decreases lines@.len() - i,
        {
            let ghost before = self@;
            self.process_line(lines[i].as_str(), field, lowercase, min_word_len, ns, sep, min_n);
            proof {
                let prev = lines_grams(ls.take(i as int), field@, lowercase, min_word_len as nat, ns@, sep@, min_n as nat);
                let cur = line_grams(lines@[i as int]@, field@, lowercase, min_word_len as nat, ns@, sep@, min_n as nat);
                assert(ls.take(i + 1).drop_last() =~= ls.take(i as int));
                assert(ls.take(i + 1).last() == lines@[i as int]@);
                lemma_observed_all_concat(s0, prev, cur);
            }
            i += 1;
        }
        assert(ls.take(lines@.len() as int) =~= ls);
    }

    /// Folds another worker's state into this one: the filters are ORed word by word and
    /// the counts are added key by key (modulo 2^64).
    pub fn merge(&mut self, other: ThreadLocal)
        requires
            old(self).wf(),
            other.wf(),
        ensures
            final(self).wf(),
            final(self)@ == (LocalView {
                bloom: old(self)@.bloom.unioned(other@.bloom),
                counts: merged_counts(old(self)@.counts, other@.counts),
            }),
    {
        let ThreadLocal { bloom: other_bloom, map: other_map } = other;
        self.bloom.union_with(&other_bloom);
        proof { lemma_unioned_is_set(old(self)@.bloom, other_bloom@, 0); }
        self.map.merge(other_map);
    }

    /// The filter.
    pub fn bloom(&self) -> (r: &BloomFilter)
        ensures
            r@ == self@.bloom,
    {
        &self.bloom
    }

    /// The count table, taking the state apart.
    pub fn into_counts(self) -> (r: CountTable)
        requires
            self.wf(),
        ensures
            r.wf(),
            r@ == self@.counts,
    {
        self.map
    }
}

} // verus!
