//! Word n-grams: runs of consecutive words joined by a separator, as UTF-8 bytes.

use vstd::prelude::*;
use vstd::utf8::encode_utf8;

use crate::words::strings_view;

verus! {

/// The words of `list` joined with `sep` between each two neighbours.
pub open spec fn join(list: Seq<Seq<char>>, sep: Seq<char>) -> Seq<char>
    decreases list.len(),
{
    if list.len() == 0 {
        Seq::empty()
    } else if list.len() == 1 {
        list[0]
    } else {
        join(list.drop_last(), sep) + sep + list.last()
    }
}

/// The n-grams of size `n` of `words`, in order of their first word, each as the UTF-8
/// bytes of its words joined by `sep`; none when there are fewer than `n` words.
pub open spec fn grams_of_size(words: Seq<Seq<char>>, n: nat, sep: Seq<char>) -> Seq<Seq<u8>> {
    if words.len() < n {
        Seq::empty()
    } else {
        Seq::new(
            (words.len() - n + 1) as nat,
            |start: int| encode_utf8(join(words.subrange(start, start + n), sep)),
        )
    }
}

/// The n-grams of every size in `ns`, size by size in the order of `ns`.
pub open spec fn all_grams(words: Seq<Seq<char>>, ns: Seq<usize>, sep: Seq<char>) -> Seq<Seq<u8>>
    decreases ns.len(),
{
    if ns.len() == 0 {
        Seq::empty()
    } else {
        all_grams(words, ns.drop_last(), sep) + grams_of_size(words, ns.last() as nat, sep)
    }
}

/// The UTF-8 encoding of a concatenation is the concatenation of the encodings.
pub proof fn lemma_encode_concat(a: Seq<char>, b: Seq<char>)
    ensures
        encode_utf8(a + b) == encode_utf8(a) + encode_utf8(b),
    decreases a.len(),
{
    if a.len() == 0 {
        assert(a + b =~= b);
        assert(encode_utf8(a) + encode_utf8(b) =~= encode_utf8(b));
    } else {
        assert((a + b).drop_first() =~= a.drop_first() + b);
        assert((a + b)[0] == a[0]);
        lemma_encode_concat(a.drop_first(), b);
        assert(encode_utf8(a + b) =~= encode_utf8(a) + encode_utf8(b));
    }
}

/// Appends `bytes` to `out`.
fn append_bytes(out: &mut Vec<u8>, bytes: &[u8])
    ensures
        final(out)@ == old(out)@ + bytes@,
{
    let ghost start = out@;
    out.extend_from_slice(bytes);
    assert forall|i: int| 0 <= i < bytes@.len() implies #[trigger] out@[start.len() + i] == bytes@[i] by {
        assert(vstd::pervasive::cloned::<u8>(bytes@[i], out@[start.len() + i]));
    }
    assert(out@ =~= start + bytes@);
}

/// The UTF-8 bytes of `words[start..start + n]` joined by `sep`.
fn join_bytes(words: &[String], start: usize, n: usize, sep: &str) -> (r: Vec<u8>)
    requires
        1 <= n,
        start + n <= words@.len(),
    ensures
        r@ == encode_utf8(join(strings_view(words@).subrange(start as int, start + n), sep@)),
{
    let ghost ws = strings_view(words@);
    let mut out: Vec<u8> = Vec::new();
    append_bytes(&mut out, words[start].as_str().as_bytes());
    proof {
        assert(ws.subrange(start as int, start + 1) =~= seq![ws[start as int]]);
    }
    let wl = words.len();
    let mut t: usize = 1;
    while t < n
        invariant
            wl == words@.len(),
            1 <= t <= n,
            start + n <= words@.len(),
            ws == strings_view(words@),
            out@ == encode_utf8(join(ws.subrange(start as int, start + t), sep@)),
        decreases n - t,
    {
        let ghost before = join(ws.subrange(start as int, start + t), sep@);
        append_bytes(&mut out, sep.as_bytes());
        append_bytes(&mut out, words[start + t].as_str().as_bytes());
        proof {
            let next = ws.subrange(start as int, start + t + 1);
            assert(next.drop_last() =~= ws.subrange(start as int, start + t));
            assert(next.last() == words@[start + t]@);
            assert(join(next, sep@) == before + sep@ + words@[start + t]@);
            lemma_encode_concat(before, sep@);
            lemma_encode_concat(before + sep@, words@[start + t]@);
        }
        t += 1;
    }
    out
}

/// The word n-grams of `words` for each size in `ns`, in the order of `ns` and then of
/// their first word, as the UTF-8 bytes of the words joined by `sep`. A size larger than
/// the number of words contributes nothing; a size of 0 contributes one empty n-gram per
/// position from 0 to the number of words.
pub fn word_ngrams(words: &[String], ns: &[usize], sep: &str) -> (r: Vec<Vec<u8>>)
    ensures
        r@.map_values(|g: Vec<u8>| g@) == all_grams(strings_view(words@), ns@, sep@),
{
    let ghost ws = strings_view(words@);
    let mut result: Vec<Vec<u8>> = Vec::new();
    let wlen = words.len();
    let mut q: usize = 0;
    while q < ns.len()
        invariant
            q <= ns@.len(),
            wlen == words@.len(),
            ws == strings_view(words@),
            result@.map_values(|g: Vec<u8>| g@) == all_grams(ws, ns@.take(q as int), sep@),
        decreases ns@.len() - q,
    {
        let n = ns[q];
        let ghost base = result@.map_values(|g: Vec<u8>| g@);
        proof {
            assert(ns@.take(q + 1).drop_last() =~= ns@.take(q as int));
            assert(ns@.take(q + 1).last() == n);
        }
        if wlen >= n {
            let last = wlen - n;
            let mut start: usize = 0;
            loop
                invariant_except_break
                    n <= wlen,
                    last == wlen - n,
                    wlen == words@.len(),
                    ws == strings_view(words@),
                    start <= last,
                    result@.map_values(|g: Vec<u8>| g@) == base + grams_of_size(ws, n as nat, sep@).take(start as int),
                ensures
                    result@.map_values(|g: Vec<u8>| g@) == base + grams_of_size(ws, n as nat, sep@),
                decreases last - start,
            {
                let gram = if n == 0 {
                    proof {
                        assert(ws.subrange(start as int, start as int) =~= Seq::<Seq<char>>::empty());
                    }
                    Vec::new()
                } else {
                    join_bytes(words, start, n, sep)
                };
                let ghost before = result@;
                result.push(gram);
                proof {
                    assert(result@ == before.push(gram));
                    assert(result@.map_values(|g: Vec<u8>| g@) =~= before.map_values(|g: Vec<u8>| g@).push(gram@));
                    assert(grams_of_size(ws, n as nat, sep@).take(start + 1) =~= grams_of_size(ws, n as nat, sep@).take(start as int).push(gram@));
                    assert(result@.map_values(|g: Vec<u8>| g@) =~= base + grams_of_size(ws, n as nat, sep@).take(start + 1));
                }
                if start == last {
                    assert(grams_of_size(ws, n as nat, sep@).take(start + 1) =~= grams_of_size(ws, n as nat, sep@));
                    break;
                }
                start += 1;
            }
        } else {
            assert(grams_of_size(ws, n as nat, sep@) =~= Seq::<Seq<u8>>::empty());
            assert(base + grams_of_size(ws, n as nat, sep@) =~= base);
        }
        q += 1;
    }
    assert(ns@.take(ns@.len() as int) =~= ns@);
    result
}

/// Joining: no words give nothing, one word gives that word, and each further word comes
/// after the separator.
pub proof fn lemma_join_steps(list: Seq<Seq<char>>, x: Seq<char>, sep: Seq<char>)
    ensures
        join(Seq::empty(), sep) == Seq::<char>::empty(),
        join(seq![x], sep) == x,
        list.len() >= 1 ==> join(list.push(x), sep) == join(list, sep) + sep + x,
{
    assert(list.push(x).drop_last() =~= list);
}

/// The n-grams of one size `n` with `1 <= n <= words.len()`: exactly
/// `words.len() - n + 1` of them, the one at `i` being the UTF-8 bytes of
/// `words[i..i + n]` joined by `sep`; and none when `n > words.len()`.
pub proof fn lemma_grams_of_one_size(words: Seq<Seq<char>>, n: usize, sep: Seq<char>)
    ensures
        n <= words.len() ==> all_grams(words, seq![n], sep).len() == words.len() - n + 1,
        n <= words.len() ==> forall|i: int| 0 <= i <= words.len() - n ==>
            #[trigger] all_grams(words, seq![n], sep)[i] == encode_utf8(join(words.subrange(i, i + n), sep)),
        n > words.len() ==> all_grams(words, seq![n], sep).len() == 0,
{
    assert(seq![n].drop_last() =~= Seq::<usize>::empty());
    assert(all_grams(words, Seq::<usize>::empty(), sep) == Seq::<Seq<u8>>::empty());
    assert(all_grams(words, seq![n], sep) =~= grams_of_size(words, n as nat, sep));
}

/// The n-grams for a list of sizes are those of each size in turn.
pub proof fn lemma_all_grams_push(words: Seq<Seq<char>>, ns: Seq<usize>, n: usize, sep: Seq<char>)
    ensures
        all_grams(words, ns.push(n), sep) == all_grams(words, ns, sep) + all_grams(words, seq![n], sep),
{
    assert(ns.push(n).drop_last() =~= ns);
    assert(ns.push(n).last() == n);
    lemma_grams_of_one_size(words, n, sep);
    assert(all_grams(words, seq![n], sep) =~= grams_of_size(words, n as nat, sep));
}

/// Every window of `ns[q]` consecutive words, joined by `sep`, is among the n-grams, for
/// every size `ns[q]` of the list.
pub proof fn lemma_all_grams_has_windows(words: Seq<Seq<char>>, ns: Seq<usize>, sep: Seq<char>, q: int, start: int)
    requires
        0 <= q < ns.len(),
        0 <= start,
        start + ns[q] <= words.len(),
    ensures
        all_grams(words, ns, sep).contains(encode_utf8(join(words.subrange(start, start + ns[q]), sep))),
    decreases ns.len(),
{
    let g = encode_utf8(join(words.subrange(start, start + ns[q]), sep));
    let r = ns.drop_last();
    let n = ns.last();
    assert(r.push(n) =~= ns);
    lemma_all_grams_push(words, r, n, sep);
    if q == ns.len() - 1 {
        lemma_grams_of_one_size(words, n, sep);
        let a = all_grams(words, r, sep);
        assert(all_grams(words, ns, sep)[a.len() + start] == all_grams(words, seq![n], sep)[start]);
        assert(all_grams(words, seq![n], sep)[start] == g);
    } else {
        assert(r[q] == ns[q]);
        lemma_all_grams_has_windows(words, r, sep, q, start);
        let a = all_grams(words, r, sep);
        let k = choose|k: int| 0 <= k < a.len() && a[k] == g;
        assert(all_grams(words, ns, sep)[k] == g);
    }
}

} // verus!
