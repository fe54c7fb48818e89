//! Cyrillic word characters and the extraction of words from a text.

use vstd::prelude::*;

use crate::ngrams::join;

verus! {

broadcast use vstd::string::group_string_axioms;

/// Whether `c` lies in one of the Cyrillic blocks: Cyrillic with its supplement
/// (U+0400..U+052F, which holds the pre-reform letters), Extended-A (U+2DE0..U+2DFF),
/// Extended-B (U+A640..U+A69F) and Extended-C (U+1C80..U+1C8F).
pub open spec fn spec_is_cyrillic(c: char) -> bool {
    ||| ('\u{0400}' <= c && c <= '\u{052F}')
    ||| ('\u{A640}' <= c && c <= '\u{A69F}')
    ||| ('\u{2DE0}' <= c && c <= '\u{2DFF}')
    ||| ('\u{1C80}' <= c && c <= '\u{1C8F}')
}

/// Whether `c` belongs to a word: a Cyrillic letter, an apostrophe (' or U+2019) or a hyphen.
pub open spec fn spec_is_word_char(c: char) -> bool {
    spec_is_cyrillic(c) || c == '\'' || c == '-' || c == '\u{2019}'
}

/// Whether `c` is a Cyrillic character.
pub fn is_cyrillic(c: char) -> (r: bool)
    ensures
        r == spec_is_cyrillic(c),
{
    ('\u{0400}' <= c && c <= '\u{052F}') || ('\u{A640}' <= c && c <= '\u{A69F}') || ('\u{2DE0}' <= c
        && c <= '\u{2DFF}') || ('\u{1C80}' <= c && c <= '\u{1C8F}')
}

/// Whether `c` belongs to a word.
pub fn is_word_char(c: char) -> (r: bool)
    ensures
        r == spec_is_word_char(c),
{
    is_cyrillic(c) || c == '\'' || c == '-' || c == '\u{2019}'
}

/// The characters that `char::to_lowercase` yields for `c`.
pub uninterp spec fn char_lowercase(c: char) -> Seq<char>;

/// Calls `char::to_lowercase` and collects what it yields.
///
/// Trusted: the result is `char_lowercase(c)`, a function of `c` alone (the Unicode
/// lowercase mapping of the standard library).
#[verifier::external_body]
fn lowercase_of(c: char) -> (r: Vec<char>)
    ensures
        r@ == char_lowercase(c),
{
    c.to_lowercase().collect()
}

/// Calls `String::push`.
///
/// Trusted: the string gains `c` at its end.
#[verifier::external_body]
fn push_char(s: &mut String, c: char)
    ensures
        final(s)@ == old(s)@.push(c),
{
    s.push(c)
}

/// The characters that a word character contributes to its word.
pub open spec fn char_form(c: char, lowercase: bool) -> Seq<char> {
    if lowercase { char_lowercase(c) } else { seq![c] }
}

/// A piece of text written out character by character through `char_form`.
pub open spec fn piece_form(piece: Seq<char>, lowercase: bool) -> Seq<char>
    decreases piece.len(),
{
    if piece.len() == 0 {
        Seq::empty()
    } else {
        piece_form(piece.drop_last(), lowercase) + char_form(piece.last(), lowercase)
    }
}

/// The pieces of `text` between its non-word characters, in order, empty pieces included:
/// a text with `n` non-word characters has `n + 1` pieces.
pub open spec fn pieces(text: Seq<char>) -> Seq<Seq<char>>
    decreases text.len(),
{
    if text.len() == 0 {
        seq![Seq::<char>::empty()]
    } else {
        let ps = pieces(text.drop_last());
        let c = text.last();
        if spec_is_word_char(c) {
            ps.update(ps.len() - 1, ps.last().push(c))
        } else {
            ps.push(Seq::<char>::empty())
        }
    }
}

/// Whether a written-out piece is kept as a word: it is not empty, and it has at least
/// `min_len` characters unless `min_len` is 0.
pub open spec fn keeps_word(w: Seq<char>, min_len: nat) -> bool {
    w.len() > 0 && (min_len == 0 || w.len() >= min_len)
}

/// The words of `text`: its pieces between non-word characters, each written out
/// (lowercased when asked), keeping those that are long enough.
pub open spec fn words_of(text: Seq<char>, lowercase: bool, min_len: nat) -> Seq<Seq<char>> {
    pieces(text).map_values(|p: Seq<char>| piece_form(p, lowercase)).filter(|w: Seq<char>| keeps_word(w, min_len))
}

proof fn lemma_pieces_nonempty(text: Seq<char>)
    ensures
        pieces(text).len() >= 1,
    decreases text.len(),
{
    if text.len() > 0 {
        lemma_pieces_nonempty(text.drop_last());
    }
}

proof fn lemma_filter_push<A>(s: Seq<A>, x: A, pred: spec_fn(A) -> bool)
    ensures
        s.push(x).filter(pred) == if pred(x) { s.filter(pred).push(x) } else { s.filter(pred) },
{
    reveal(Seq::filter);
    assert(s.push(x).drop_last() =~= s);
}

proof fn lemma_map_push<A, B>(s: Seq<A>, x: A, f: spec_fn(A) -> B)
    ensures
        s.push(x).map_values(f) == s.map_values(f).push(f(x)),
{
    assert(s.push(x).map_values(f) =~= s.map_values(f).push(f(x)));
}

/// The words of the strings in `v`.
pub open spec fn strings_view(v: Seq<String>) -> Seq<Seq<char>> {
    v.map_values(|s: String| s@)
}

/// The words of `text`: maximal runs of word characters (Cyrillic letters, apostrophes,
/// hyphens), lowercased when `lowercase` holds, keeping those of at least `min_word_len`
/// characters (all of them when it is 0).
pub fn extract_words(text: &str, lowercase: bool, min_word_len: usize) -> (words: Vec<String>)
    ensures
        strings_view(words@) == words_of(text@, lowercase, min_word_len as nat),
{
    let ghost keep = |w: Seq<char>| keeps_word(w, min_word_len as nat);
    let ghost form = |p: Seq<char>| piece_form(p, lowercase);
    let mut words: Vec<String> = Vec::new();
    let mut current = String::new();
    let mut cur_len: usize = 0;
    proof {
        assert(pieces(text@.take(0)) == seq![Seq::<char>::empty()]);
        assert(seq![Seq::<char>::empty()].drop_last() =~= Seq::<Seq<char>>::empty());
        reveal(Seq::filter);
        assert(strings_view(words@) =~= Seq::<Seq<char>>::empty());
    }
    for c in it: text.chars()
        invariant
            it.seq() == text@,
            pieces(text@.take(it.index())).len() >= 1,
            strings_view(words@) == pieces(text@.take(it.index())).drop_last().map_values(form).filter(keep),
            current@ == piece_form(pieces(text@.take(it.index())).last(), lowercase),
            cur_len == if current@.len() <= usize::MAX { current@.len() } else { usize::MAX as nat },
            keep == (|w: Seq<char>| keeps_word(w, min_word_len as nat)),
            form == (|p: Seq<char>| piece_form(p, lowercase)),
    {
        let ghost i = it.index();
        let ghost prefix = text@.take(i);
        let ghost next = text@.take(i + 1);
        let ghost ps = pieces(prefix);
        proof {
            assert(next.drop_last() =~= prefix);
            assert(next.last() == c);
            lemma_pieces_nonempty(next);
        }
        if is_word_char(c) {
            if lowercase {
                let lows = lowercase_of(c);
                let ghost cur0 = current@;
                let mut j: usize = 0;
                while j < lows.len()
                    invariant
                        j <= lows@.len(),
                        current@ == cur0 + lows@.take(j as int),
                        cur_len == if current@.len() <= usize::MAX { current@.len() } else { usize::MAX as nat },
                    decreases lows@.len() - j,
                {
                    push_char(&mut current, lows[j]);
                    cur_len = cur_len.saturating_add(1);
                    proof {
                        assert(lows@.take(j + 1) =~= lows@.take(j as int).push(lows@[j as int]));
                    }
                    j += 1;
                }
                assert(lows@.take(lows@.len() as int) =~= lows@);
            } else {
                push_char(&mut current, c);
                cur_len = cur_len.saturating_add(1);
            }
            proof {
                let ps2 = pieces(next);
                assert(ps2 == ps.update(ps.len() - 1, ps.last().push(c)));
                assert(ps2.drop_last() =~= ps.drop_last());
                assert(ps2.last() == ps.last().push(c));
                assert(ps.last().push(c).drop_last() =~= ps.last());
                if !lowercase {
                    assert(char_form(c, lowercase) =~= seq![c]);
                    assert(current@ =~= piece_form(ps2.last(), lowercase));
                } else {
                    assert(current@ =~= piece_form(ps2.last(), lowercase));
                }
            }
        } else {
            let ghost cur_words = words@;
            if cur_len > 0 && (min_word_len == 0 || cur_len >= min_word_len) {
                words.push(current);
                current = String::new();
                proof {
                    assert(keeps_word(piece_form(ps.last(), lowercase), min_word_len as nat));
                }
            } else {
                current = String::new();
                proof {
                    assert(!keeps_word(piece_form(ps.last(), lowercase), min_word_len as nat));
                }
            }
            cur_len = 0;
            proof {
                let ps2 = pieces(next);
                assert(ps2 == ps.push(Seq::<char>::empty()));
                assert(ps2.drop_last() =~= ps);
                assert(ps.drop_last().push(ps.last()) =~= ps);
                lemma_map_push(ps.drop_last(), ps.last(), form);
                lemma_filter_push(ps.drop_last().map_values(form), form(ps.last()), keep);
                assert(strings_view(cur_words.push(words@.last())) =~= strings_view(cur_words).push(words@.last()@));
                if words@.len() > cur_words.len() {
                    assert(words@ =~= cur_words.push(words@.last()));
                } else {
                    assert(words@ =~= cur_words);
                }
                assert(current@ =~= piece_form(ps2.last(), lowercase));
            }
        }
    }
    let ghost ps = pieces(text@);
    proof {
        assert(text@.take(text@.len() as int) =~= text@);
        assert(ps.drop_last().push(ps.last()) =~= ps);
        lemma_map_push(ps.drop_last(), ps.last(), form);
        lemma_filter_push(ps.drop_last().map_values(form), form(ps.last()), keep);
    }
    let ghost cur_words = words@;
    if cur_len > 0 && (min_word_len == 0 || cur_len >= min_word_len) {
        words.push(current);
        proof {
            assert(strings_view(words@) =~= strings_view(cur_words).push(piece_form(ps.last(), lowercase)));
        }
    }
    proof {
        assert(form == (|p: Seq<char>| piece_form(p, lowercase)));
        assert(words_of(text@, lowercase, min_word_len as nat) == ps.map_values(form).filter(keep));
    }
    words
}

/// Every word is non-empty, and at least `min_len` characters long unless `min_len` is 0.
pub proof fn lemma_words_are_long_enough(text: Seq<char>, lowercase: bool, min_len: nat, i: int)
    requires
        0 <= i < words_of(text, lowercase, min_len).len(),
    ensures
        keeps_word(words_of(text, lowercase, min_len)[i], min_len),
{
    let mapped = pieces(text).map_values(|p: Seq<char>| piece_form(p, lowercase));
    mapped.lemma_filter_pred(|w: Seq<char>| keeps_word(w, min_len), i);
}

proof fn lemma_pieces_hold_word_chars(text: Seq<char>)
    ensures
        forall|k: int, j: int| 0 <= k < pieces(text).len() && 0 <= j < pieces(text)[k].len() ==> spec_is_word_char(#[trigger] pieces(text)[k][j]),
    decreases text.len(),
{
    if text.len() > 0 {
        let rest = text.drop_last();
        lemma_pieces_hold_word_chars(rest);
        lemma_pieces_nonempty(rest);
        let ps = pieces(rest);
        let c = text.last();
        if spec_is_word_char(c) {
            assert forall|k: int, j: int| 0 <= k < pieces(text).len() && 0 <= j < pieces(text)[k].len() implies spec_is_word_char(#[trigger] pieces(text)[k][j]) by {
                if k == ps.len() - 1 {
                    if j < ps.last().len() {
                        assert(pieces(text)[k][j] == ps[k][j]);
                    }
                } else {
                    assert(pieces(text)[k] == ps[k]);
                }
            }
        } else {
            assert forall|k: int, j: int| 0 <= k < pieces(text).len() && 0 <= j < pieces(text)[k].len() implies spec_is_word_char(#[trigger] pieces(text)[k][j]) by {
                if k < ps.len() {
                    assert(pieces(text)[k] == ps[k]);
                }
            }
        }
    }
}

proof fn lemma_piece_form_plain(p: Seq<char>)
    ensures
        piece_form(p, false) == p,
    decreases p.len(),
{
    if p.len() > 0 {
        lemma_piece_form_plain(p.drop_last());
        assert(char_form(p.last(), false) =~= seq![p.last()]);
        assert(p.drop_last() + seq![p.last()] =~= p);
    }
}

/// Without lowercasing, words are made of word characters only.
pub proof fn lemma_words_are_word_chars(text: Seq<char>, min_len: nat, i: int, j: int)
    requires
        0 <= i < words_of(text, false, min_len).len(),
        0 <= j < words_of(text, false, min_len)[i].len(),
    ensures
        spec_is_word_char(words_of(text, false, min_len)[i][j]),
{
    let form = |p: Seq<char>| piece_form(p, false);
    let keep = |w: Seq<char>| keeps_word(w, min_len);
    let mapped = pieces(text).map_values(form);
    let w = words_of(text, false, min_len)[i];
    assert(mapped.filter(keep).contains(w));
    mapped.lemma_filter_contains_rev(keep, w);
    let k = choose|k: int| 0 <= k < mapped.len() && mapped[k] == w;
    lemma_piece_form_plain(pieces(text)[k]);
    lemma_pieces_hold_word_chars(text);
    assert(w == pieces(text)[k]);
    assert(spec_is_word_char(pieces(text)[k][j]));
}

proof fn lemma_filter_all<A>(s: Seq<A>, pred: spec_fn(A) -> bool)
    requires
        forall|i: int| 0 <= i < s.len() ==> pred(#[trigger] s[i]),
    ensures
        s.filter(pred) == s,
    decreases s.len(),
{
    if s.len() > 0 {
        lemma_filter_all(s.drop_last(), pred);
        lemma_filter_push(s.drop_last(), s.last(), pred);
        assert(s.drop_last().push(s.last()) =~= s);
    } else {
        reveal(Seq::filter);
    }
}

/// Filtering after a map that keeps the predicate is mapping after the filter.
proof fn lemma_filter_map_commute<A>(s: Seq<A>, f: spec_fn(A) -> A, pred: spec_fn(A) -> bool)
    requires
        forall|i: int| 0 <= i < s.len() ==> pred(f(#[trigger] s[i])) == pred(s[i]),
    ensures
        s.map_values(f).filter(pred) == s.filter(pred).map_values(f),
    decreases s.len(),
{
    if s.len() == 0 {
        reveal(Seq::filter);
        assert(s.map_values(f) =~= s);
        assert(s.filter(pred).map_values(f) =~= Seq::<A>::empty());
    } else {
        let r = s.drop_last();
        let x = s.last();
        assert(r.push(x) =~= s);
        assert forall|i: int| 0 <= i < r.len() implies pred(f(#[trigger] r[i])) == pred(r[i]) by {
            assert(r[i] == s[i]);
        }
        lemma_filter_map_commute(r, f, pred);
        lemma_map_push(r, x, f);
        lemma_filter_push(r.map_values(f), f(x), pred);
        lemma_filter_push(r, x, pred);
        assert(pred(f(x)) == pred(x));
        lemma_map_push(r.filter(pred), x, f);
    }
}

/// Every character of every piece of `text` is a character of `text`.
proof fn lemma_pieces_chars_in_text(text: Seq<char>)
    ensures
        forall|k: int, j: int| 0 <= k < pieces(text).len() && 0 <= j < pieces(text)[k].len() ==> text.contains(#[trigger] pieces(text)[k][j]),
    decreases text.len(),
{
    if text.len() > 0 {
        let rest = text.drop_last();
        lemma_pieces_chars_in_text(rest);
        lemma_pieces_nonempty(rest);
        let ps = pieces(rest);
        let c = text.last();
        assert forall|k: int, j: int| 0 <= k < pieces(text).len() && 0 <= j < pieces(text)[k].len() implies text.contains(#[trigger] pieces(text)[k][j]) by {
            let x = pieces(text)[k][j];
            if k < ps.len() && j < ps[k].len() {
                assert(pieces(text)[k][j] == ps[k][j]);
                let i = choose|i: int| 0 <= i < rest.len() && rest[i] == x;
                assert(text[i] == x);
            } else {
                assert(x == c);
                assert(text[text.len() - 1] == x);
            }
        }
    }
}

proof fn lemma_piece_form_len(p: Seq<char>)
    requires
        forall|j: int| 0 <= j < p.len() ==> char_lowercase(#[trigger] p[j]).len() == 1,
    ensures
        piece_form(p, true).len() == p.len(),
    decreases p.len(),
{
    if p.len() > 0 {
        assert forall|j: int| 0 <= j < p.drop_last().len() implies char_lowercase(#[trigger] p.drop_last()[j]).len() == 1 by {
            assert(p.drop_last()[j] == p[j]);
        }
        lemma_piece_form_len(p.drop_last());
        assert(char_lowercase(p[p.len() - 1]).len() == 1);
    }
}

/// Lowercasing commutes with word extraction: when each word character of `text`
/// lowercases to a single character, the lowercased words are the plain words, each
/// lowercased character by character.
pub proof fn lemma_lowercase_words(text: Seq<char>, min_len: nat)
    requires
        forall|i: int| 0 <= i < text.len() && spec_is_word_char(#[trigger] text[i]) ==> char_lowercase(text[i]).len() == 1,
    ensures
        words_of(text, true, min_len) == words_of(text, false, min_len).map_values(|w: Seq<char>| piece_form(w, true)),
{
    let ps = pieces(text);
    let lower = |p: Seq<char>| piece_form(p, true);
    let plain = |p: Seq<char>| piece_form(p, false);
    let keep = |w: Seq<char>| keeps_word(w, min_len);
    lemma_pieces_hold_word_chars(text);
    lemma_pieces_chars_in_text(text);
    assert forall|k: int| 0 <= k < ps.len() implies keep(lower(#[trigger] ps[k])) == keep(ps[k]) by {
        assert forall|j: int| 0 <= j < ps[k].len() implies char_lowercase(#[trigger] ps[k][j]).len() == 1 by {
            assert(text.contains(ps[k][j]));
            let i = choose|i: int| 0 <= i < text.len() && text[i] == ps[k][j];
            assert(spec_is_word_char(ps[k][j]));
        }
        lemma_piece_form_len(ps[k]);
    }
    lemma_filter_map_commute(ps, lower, keep);
    assert(ps.map_values(plain) =~= ps) by {
        assert forall|k: int| 0 <= k < ps.len() implies #[trigger] ps.map_values(plain)[k] == ps[k] by {
            lemma_piece_form_plain(ps[k]);
        }
    }
}

/// The pieces of a run of word characters are that run alone.
proof fn lemma_pieces_extend(s: Seq<char>, w: Seq<char>)
    requires
        forall|j: int| 0 <= j < w.len() ==> spec_is_word_char(#[trigger] w[j]),
    ensures
        pieces(s + w) == pieces(s).update(pieces(s).len() - 1, pieces(s).last() + w),
    decreases w.len(),
{
    lemma_pieces_nonempty(s);
    if w.len() == 0 {
        assert(s + w =~= s);
        assert(pieces(s).last() + w =~= pieces(s).last());
        assert(pieces(s).update(pieces(s).len() - 1, pieces(s).last()) =~= pieces(s));
    } else {
        let w0 = w.drop_last();
        assert forall|j: int| 0 <= j < w0.len() implies spec_is_word_char(#[trigger] w0[j]) by {
            assert(w0[j] == w[j]);
        }
        lemma_pieces_extend(s, w0);
        assert((s + w).drop_last() =~= s + w0);
        assert((s + w).last() == w.last());
        assert(spec_is_word_char(w[w.len() - 1]));
        assert((pieces(s).last() + w0).push(w.last()) =~= pieces(s).last() + w);
        assert(pieces(s + w) =~= pieces(s).update(pieces(s).len() - 1, pieces(s).last() + w));
    }
}

proof fn lemma_pieces_of_joined(ws: Seq<Seq<char>>)
    requires
        ws.len() >= 1,
        forall|k: int, j: int| 0 <= k < ws.len() && 0 <= j < ws[k].len() ==> spec_is_word_char(#[trigger] ws[k][j]),
    ensures
        pieces(join(ws, seq![' '])) == ws,
    decreases ws.len(),
{
    let sp = seq![' '];
    if ws.len() == 1 {
        assert(forall|j: int| 0 <= j < ws[0].len() ==> spec_is_word_char(#[trigger] ws[0][j]));
        lemma_pieces_extend(Seq::<char>::empty(), ws[0]);
        assert(Seq::<char>::empty() + ws[0] =~= ws[0]);
        assert(Seq::<char>::empty() + ws[0] =~= ws[0]);
        assert(pieces(ws[0]) =~= ws);
    } else {
        let a = ws.drop_last();
        let l = ws.last();
        assert forall|k: int, j: int| 0 <= k < a.len() && 0 <= j < a[k].len() implies spec_is_word_char(#[trigger] a[k][j]) by {
            assert(a[k] == ws[k]);
        }
        lemma_pieces_of_joined(a);
        let ja = join(a, sp);
        assert(join(ws, sp) == ja + sp + l);
        assert(ja + sp =~= ja.push(' '));
        assert(!spec_is_word_char(' '));
        assert(ja.push(' ').drop_last() =~= ja);
        assert(pieces(ja + sp) == a.push(Seq::<char>::empty()));
        assert(forall|j: int| 0 <= j < l.len() ==> spec_is_word_char(#[trigger] l[j])) by {
            assert forall|j: int| 0 <= j < l.len() implies spec_is_word_char(#[trigger] l[j]) by {
                assert(l == ws[ws.len() - 1]);
            }
        }
        lemma_pieces_extend(ja + sp, l);
        assert(Seq::<char>::empty() + l =~= l);
        assert(a.push(Seq::<char>::empty()).update(a.len() as int, l) =~= ws);
    }
}

/// Extracting the words from the plain words joined by spaces gives them back.
pub proof fn lemma_words_round_trip(text: Seq<char>, min_len: nat)
    ensures
        words_of(join(words_of(text, false, min_len), seq![' ']), false, min_len) == words_of(text, false, min_len),
{
    let ws = words_of(text, false, min_len);
    let plain = |p: Seq<char>| piece_form(p, false);
    let keep = |w: Seq<char>| keeps_word(w, min_len);
    if ws.len() == 0 {
        reveal(Seq::filter);
        let e = Seq::<char>::empty();
        assert(join(ws, seq![' ']) == e);
        assert(pieces(e) == seq![e]);
        assert(seq![e].drop_last() =~= Seq::<Seq<char>>::empty());
        assert(seq![e].map_values(plain) =~= seq![e]);
        assert(!keeps_word(e, min_len));
        lemma_filter_push(Seq::<Seq<char>>::empty(), e, keep);
        assert(Seq::<Seq<char>>::empty().push(e) =~= seq![e]);
        assert(Seq::<Seq<char>>::empty().filter(keep) =~= Seq::<Seq<char>>::empty());
    } else {
        assert forall|k: int, j: int| 0 <= k < ws.len() && 0 <= j < ws[k].len() implies spec_is_word_char(#[trigger] ws[k][j]) by {
            lemma_words_are_word_chars(text, min_len, k, j);
        }
        lemma_pieces_of_joined(ws);
        assert(ws.map_values(plain) =~= ws) by {
            assert forall|k: int| 0 <= k < ws.len() implies #[trigger] ws.map_values(plain)[k] == ws[k] by {
                lemma_piece_form_plain(ws[k]);
            }
        }
        assert forall|k: int| 0 <= k < ws.len() implies keep(#[trigger] ws[k]) by {
            lemma_words_are_long_enough(text, false, min_len, k);
        }
        lemma_filter_all(ws, keep);
    }
}

/// The Cyrillic characters are exactly the code points U+0400..=U+052F,
/// U+A640..=U+A69F, U+2DE0..=U+2DFF and U+1C80..=U+1C8F.
pub proof fn lemma_cyrillic_ranges(c: char)
    ensures
        spec_is_cyrillic(c) <==> (
            (0x0400 <= (c as u32) && (c as u32) <= 0x052F)
            || (0xA640 <= (c as u32) && (c as u32) <= 0xA69F)
            || (0x2DE0 <= (c as u32) && (c as u32) <= 0x2DFF)
            || (0x1C80 <= (c as u32) && (c as u32) <= 0x1C8F)
        ),
{
}

/// The word characters are exactly the Cyrillic code points, the apostrophe U+0027, the
/// hyphen-minus U+002D and the right single quotation mark U+2019.
pub proof fn lemma_word_char_code_points(c: char)
    ensures
        spec_is_word_char(c) <==> (
            (0x0400 <= (c as u32) && (c as u32) <= 0x052F)
            || (0xA640 <= (c as u32) && (c as u32) <= 0xA69F)
            || (0x2DE0 <= (c as u32) && (c as u32) <= 0x2DFF)
            || (0x1C80 <= (c as u32) && (c as u32) <= 0x1C8F)
            || (c as u32) == 0x27
            || (c as u32) == 0x2D
            || (c as u32) == 0x2019
        ),
{
    lemma_cyrillic_ranges(c);
}

/// A text made only of word characters is one word, kept when it is long enough.
pub proof fn lemma_single_word(text: Seq<char>, min_len: nat)
    requires
        forall|j: int| 0 <= j < text.len() ==> spec_is_word_char(#[trigger] text[j]),
    ensures
        keeps_word(text, min_len) ==> words_of(text, false, min_len) == seq![text],
        !keeps_word(text, min_len) ==> words_of(text, false, min_len).len() == 0,
{
    let e = Seq::<char>::empty();
    lemma_pieces_extend(e, text);
    assert(e + text =~= text);
    assert(pieces(e) == seq![e]);
    assert(pieces(text) =~= seq![text]);
    let plain = |p: Seq<char>| piece_form(p, false);
    let keep = |w: Seq<char>| keeps_word(w, min_len);
    lemma_piece_form_plain(text);
    assert(seq![text].map_values(plain) =~= seq![text]);
    lemma_filter_push(Seq::<Seq<char>>::empty(), text, keep);
    assert(Seq::<Seq<char>>::empty().push(text) =~= seq![text]);
    reveal(Seq::filter);
    assert(Seq::<Seq<char>>::empty().filter(keep) =~= Seq::<Seq<char>>::empty());
}

} // verus!
