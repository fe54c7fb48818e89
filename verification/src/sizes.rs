//! The list of n-gram sizes, read from a comma-separated option value.

use vstd::prelude::*;

use crate::json_text::{chars_of, is_whitespace, leading_ws, spec_is_whitespace};

verus! {

/// The pieces of `s` between its commas, in order, empty pieces included.
pub open spec fn comma_pieces(s: Seq<char>) -> Seq<Seq<char>>
    decreases s.len(),
{
    if s.len() == 0 {
        seq![Seq::<char>::empty()]
    } else {
        let ps = comma_pieces(s.drop_last());
        let c = s.last();
        if c == ',' {
            ps.push(Seq::<char>::empty())
        } else {
            ps.update(ps.len() - 1, ps.last().push(c))
        }
    }
}

/// The number of white-space characters at the end of `s`.
pub open spec fn trailing_ws(s: Seq<char>) -> nat
    decreases s.len(),
{
    if s.len() > 0 && spec_is_whitespace(s.last()) {
        1 + trailing_ws(s.drop_last())
    } else {
        0
    }
}

/// `s` without white space at its start and end.
pub open spec fn trim(s: Seq<char>) -> Seq<char> {
    let t = s.skip(leading_ws(s) as int);
    t.take(t.len() - trailing_ws(t))
}

/// Whether every character of `s` is an ASCII digit.
pub open spec fn all_digits(s: Seq<char>) -> bool {
    forall|i: int| 0 <= i < s.len() ==> '0' <= #[trigger] s[i] && s[i] <= '9'
}

/// The value of a decimal numeral.
pub open spec fn decimal_value(s: Seq<char>) -> nat
    decreases s.len(),
{
    if s.len() == 0 {
        0
    } else {
        10 * decimal_value(s.drop_last()) + ((s.last() as int) - ('0' as int)) as nat
    }
}

/// What `usize::from_str` gives for `t`: an optional `+` followed by one or more ASCII
/// digits whose value fits in `usize`; `None` for anything else.
pub open spec fn parse_usize(t: Seq<char>) -> Option<usize> {
    let digits = if t.len() > 0 && t[0] == '+' { t.drop_first() } else { t };
    if digits.len() == 0 || !all_digits(digits) || decimal_value(digits) > usize::MAX {
        None
    } else {
        Some(decimal_value(digits) as usize)
    }
}

/// The sizes that the pieces give, in order, skipping the pieces that are not numbers.
pub open spec fn parsed_sizes(pieces: Seq<Seq<char>>) -> Seq<usize>
    decreases pieces.len(),
{
    if pieces.len() == 0 {
        Seq::empty()
    } else {
        parsed_sizes(pieces.drop_last()) + match parse_usize(trim(pieces.last())) {
            Some(v) => seq![v],
            None => Seq::<usize>::empty(),
        }
    }
}

proof fn lemma_decimal_value_prefix(s: Seq<char>, k: int)
    requires
        0 <= k <= s.len(),
        all_digits(s),
    ensures
        decimal_value(s.take(k)) <= decimal_value(s),
    decreases s.len(),
{
    if k < s.len() {
        assert(s.drop_last().take(k) =~= s.take(k));
        assert(all_digits(s.drop_last()));
        lemma_decimal_value_prefix(s.drop_last(), k);
    } else {
        assert(s.take(k) =~= s);
    }
}

proof fn lemma_leading_ws_skip(s: Seq<char>, i: int)
    requires
        0 <= i <= s.len(),
        forall|j: int| 0 <= j < i ==> spec_is_whitespace(#[trigger] s[j]),
    ensures
        leading_ws(s) == i + leading_ws(s.skip(i)),
    decreases i,
{
    if i > 0 {
        assert(s.drop_first().skip(i - 1) =~= s.skip(i));
        assert forall|j: int| 0 <= j < i - 1 implies spec_is_whitespace(#[trigger] s.drop_first()[j]) by {
            assert(s.drop_first()[j] == s[j + 1]);
        }
        lemma_leading_ws_skip(s.drop_first(), i - 1);
    } else {
        assert(s.skip(0) =~= s);
    }
}

proof fn lemma_trailing_ws_take(s: Seq<char>, k: int)
    requires
        0 <= k <= s.len(),
        forall|j: int| k <= j < s.len() ==> spec_is_whitespace(#[trigger] s[j]),
    ensures
        trailing_ws(s) == (s.len() - k) + trailing_ws(s.take(k)),
    decreases s.len() - k,
{
    if k < s.len() {
        assert(s.drop_last().take(k) =~= s.take(k));
        lemma_trailing_ws_take(s.drop_last(), k);
    } else {
        assert(s.take(k) =~= s);
    }
}

/// The size that the characters `cs[from..to]` give, when they hold one.
fn parse_piece(cs: &Vec<char>, from: usize, to: usize) -> (r: Option<usize>)
    requires
        from <= to <= cs@.len(),
    ensures
        r == parse_usize(trim(cs@.subrange(from as int, to as int))),
{
    let ghost piece = cs@.subrange(from as int, to as int);
    let mut a = from;
    while a < to && is_whitespace(cs[a])
        invariant
            from <= a <= to,
            to <= cs@.len(),
            forall|j: int| from <= j < a ==> spec_is_whitespace(#[trigger] cs@[j]),
        decreases to - a,
    {
        a += 1;
    }
    proof {
        assert forall|j: int| 0 <= j < a - from implies spec_is_whitespace(#[trigger] piece[j]) by {
            assert(piece[j] == cs@[from + j]);
        }
        lemma_leading_ws_skip(piece, a - from);
        if a < to {
            assert(piece.skip(a - from)[0] == cs@[a as int]);
        }
        assert(leading_ws(piece.skip(a - from)) == 0);
    }
    let ghost t = piece.skip(a - from);
    assert(t =~= cs@.subrange(a as int, to as int));
    let mut b = to;
    while b > a && is_whitespace(cs[b - 1])
        invariant
            a <= b <= to,
            to <= cs@.len(),
            forall|j: int| b <= j < to ==> spec_is_whitespace(#[trigger] cs@[j]),
        decreases b - a,
    {
        b -= 1;
    }
    proof {
        assert forall|j: int| b - a <= j < t.len() implies spec_is_whitespace(#[trigger] t[j]) by {
            assert(t[j] == cs@[a + j]);
        }
        lemma_trailing_ws_take(t, b - a);
        if b > a {
            assert(t.take(b - a).last() == cs@[b - 1]);
        }
        assert(trailing_ws(t.take(b - a)) == 0);
        assert(t.take(t.len() - trailing_ws(t)) =~= cs@.subrange(a as int, b as int));
    }
    let ghost tt = cs@.subrange(a as int, b as int);
    assert(trim(piece) == tt);
    let mut d = a;
    if d < b && cs[d] == '+' {
        d += 1;
    }
    let ghost digits = cs@.subrange(d as int, b as int);
    assert(digits =~= if tt.len() > 0 && tt[0] == '+' { tt.drop_first() } else { tt });
    if d == b {
        return None;
    }
    let mut value: usize = 0;
    let mut k = d;
    while k < b
        invariant
            d <= k <= b,
            d < b,
            from <= a <= d,
            b <= to <= cs@.len(),
            tt == cs@.subrange(a as int, b as int),
            trim(cs@.subrange(from as int, to as int)) == tt,
            digits == cs@.subrange(d as int, b as int),
            digits == (if tt.len() > 0 && tt[0] == '+' { tt.drop_first() } else { tt }),
            forall|j: int| d <= j < k ==> '0' <= #[trigger] cs@[j] && cs@[j] <= '9',
            value == decimal_value(cs@.subrange(d as int, k as int)),
        decreases b - k,
    {
        let c = cs[k];
        if c < '0' || c > '9' {
            assert(!all_digits(digits)) by {
                assert(digits[k - d] == c);
            }
            return None;
        }
        let dig = (c as u32 - '0' as u32) as usize;
        proof {
            let pre = cs@.subrange(d as int, k + 1);
            assert(pre.drop_last() =~= cs@.subrange(d as int, k as int));
            assert(pre.last() == c);
            assert(decimal_value(pre) == 10 * value + dig);
        }
        let next = match value.checked_mul(10) {
            Some(v) => v.checked_add(dig),
            None => None,
        };
        match next {
            Some(v) => {
                value = v;
            },
            None => {
                proof {
                    let pre = cs@.subrange(d as int, k + 1);
                    assert(decimal_value(pre) > usize::MAX);
                    if all_digits(digits) {
                        assert(digits.take(k + 1 - d) =~= pre);
                        lemma_decimal_value_prefix(digits, k + 1 - d);
                    }
                }
                return None;
            },
        }
        k += 1;
    }
    proof {
        assert(all_digits(digits)) by {
            assert forall|i: int| 0 <= i < digits.len() implies '0' <= #[trigger] digits[i] && digits[i] <= '9' by {
                assert(digits[i] == cs@[d + i]);
            }
        }
    }
    Some(value)
}

/// The n-gram sizes listed in `s`: the comma-separated pieces, trimmed of white space,
/// that read as unsigned numbers, in order; the other pieces are skipped.
pub fn parse_ngram_sizes(s: &str) -> (r: Vec<usize>)
    ensures
        r@ == parsed_sizes(comma_pieces(s@)),
{
    let cs = chars_of(s);
    let mut r: Vec<usize> = Vec::new();
    let mut start: usize = 0;
    let mut i: usize = 0;
    proof {
        assert(cs@.take(0) =~= Seq::<char>::empty());
        assert(comma_pieces(cs@.take(0)).drop_last() =~= Seq::<Seq<char>>::empty());
    }
    while i < cs.len()
        invariant
            cs@ == s@,
            start <= i <= cs@.len(),
            comma_pieces(cs@.take(i as int)).len() >= 1,
            comma_pieces(cs@.take(i as int)).last() == cs@.subrange(start as int, i as int),
            r@ == parsed_sizes(comma_pieces(cs@.take(i as int)).drop_last()),
        decreases cs@.len() - i,
    {
        let ghost ps = comma_pieces(cs@.take(i as int));
        let ghost next = cs@.take(i + 1);
        proof {
            assert(next.drop_last() =~= cs@.take(i as int));
            assert(next.last() == cs@[i as int]);
        }
        if cs[i] == ',' {
            let v = parse_piece(&cs, start, i);
            match v {
                Some(x) => r.push(x),
                None => {},
            }
            proof {
                let ps2 = comma_pieces(next);
                assert(ps2 == ps.push(Seq::<char>::empty()));
                assert(ps2.drop_last() =~= ps);
                assert(ps.drop_last().push(ps.last()) =~= ps);
                assert(ps2.drop_last().drop_last() =~= ps.drop_last());
                assert(ps2.last() =~= cs@.subrange(i + 1, i + 1));
            }
            start = i + 1;
        } else {
            proof {
                let ps2 = comma_pieces(next);
                assert(ps2 == ps.update(ps.len() - 1, ps.last().push(cs@[i as int])));
                assert(ps2.drop_last() =~= ps.drop_last());
                assert(ps2.last() =~= cs@.subrange(start as int, i + 1));
            }
        }
        i += 1;
    }
    let ghost ps = comma_pieces(cs@);
    proof {
        assert(cs@.take(cs@.len() as int) =~= cs@);
        assert(ps.drop_last().push(ps.last()) =~= ps);
        assert(ps.drop_last() == ps.drop_last());
    }
    let v = parse_piece(&cs, start, cs.len());
    match v {
        Some(x) => r.push(x),
        None => {},
    }
    proof {
        assert(ps.drop_last() =~= ps.subrange(0, ps.len() - 1));
    }
    r
}

/// The smallest of the sizes, or 2 when there are none.
pub fn smallest_size(ns: &[usize]) -> (r: usize)
    ensures
        ns@.len() == 0 ==> r == 2,
        ns@.len() > 0 ==> ns@.contains(r) && forall|i: int| 0 <= i < ns@.len() ==> r <= #[trigger] ns@[i],
{
    if ns.len() == 0 {
        return 2;
    }
    let mut m = ns[0];
    let mut i: usize = 1;
    while i < ns.len()
        invariant
            1 <= i <= ns@.len(),
            ns@.contains(m),
            forall|j: int| 0 <= j < i ==> m <= #[trigger] ns@[j],
        decreases ns@.len() - i,
    {
        if ns[i] < m {
            m = ns[i];
        }
        i += 1;
    }
    m
}

} // verus!
