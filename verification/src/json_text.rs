//! Fast extraction of a string field from a JSON line, without a full JSON parser.

use vstd::prelude::*;
use vstd::string::StrSliceExecFns;

verus! {

broadcast use vstd::string::group_string_axioms;

/// Whether `c` has the Unicode `White_Space` property, which `char::is_whitespace` tests.
pub open spec fn spec_is_whitespace(c: char) -> bool {
    ||| ('\t' <= c && c <= '\r')
    ||| c == ' '
    ||| c == '\u{85}'
    ||| c == '\u{A0}'
    ||| c == '\u{1680}'
    ||| ('\u{2000}' <= c && c <= '\u{200A}')
    ||| c == '\u{2028}'
    ||| c == '\u{2029}'
    ||| c == '\u{202F}'
    ||| c == '\u{205F}'
    ||| c == '\u{3000}'
}

/// Whether `c` is white space.
pub fn is_whitespace(c: char) -> (r: bool)
    ensures
        r == spec_is_whitespace(c),
{
    ('\t' <= c && c <= '\r') || c == ' ' || c == '\u{85}' || c == '\u{A0}' || c == '\u{1680}' || ('\u{2000}'
        <= c && c <= '\u{200A}') || c == '\u{2028}' || c == '\u{2029}' || c == '\u{202F}' || c == '\u{205F}'
        || c == '\u{3000}'
}

/// The number of white-space characters at the start of `s`.
pub open spec fn leading_ws(s: Seq<char>) -> nat
    decreases s.len(),
{
    if s.len() > 0 && spec_is_whitespace(s[0]) {
        1 + leading_ws(s.drop_first())
    } else {
        0
    }
}

/// Whether `pat` occurs in `line` at index `i`.
pub open spec fn occurs_at(line: Seq<char>, pat: Seq<char>, i: int) -> bool {
    0 <= i && i + pat.len() <= line.len() && line.subrange(i, i + pat.len()) == pat
}

/// Whether `i` is the first index where `pat` occurs in `line`.
pub open spec fn first_occurrence_at(line: Seq<char>, pat: Seq<char>, i: int) -> bool {
    occurs_at(line, pat, i) && forall|j: int| 0 <= j < i ==> !occurs_at(line, pat, j)
}

/// Whether the character at index `j` of `s` follows an unescaped backslash, scanning
/// from the start of `s` (a backslash escapes the character after it, unless it is
/// itself escaped).
pub open spec fn escaped_at(s: Seq<char>, j: nat) -> bool
    decreases j,
{
    if j == 0 {
        false
    } else {
        !escaped_at(s, (j - 1) as nat) && s[j - 1] == '\\'
    }
}

/// Whether `j` is the index of the first unescaped double quote of `s`.
pub open spec fn closing_quote_at(s: Seq<char>, j: int) -> bool {
    &&& 0 <= j < s.len()
    &&& s[j] == '"' && !escaped_at(s, j as nat)
    &&& forall|k: int| 0 <= k < j ==> !(s[k] == '"' && !escaped_at(s, k as nat))
}

/// Whether `s` holds an unescaped double quote.
pub open spec fn has_closing_quote(s: Seq<char>) -> bool {
    exists|j: int| 0 <= j < s.len() && s[j] == '"' && !escaped_at(s, j as nat)
}

/// The quoted key `"field"`.
pub open spec fn quoted_key(field: Seq<char>) -> Seq<char> {
    seq!['"'] + field + seq!['"']
}

/// Where the text of `field` starts in `line` when the key occurs first at `i`: after
/// the key, white space, a colon, white space and an opening quote; or `None` when one of
/// the colon and the quote is missing.
pub open spec fn value_start(line: Seq<char>, field: Seq<char>, i: int) -> Option<int> {
    let a = i + quoted_key(field).len();
    let b = a + leading_ws(line.skip(a));
    if b < line.len() && line[b] == ':' {
        let c = b + 1;
        let d = c + leading_ws(line.skip(c));
        if d < line.len() && line[d] == '"' {
            Some(d + 1)
        } else {
            None
        }
    } else {
        None
    }
}

/// Whether `line` holds the text of `field` exactly between `start` and `end`: the first
/// occurrence of the quoted key is followed by `:` and `"` (white space allowed around the
/// colon), and `end` is the first unescaped `"` after that.
pub open spec fn field_text_at(line: Seq<char>, field: Seq<char>, start: int, end: int) -> bool {
    exists|i: int|
        first_occurrence_at(line, quoted_key(field), i) && value_start(line, field, i) == Some(start)
            && start <= end && closing_quote_at(line.skip(start), end - start)
}

/// Whether `line` holds a text for `field` at all.
pub open spec fn has_field_text(line: Seq<char>, field: Seq<char>) -> bool {
    exists|start: int, end: int| field_text_at(line, field, start, end)
}

/// The text of `field` in `line`, when `has_field_text(line, field)`.
pub open spec fn field_text(line: Seq<char>, field: Seq<char>) -> Seq<char> {
    let (start, end) = choose|start: int, end: int| field_text_at(line, field, start, end);
    line.subrange(start, end)
}

/// The text of a field is unique: one start and one end satisfy `field_text_at`.
pub proof fn lemma_field_text_unique(line: Seq<char>, field: Seq<char>, s1: int, e1: int, s2: int, e2: int)
    requires
        field_text_at(line, field, s1, e1),
        field_text_at(line, field, s2, e2),
    ensures
        s1 == s2,
        e1 == e2,
{
    let key = quoted_key(field);
    let i1 = choose|i: int|
        first_occurrence_at(line, key, i) && value_start(line, field, i) == Some(s1) && s1 <= e1
            && closing_quote_at(line.skip(s1), e1 - s1);
    let i2 = choose|i: int|
        first_occurrence_at(line, key, i) && value_start(line, field, i) == Some(s2) && s2 <= e2
            && closing_quote_at(line.skip(s2), e2 - s2);
    lemma_first_occurrence_unique(line, key, i1);
    assert(i1 == i2);
    let t = line.skip(s1);
    let j1 = e1 - s1;
    let j2 = e2 - s1;
    if j1 < j2 {
        assert(!(t[j1] == '"' && !escaped_at(t, j1 as nat)));
    } else if j2 < j1 {
        assert(!(t[j2] == '"' && !escaped_at(t, j2 as nat)));
    }
}

/// Where the text of a field lies, it is `field_text`.
pub proof fn lemma_field_text_is(line: Seq<char>, field: Seq<char>, start: int, end: int)
    requires
        field_text_at(line, field, start, end),
    ensures
        has_field_text(line, field),
        field_text(line, field) == line.subrange(start, end),
{
    let (s0, e0) = choose|s0: int, e0: int| field_text_at(line, field, s0, e0);
    lemma_field_text_unique(line, field, start, end, s0, e0);
}

/// The characters of a string, in order.
pub fn chars_of(s: &str) -> (r: Vec<char>)
    ensures
        r@ == s@,
{
    let mut r: Vec<char> = Vec::new();
    for c in it: s.chars()
        invariant
            it.seq() == s@,
            r@ == s@.take(it.index()),
    {
        proof {
            assert(s@.take(it.index() + 1) =~= s@.take(it.index()).push(c));
        }
        r.push(c);
    }
    assert(s@.take(s@.len() as int) =~= s@);
    r
}

/// The index of the first white-space-free character of `s` at or after `from`.
fn skip_whitespace(s: &Vec<char>, from: usize) -> (r: usize)
    requires
        from <= s@.len(),
    ensures
        r == from + leading_ws(s@.skip(from as int)),
        r <= s@.len(),
{
    let mut i = from;
    proof { lemma_leading_ws_bound(s@.skip(from as int)); }
    while i < s.len() && is_whitespace(s[i])
        invariant
            from <= i <= s@.len(),
            from + leading_ws(s@.skip(from as int)) == i + leading_ws(s@.skip(i as int)),
        decreases s@.len() - i,
    {
        proof {
            assert(s@.skip(i as int).drop_first() =~= s@.skip(i + 1));
        }
        i += 1;
    }
    i
}

proof fn lemma_leading_ws_bound(s: Seq<char>)
    ensures
        leading_ws(s) <= s.len(),
    decreases s.len(),
{
    if s.len() > 0 {
        lemma_leading_ws_bound(s.drop_first());
    }
}

/// The first index at which `pat` occurs in `line`, if any.
fn find_first(line: &Vec<char>, pat: &Vec<char>) -> (r: Option<usize>)
    ensures
        match r {
            Some(i) => first_occurrence_at(line@, pat@, i as int),
            None => forall|j: int| !occurs_at(line@, pat@, j),
        },
{
    if pat.len() > line.len() {
        return None;
    }
    let n = line.len();
    let last = n - pat.len();
    let mut i: usize = 0;
    while i <= last
        invariant
            last == line@.len() - pat@.len(),
            pat@.len() <= line@.len(),
            n == line@.len(),
            forall|j: int| 0 <= j < i ==> !occurs_at(line@, pat@, j),
        decreases last + 1 - i,
    {
        let mut k: usize = 0;
        let mut same = true;
        while k < pat.len()
            invariant
                i <= last,
                last == line@.len() - pat@.len(),
                pat@.len() <= line@.len(),
                n == line@.len(),
                k <= pat@.len(),
                same == forall|m: int| 0 <= m < k ==> line@[i + m] == pat@[m],
            decreases pat@.len() - k,
        {
            if line[i + k] != pat[k] {
                same = false;
            }
            k += 1;
        }
        if same {
            assert(line@.subrange(i as int, i + pat@.len()) =~= pat@);
            return Some(i);
        }
        assert(!occurs_at(line@, pat@, i as int)) by {
            if occurs_at(line@, pat@, i as int) {
                let m = choose|m: int| 0 <= m < pat@.len() && line@[i + m] != pat@[m];
                assert(line@.subrange(i as int, i + pat@.len())[m] == line@[i + m]);
            }
        }
        if i == last {
            assert forall|j: int| !occurs_at(line@, pat@, j) by {
                if 0 <= j < i {
                }
            }
            return None;
        }
        i += 1;
    }
    None
}

/// The index, counted from `from`, of the first unescaped `"` at or after `from`.
fn find_closing_quote(s: &Vec<char>, from: usize) -> (r: Option<usize>)
    requires
        from <= s@.len(),
    ensures
        match r {
            Some(j) => closing_quote_at(s@.skip(from as int), j as int),
            None => !has_closing_quote(s@.skip(from as int)),
        },
{
    let ghost t = s@.skip(from as int);
    let mut escaped = false;
    let mut i = from;
    while i < s.len()
        invariant
            from <= i <= s@.len(),
            t == s@.skip(from as int),
            escaped == escaped_at(t, (i - from) as nat),
            forall|k: int| 0 <= k < i - from ==> !(t[k] == '"' && !escaped_at(t, k as nat)),
        decreases s@.len() - i,
    {
        let c = s[i];
        assert(t[i - from] == c);
        if escaped {
            escaped = false;
        } else if c == '\\' {
            escaped = true;
        } else if c == '"' {
            return Some(i - from);
        }
        i += 1;
    }
    None
}

/// The text of the string field `field` in the JSON line `line`: the characters after the
/// first `"field"`, white space, `:`, white space and `"`, up to the next unescaped `"`.
/// Escape sequences stay as they are. `None` when the key is missing, the colon or the
/// opening quote does not follow, or the string is not closed.
pub fn extract_text_fast<'a>(line: &'a str, field: &str) -> (r: Option<&'a str>)
    ensures
        r is Some <==> has_field_text(line@, field@),
        r matches Some(t) ==> t@ == field_text(line@, field@),
{
    let chars = chars_of(line);
    let mut pat: Vec<char> = Vec::new();
    pat.push('"');
    let fchars = chars_of(field);
    let mut k: usize = 0;
    while k < fchars.len()
        invariant
            k <= fchars@.len(),
            pat@ == seq!['"'] + fchars@.take(k as int),
        decreases fchars@.len() - k,
    {
        pat.push(fchars[k]);
        assert(fchars@.take(k + 1) =~= fchars@.take(k as int).push(fchars@[k as int]));
        k += 1;
    }
    pat.push('"');
    assert(fchars@.take(fchars@.len() as int) =~= fchars@);
    assert(pat@ =~= quoted_key(field@));
    let found = find_first(&chars, &pat);
    let i = match found {
        Some(i) => i,
        None => {
            proof { lemma_no_text_without_key(line@, field@); }
            return None;
        },
    };
    proof { lemma_first_occurrence_unique(line@, quoted_key(field@), i as int); }
    let n = chars.len();
    assert(occurs_at(chars@, pat@, i as int));
    assert(i + pat@.len() <= n);
    let a = i + pat.len();
    let b = skip_whitespace(&chars, a);
    if b >= chars.len() || chars[b] != ':' {
        proof { lemma_no_text_without_start(line@, field@, i as int); }
        return None;
    }
    let c = b + 1;
    let d = skip_whitespace(&chars, c);
    if d >= chars.len() || chars[d] != '"' {
        proof { lemma_no_text_without_start(line@, field@, i as int); }
        return None;
    }
    let e = d + 1;
    assert(value_start(line@, field@, i as int) == Some(e as int));
    match find_closing_quote(&chars, e) {
        Some(j) => {
            assert(field_text_at(line@, field@, e as int, (e + j) as int));
            proof { lemma_field_text_is(line@, field@, e as int, (e + j) as int); }
            Some(line.substring_char(e, e + j))
        },
        None => {
            proof {
                if has_field_text(line@, field@) {
                    let (s0, e0) = choose|s0: int, e0: int| field_text_at(line@, field@, s0, e0);
                    let i0 = choose|i0: int|
                        first_occurrence_at(line@, quoted_key(field@), i0) && value_start(line@, field@, i0) == Some(s0)
                            && s0 <= e0 && closing_quote_at(line@.skip(s0), e0 - s0);
                    lemma_first_occurrence_unique(line@, quoted_key(field@), i0);
                    assert(i0 == i);
                    let tq = line@.skip(e as int);
                    assert(tq[e0 - s0] == '"' && !escaped_at(tq, (e0 - s0) as nat));
                }
            }
            None
        },
    }
}

proof fn lemma_first_occurrence_unique(line: Seq<char>, pat: Seq<char>, i: int)
    requires
        first_occurrence_at(line, pat, i),
    ensures
        forall|j: int| #[trigger] first_occurrence_at(line, pat, j) ==> j == i,
{
    assert forall|j: int| #[trigger] first_occurrence_at(line, pat, j) implies j == i by {
        if j < i {
            assert(!occurs_at(line, pat, j));
        } else if j > i {
            assert(!occurs_at(line, pat, i));
        }
    }
}

proof fn lemma_no_text_without_key(line: Seq<char>, field: Seq<char>)
    requires
        forall|j: int| !occurs_at(line, quoted_key(field), j),
    ensures
        !has_field_text(line, field),
{
    if has_field_text(line, field) {
        let (s0, e0) = choose|s0: int, e0: int| field_text_at(line, field, s0, e0);
        let i0 = choose|i0: int|
            first_occurrence_at(line, quoted_key(field), i0) && value_start(line, field, i0) == Some(s0)
                && s0 <= e0 && closing_quote_at(line.skip(s0), e0 - s0);
        assert(occurs_at(line, quoted_key(field), i0));
    }
}

proof fn lemma_no_text_without_start(line: Seq<char>, field: Seq<char>, i: int)
    requires
        first_occurrence_at(line, quoted_key(field), i),
        value_start(line, field, i) is None,
    ensures
        !has_field_text(line, field),
{
    lemma_first_occurrence_unique(line, quoted_key(field), i);
    if has_field_text(line, field) {
        let (s0, e0) = choose|s0: int, e0: int| field_text_at(line, field, s0, e0);
        let i0 = choose|i0: int|
            first_occurrence_at(line, quoted_key(field), i0) && value_start(line, field, i0) == Some(s0)
                && s0 <= e0 && closing_quote_at(line.skip(s0), e0 - s0);
        assert(i0 == i);
    }
}

/// Whether `line` holds, at index `i`, a double quote, the characters of `field` and a
/// double quote.
pub open spec fn quoted_field_at(line: Seq<char>, field: Seq<char>, i: int) -> bool {
    &&& 0 <= i
    &&& i + field.len() + 2 <= line.len()
    &&& line[i] == '"'
    &&& line.subrange(i + 1, i + 1 + field.len()) == field
    &&& line[i + 1 + field.len()] == '"'
}

/// The key searched for is the field name between double quotes: it occurs at `i` exactly
/// when `line` holds `"`, the field name and `"` there.
pub proof fn lemma_key_is_quoted_field(line: Seq<char>, field: Seq<char>, i: int)
    ensures
        occurs_at(line, quoted_key(field), i) <==> quoted_field_at(line, field, i),
{
    let k = quoted_key(field);
    let fl = field.len() as int;
    assert(k.len() == field.len() + 2);
    assert(k[0] == '"');
    assert(k[fl + 1] == '"');
    assert(k.subrange(1, 1 + fl) =~= field);
    if occurs_at(line, k, i) {
        let sub = line.subrange(i, i + k.len());
        assert(sub[0] == line[i]);
        assert(sub[fl + 1] == line[i + 1 + field.len()]);
        assert(line.subrange(i + 1, i + 1 + field.len()) =~= sub.subrange(1, 1 + fl));
    }
    if quoted_field_at(line, field, i) {
        assert forall|j: int| 0 <= j < k.len() implies line.subrange(i, i + k.len())[j] == k[j] by {
            if 1 <= j <= fl {
                assert(line.subrange(i + 1, i + 1 + field.len())[j - 1] == line[i + j]);
            }
        }
        assert(line.subrange(i, i + k.len()) =~= k);
    }
}

/// Where the text of a field lies, the field name in double quotes occurs before it (and
/// nowhere earlier), the text is opened by a double quote and closed by the next unescaped
/// double quote.
pub proof fn lemma_field_text_shape(line: Seq<char>, field: Seq<char>, start: int, end: int)
    requires
        field_text_at(line, field, start, end),
    ensures
        exists|i: int|
            quoted_field_at(line, field, i) && i + field.len() + 2 < start && (forall|j: int| 0 <= j < i ==> !quoted_field_at(line, field, j)),
        1 <= start <= end < line.len(),
        line[start - 1] == '"',
        line[end] == '"',
        forall|j: int| start <= j < end ==> !(line[j] == '"' && !escaped_at(line.skip(start), (j - start) as nat)),
{
    let key = quoted_key(field);
    let i = choose|i: int|
        first_occurrence_at(line, key, i) && value_start(line, field, i) == Some(start) && start <= end
            && closing_quote_at(line.skip(start), end - start);
    lemma_key_is_quoted_field(line, field, i);
    assert forall|j: int| 0 <= j < i implies !quoted_field_at(line, field, j) by {
        lemma_key_is_quoted_field(line, field, j);
    }
    let t = line.skip(start);
    assert(t[end - start] == line[end]);
    assert forall|j: int| start <= j < end implies !(line[j] == '"' && !escaped_at(line.skip(start), (j - start) as nat)) by {
        assert(t[j - start] == line[j]);
    }
}

} // verus!
