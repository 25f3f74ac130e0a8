//! Character-level text helpers shared by the parsers.

use vstd::prelude::*;

verus! {

/// `<str as PartialEq>::eq`. The standard library compares string slices by
/// their UTF-8 bytes; as the encoding is one-to-one, they are equal exactly
/// when they hold the same characters, which is what the contract claims.
#[verifier::external_body]
pub(crate) fn str_eq(a: &str, b: &str) -> (equal: bool)
    ensures
        equal == (a@ == b@),
{
    a == b
}

} // verus!

verus! {

broadcast use vstd::string::group_string_axioms;

/// The characters of `s`, in order.
pub fn str_chars(s: &str) -> (chars: Vec<char>)
    ensures
        chars@ == s@,
{
    let mut chars: Vec<char> = Vec::new();
    for c in it: s.chars()
        invariant
            it.seq() == s@,
            chars@ == s@.take(it.index()),
    {
        chars.push(c);
        assert(chars@ =~= s@.take(it.index() + 1));
    }
    assert(chars@ =~= s@);
    chars
}

} // verus!

verus! {

/// Unicode `White_Space`, the set `char::is_whitespace` recognises.
pub open spec fn is_space(c: char) -> bool {
    let v = c as u32;
    ||| 0x9 <= v <= 0xd
    ||| v == 0x20
    ||| v == 0x85
    ||| v == 0xa0
    ||| v == 0x1680
    ||| 0x2000 <= v <= 0x200a
    ||| v == 0x2028
    ||| v == 0x2029
    ||| v == 0x202f
    ||| v == 0x205f
    ||| v == 0x3000
}

/// `s` without its leading whitespace.
pub open spec fn trim_start(s: Seq<char>) -> Seq<char>
    decreases s.len(),
{
    if s.len() > 0 && is_space(s[0]) {
        trim_start(s.drop_first())
    } else {
        s
    }
}

/// `s` without its trailing whitespace.
pub open spec fn trim_end(s: Seq<char>) -> Seq<char>
    decreases s.len(),
{
    if s.len() > 0 && is_space(s.last()) {
        trim_end(s.drop_last())
    } else {
        s
    }
}

/// `s` without leading and trailing whitespace, as `str::trim` gives it.
pub open spec fn trim(s: Seq<char>) -> Seq<char> {
    trim_end(trim_start(s))
}

/// `pat` occurs in `hay` at position `i`.
pub open spec fn occurs_at(hay: Seq<char>, pat: Seq<char>, i: int) -> bool {
    0 <= i && i + pat.len() <= hay.len() && hay.subrange(i, i + pat.len()) == pat
}

/// `pat` occurs somewhere in `hay`, as `str::contains` tests it.
pub open spec fn occurs_in(hay: Seq<char>, pat: Seq<char>) -> bool {
    exists|i: int| occurs_at(hay, pat, i)
}

/// The first position at or after `start` where `pat` occurs in `hay`.
pub open spec fn find_from(hay: Seq<char>, pat: Seq<char>, start: int) -> Option<int>
    decreases hay.len() - start,
{
    if start < 0 || start + pat.len() > hay.len() {
        None
    } else if hay.subrange(start, start + pat.len()) == pat {
        Some(start)
    } else if start < hay.len() {
        find_from(hay, pat, start + 1)
    } else {
        None
    }
}

/// `char::is_whitespace`.
pub fn is_whitespace(c: char) -> (space: bool)
    ensures
        space == is_space(c),
{
    let v = c as u32;
    (0x9 <= v && v <= 0xd) || v == 0x20 || v == 0x85 || v == 0xa0 || v == 0x1680 || (0x2000 <= v
        && v <= 0x200a) || v == 0x2028 || v == 0x2029 || v == 0x202f || v == 0x205f || v == 0x3000
}

proof fn lemma_trim_start_skips(s: Seq<char>, k: int)
    requires
        0 <= k <= s.len(),
        forall|j: int| 0 <= j < k ==> is_space(#[trigger] s[j]),
        k == s.len() || !is_space(s[k]),
    ensures
        trim_start(s) == s.subrange(k, s.len() as int),
    decreases k,
{
    if k == 0 {
        assert(s.subrange(0, s.len() as int) =~= s);
    } else {
        let t = s.drop_first();
        assert forall|j: int| 0 <= j < k - 1 implies is_space(#[trigger] t[j]) by {
            assert(t[j] == s[j + 1]);
        }
        if k - 1 < t.len() {
            assert(t[k - 1] == s[k]);
        }
        lemma_trim_start_skips(t, k - 1);
        assert(t.subrange(k - 1, t.len() as int) =~= s.subrange(k, s.len() as int));
    }
}

proof fn lemma_trim_end_drops(s: Seq<char>, k: int)
    requires
        0 <= k <= s.len(),
        forall|j: int| k <= j < s.len() ==> is_space(#[trigger] s[j]),
        k == 0 || !is_space(s[k - 1]),
    ensures
        trim_end(s) == s.subrange(0, k),
    decreases s.len() - k,
{
    if k == s.len() {
        assert(s.subrange(0, k) =~= s);
    } else {
        let t = s.drop_last();
        assert forall|j: int| k <= j < t.len() implies is_space(#[trigger] t[j]) by {
            assert(t[j] == s[j]);
        }
        if k > 0 {
            assert(t[k - 1] == s[k - 1]);
        }
        lemma_trim_end_drops(t, k);
        assert(t.subrange(0, k) =~= s.subrange(0, k));
    }
}

/// The bounds `(a, b)` such that `chars[a..b]` is `chars[from..to]` trimmed.
pub fn trim_bounds(chars: &Vec<char>, from: usize, to: usize) -> (bounds: (usize, usize))
    requires
        from <= to <= chars@.len(),
    ensures
        from <= bounds.0 <= bounds.1 <= to,
        chars@.subrange(bounds.0 as int, bounds.1 as int) == trim(
            chars@.subrange(from as int, to as int),
        ),
{
    let ghost s = chars@.subrange(from as int, to as int);
    let mut a: usize = from;
    while a < to && is_whitespace(chars[a])
        invariant
            from <= a <= to <= chars@.len(),
            s == chars@.subrange(from as int, to as int),
            forall|j: int| from <= j < a ==> is_space(#[trigger] chars@[j]),
        decreases to - a,
    {
        a += 1;
    }
    proof {
        assert forall|j: int| 0 <= j < a - from implies is_space(#[trigger] s[j]) by {
            assert(s[j] == chars@[from + j]);
        }
        if a < to {
            assert(s[a - from] == chars@[a as int]);
        }
        lemma_trim_start_skips(s, a - from);
    }
    let ghost t = chars@.subrange(a as int, to as int);
    assert(trim_start(s) =~= t);
    let mut b: usize = to;
    while b > a && is_whitespace(chars[b - 1])
        invariant
            a <= b <= to <= chars@.len(),
            t == chars@.subrange(a as int, to as int),
            forall|j: int| b <= j < to ==> is_space(#[trigger] chars@[j]),
        decreases b - a,
    {
        b -= 1;
    }
    proof {
        assert forall|j: int| b - a <= j < t.len() implies is_space(#[trigger] t[j]) by {
            assert(t[j] == chars@[a + j]);
        }
        if b > a {
            assert(t[b - a - 1] == chars@[b - 1]);
        }
        lemma_trim_end_drops(t, b - a);
        assert(t.subrange(0, b - a) =~= chars@.subrange(a as int, b as int));
    }
    (a, b)
}

/// Whether `pat` occurs in `hay` at position `i`.
fn matches_at(hay: &Vec<char>, pat: &Vec<char>, i: usize) -> (found: bool)
    requires
        i + pat@.len() <= hay@.len(),
    ensures
        found == (hay@.subrange(i as int, i + pat@.len()) == pat@),
{
    let mut j: usize = 0;
    while j < pat.len()
        invariant
            j <= pat@.len(),
            i + pat@.len() <= hay@.len(),
            hay@.len() == hay.len(),
            forall|m: int| 0 <= m < j ==> hay@[i + m] == pat@[m],
        decreases pat@.len() - j,
    {
        if hay[i + j] != pat[j] {
            assert(hay@.subrange(i as int, i + pat@.len())[j as int] != pat@[j as int]);
            return false;
        }
        j += 1;
    }
    assert(hay@.subrange(i as int, i + pat@.len()) =~= pat@);
    true
}

/// The first position at or after `start` where `pat` occurs in `hay`.
pub fn find_chars(hay: &Vec<char>, pat: &Vec<char>, start: usize) -> (found: Option<usize>)
    ensures
        found matches Some(i) ==> find_from(hay@, pat@, start as int) == Some(i as int),
        found is None ==> find_from(hay@, pat@, start as int) is None,
{
    if pat.len() > hay.len() || start > hay.len() - pat.len() {
        return None;
    }
    let last = hay.len() - pat.len();
    let mut i: usize = start;
    while i <= last
        invariant
            start <= i,
            last + pat@.len() == hay@.len(),
            i <= last + 1,
            find_from(hay@, pat@, start as int) == find_from(hay@, pat@, i as int),
        decreases last + 1 - i,
    {
        if matches_at(hay, pat, i) {
            return Some(i);
        }
        if i == last {
            assert(find_from(hay@, pat@, i + 1) is None);
            return None;
        }
        i += 1;
    }
    None
}

/// `find_from` gives the first occurrence at or after `start`, and `None`
/// exactly when there is none.
pub proof fn lemma_find_from_first(hay: Seq<char>, pat: Seq<char>, start: int)
    requires
        0 <= start,
    ensures
        find_from(hay, pat, start) matches Some(i) ==> start <= i && occurs_at(hay, pat, i)
            && forall|j: int| start <= j < i ==> !occurs_at(hay, pat, j),
        find_from(hay, pat, start) is None ==> forall|j: int| start <= j ==> !occurs_at(hay, pat, j),
    decreases hay.len() - start,
{
    if start + pat.len() > hay.len() {
    } else if hay.subrange(start, start + pat.len()) == pat {
    } else if start < hay.len() {
        lemma_find_from_first(hay, pat, start + 1);
    } else {
        assert(pat.len() == 0);
        assert(hay.subrange(start, start + pat.len()) =~= pat);
    }
}

/// Whether `pat` occurs in `hay`.
pub fn contains_chars(hay: &Vec<char>, pat: &Vec<char>) -> (found: bool)
    ensures
        found == occurs_in(hay@, pat@),
{
    let r = find_chars(hay, pat, 0);
    proof {
        lemma_find_from_first(hay@, pat@, 0);
    }
    r.is_some()
}

} // verus!

verus! {

/// `String::push`: appends one character.
#[verifier::external_body]
pub(crate) fn string_push(s: &mut String, c: char)
    ensures
        final(s)@ == old(s)@.push(c),
{
    s.push(c)
}

/// `std::str::from_utf8`: the text the bytes encode, exactly when they are
/// well-formed UTF-8.
#[verifier::external_body]
pub(crate) fn utf8_text(bytes: &[u8]) -> (text: Option<&str>)
    ensures
        text is Some <==> vstd::utf8::valid_utf8(bytes@),
        text matches Some(t) ==> t@ == vstd::utf8::decode_utf8(bytes@),
{
    std::str::from_utf8(bytes).ok()
}

/// A `String` holding `chars[from..to]`.
pub fn string_of(chars: &Vec<char>, from: usize, to: usize) -> (s: String)
    requires
        from <= to <= chars@.len(),
    ensures
        s@ == chars@.subrange(from as int, to as int),
{
    let mut s = String::new();
    let mut i: usize = from;
    while i < to
        invariant
            from <= i <= to <= chars@.len(),
            s@ == chars@.subrange(from as int, i as int),
        decreases to - i,
    {
        string_push(&mut s, chars[i]);
        assert(s@ =~= chars@.subrange(from as int, i + 1));
        i += 1;
    }
    s
}

/// A copy of `chars[from..to]`.
pub fn chars_of(chars: &Vec<char>, from: usize, to: usize) -> (part: Vec<char>)
    requires
        from <= to <= chars@.len(),
    ensures
        part@ == chars@.subrange(from as int, to as int),
{
    let mut part: Vec<char> = Vec::new();
    let mut i: usize = from;
    while i < to
        invariant
            from <= i <= to <= chars@.len(),
            part@ == chars@.subrange(from as int, i as int),
        decreases to - i,
    {
        part.push(chars[i]);
        assert(part@ =~= chars@.subrange(from as int, i + 1));
        i += 1;
    }
    part
}

/// Whether `chars[from..to]` spells `word`.
pub fn range_equals(chars: &Vec<char>, from: usize, to: usize, word: &Vec<char>) -> (equal: bool)
    requires
        from <= to <= chars@.len(),
    ensures
        equal == (chars@.subrange(from as int, to as int) == word@),
{
    if to - from != word.len() {
        assert(chars@.subrange(from as int, to as int).len() != word@.len());
        return false;
    }
    let mut j: usize = 0;
    while j < word.len()
        invariant
            j <= word@.len(),
            from + word@.len() == to <= chars@.len(),
            forall|m: int| 0 <= m < j ==> chars@[from + m] == word@[m],
        decreases word@.len() - j,
    {
        if chars[from + j] != word[j] {
            assert(chars@.subrange(from as int, to as int)[j as int] != word@[j as int]);
            return false;
        }
        j += 1;
    }
    assert(chars@.subrange(from as int, to as int) =~= word@);
    true
}

/// The pieces of `s` from `start` on between commas, as `str::split(',')`
/// yields them: one more piece than there are commas.
pub open spec fn split_commas_from(s: Seq<char>, start: int) -> Seq<Seq<char>>
    decreases s.len() - start,
{
    if start < 0 || start > s.len() {
        Seq::empty()
    } else {
        match find_from(s, seq![','], start) {
            None => seq![s.subrange(start, s.len() as int)],
            Some(i) => {
                proof {
                    lemma_find_from_first(s, seq![','], start);
                }
                seq![s.subrange(start, i)] + split_commas_from(s, i + 1)
            },
        }
    }
}

/// The comma-separated pieces of `s`.
pub open spec fn split_commas(s: Seq<char>) -> Seq<Seq<char>> {
    split_commas_from(s, 0)
}

/// The `(start, end)` bounds in `chars` of the comma-separated pieces of
/// `chars`.
#[verifier::spinoff_prover]
pub fn split_comma_bounds(chars: &Vec<char>) -> (bounds: Vec<(usize, usize)>)
    ensures
        bounds@.len() == split_commas(chars@).len(),
        forall|k: int|
            0 <= k < bounds@.len() ==> #[trigger] bounds@[k].0 <= bounds@[k].1 <= chars@.len()
                && chars@.subrange(bounds@[k].0 as int, bounds@[k].1 as int) == split_commas(
                chars@,
            )[k],
{
    let mut comma: Vec<char> = Vec::new();
    comma.push(',');
    assert(comma@ =~= seq![',']);
    let mut bounds: Vec<(usize, usize)> = Vec::new();
    let mut start: usize = 0;
    loop
        invariant_except_break
            split_commas(chars@) == bounds@.map_values(
                |b: (usize, usize)| chars@.subrange(b.0 as int, b.1 as int),
            ) + split_commas_from(chars@, start as int),
        invariant
            comma@ == seq![','],
            start <= chars@.len(),
            forall|k: int|
                0 <= k < bounds@.len() ==> #[trigger] bounds@[k].0 <= bounds@[k].1 <= chars@.len(),
        ensures
            split_commas(chars@) == bounds@.map_values(
                |b: (usize, usize)| chars@.subrange(b.0 as int, b.1 as int),
            ),
            forall|k: int|
                0 <= k < bounds@.len() ==> #[trigger] bounds@[k].0 <= bounds@[k].1 <= chars@.len(),
        decreases chars@.len() - start,
    {
        let ghost before = bounds@.map_values(
            |b: (usize, usize)| chars@.subrange(b.0 as int, b.1 as int),
        );
        match find_chars(chars, &comma, start) {
            None => {
                bounds.push((start, chars.len()));
                assert(bounds@.map_values(|b: (usize, usize)| chars@.subrange(b.0 as int, b.1 as int))
                    =~= before.push(chars@.subrange(start as int, chars@.len() as int)));
                assert(before + split_commas_from(chars@, start as int) =~= before.push(
                    chars@.subrange(start as int, chars@.len() as int),
                ));
                break ;
            },
            Some(i) => {
                proof {
                    lemma_find_from_first(chars@, seq![','], start as int);
                    assert(i + 1 <= chars@.len());
                    assert(chars@.len() == chars.len());
                }
                bounds.push((start, i));
                assert(bounds@.map_values(|b: (usize, usize)| chars@.subrange(b.0 as int, b.1 as int))
                    =~= before.push(chars@.subrange(start as int, i as int)));
                assert(before + split_commas_from(chars@, start as int) =~= bounds@.map_values(
                    |b: (usize, usize)| chars@.subrange(b.0 as int, b.1 as int),
                ) + split_commas_from(chars@, i + 1));
                start = i + 1;
            },
        }
    }
    bounds
}

} // verus!

verus! {

/// The characters with the Unicode `White_Space` property.
pub open spec fn unicode_white_space(c: char) -> bool {
    ||| c == '\t' || c == '\n' || c == '\u{b}' || c == '\u{c}' || c == '\r'
    ||| c == ' ' || c == '\u{85}' || c == '\u{a0}' || c == '\u{1680}'
    ||| c == '\u{2000}' || c == '\u{2001}' || c == '\u{2002}' || c == '\u{2003}'
    ||| c == '\u{2004}' || c == '\u{2005}' || c == '\u{2006}' || c == '\u{2007}'
    ||| c == '\u{2008}' || c == '\u{2009}' || c == '\u{200a}'
    ||| c == '\u{2028}' || c == '\u{2029}' || c == '\u{202f}' || c == '\u{205f}'
    ||| c == '\u{3000}'
}

/// Every character of `w` is whitespace.
pub open spec fn all_space(w: Seq<char>) -> bool {
    forall|k: int| 0 <= k < w.len() ==> is_space(#[trigger] w[k])
}

proof fn lemma_trim_start_prefix(w: Seq<char>, t: Seq<char>)
    requires
        all_space(w),
    ensures
        trim_start(w + t) == trim_start(t),
    decreases w.len(),
{
    if w.len() > 0 {
        assert((w + t)[0] == w[0]);
        assert((w + t).drop_first() =~= w.drop_first() + t);
        assert forall|k: int| 0 <= k < w.drop_first().len() implies is_space(
            #[trigger] w.drop_first()[k],
        ) by {
            assert(w.drop_first()[k] == w[k + 1]);
        }
        lemma_trim_start_prefix(w.drop_first(), t);
    } else {
        assert(w + t =~= t);
    }
}

proof fn lemma_trim_end_suffix(t: Seq<char>, w: Seq<char>)
    requires
        all_space(w),
    ensures
        trim_end(t + w) == trim_end(t),
    decreases w.len(),
{
    if w.len() > 0 {
        assert((t + w).last() == w.last());
        assert((t + w).drop_last() =~= t + w.drop_last());
        assert forall|k: int| 0 <= k < w.drop_last().len() implies is_space(
            #[trigger] w.drop_last()[k],
        ) by {
            assert(w.drop_last()[k] == w[k]);
        }
        lemma_trim_end_suffix(t, w.drop_last());
    } else {
        assert(t + w =~= t);
    }
}

proof fn lemma_trim_start_append(t: Seq<char>, w: Seq<char>)
    ensures
        trim_start(t).len() > 0 ==> trim_start(t + w) == trim_start(t) + w,
        trim_start(t).len() == 0 ==> trim_start(t + w) == trim_start(w),
    decreases t.len(),
{
    if t.len() == 0 {
        assert(t + w =~= w);
    } else {
        assert((t + w)[0] == t[0]);
        if is_space(t[0]) {
            assert((t + w).drop_first() =~= t.drop_first() + w);
            lemma_trim_start_append(t.drop_first(), w);
        }
    }
}

proof fn lemma_space_is_white_space(c: char)
    ensures
        is_space(c) ==> unicode_white_space(c),
{
}

/// Whitespace around a text does not change what trimming it gives.
pub proof fn lemma_trim_ignores_outer_space(before: Seq<char>, t: Seq<char>, after: Seq<char>)
    requires
        all_space(before),
        all_space(after),
    ensures
        trim(before + t + after) == trim(t),
{
    assert(before + t + after =~= before + (t + after));
    lemma_trim_start_prefix(before, t + after);
    lemma_trim_start_append(t, after);
    if trim_start(t).len() > 0 {
        lemma_trim_end_suffix(trim_start(t), after);
    } else {
        assert(after + Seq::<char>::empty() =~= after);
        lemma_trim_start_prefix(after, Seq::<char>::empty());
        assert(trim_start(t) =~= Seq::<char>::empty());
    }
}

/// Trimming removes exactly the Unicode `White_Space` characters, as
/// `str::trim` does: such a character at either end of a text is dropped,
/// and any other character is kept, as is everything between the first and
/// last characters that are not whitespace.
pub proof fn lemma_trim_white_space(c: char, t: Seq<char>)
    ensures
        unicode_white_space(c) ==> trim(seq![c] + t) == trim(t) && trim(t + seq![c]) == trim(t),
        !unicode_white_space(c) ==> trim(seq![c]) == seq![c],
        t.len() > 0 && !unicode_white_space(t[0]) && !unicode_white_space(t.last()) ==> trim(t)
            == t,
{
    if t.len() > 0 && !unicode_white_space(t[0]) && !unicode_white_space(t.last()) {
        lemma_space_is_white_space(t[0]);
        lemma_space_is_white_space(t.last());
        assert(trim_start(t) == t);
    }
    if unicode_white_space(c) {
        assert(is_space(seq![c][0]));
        assert(seq![c] + t =~= seq![c] + t + Seq::<char>::empty());
        lemma_trim_ignores_outer_space(seq![c], t, Seq::<char>::empty());
        assert(t + seq![c] =~= Seq::<char>::empty() + t + seq![c]);
        lemma_trim_ignores_outer_space(Seq::<char>::empty(), t, seq![c]);
    } else {
        lemma_space_is_white_space(c);
        assert(seq![c][0] == c);
        assert(trim_start(seq![c]) == seq![c]);
        assert(seq![c].last() == c);
    }
}

} // verus!
