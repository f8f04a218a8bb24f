//! Character-sequence primitives with their specifications: conversion
//! between `String` and `Vec<char>`, trimming, decimal formatting and
//! parsing, literal search, split, replace and join.
use vstd::prelude::*;

verus! {

/// Appends one character to a `String` (`String::push`).
/// Claimed: the new contents are the old contents followed by `c`.
#[verifier::external_body]
pub fn push_char(s: &mut String, c: char)
    ensures
        final(s)@ == old(s)@.push(c),
{
    s.push(c);
}

/// The characters of a string slice, in order.
pub fn chars_of(s: &str) -> (v: Vec<char>)
    ensures
        v@ == s@,
{
    let n = s.unicode_len();
    let mut v: Vec<char> = Vec::new();
    let mut i: usize = 0;
    while i < n
        invariant
            n == s@.len(),
            i <= n,
            v@ == s@.take(i as int),
        decreases n - i,
    {
        let c = s.get_char(i);
        v.push(c);
        assert(s@.take(i as int).push(c) =~= s@.take(i + 1));
        i = i + 1;
    }
    assert(s@.take(n as int) =~= s@);
    v
}

/// A `String` holding exactly the given characters.
pub fn string_of(v: &[char]) -> (s: String)
    ensures
        s@ == v@,
{
    let mut s = String::new();
    let mut i: usize = 0;
    while i < v.len()
        invariant
            i <= v@.len(),
            s@ == v@.take(i as int),
        decreases v@.len() - i,
    {
        push_char(&mut s, v[i]);
        assert(v@.take(i as int).push(v@[i as int]) =~= v@.take(i + 1));
        i = i + 1;
    }
    assert(v@.take(v@.len() as int) =~= v@);
    s
}


/// The characters carrying the Unicode `White_Space` property: the set that
/// `char::is_whitespace` and `str::trim` use.
pub open spec fn is_white_space(c: char) -> bool {
    ||| ('\t' <= c && c <= '\r')
    ||| c == ' '
    ||| c == '\u{85}'
    ||| c == '\u{a0}'
    ||| c == '\u{1680}'
    ||| ('\u{2000}' <= c && c <= '\u{200a}')
    ||| c == '\u{2028}'
    ||| c == '\u{2029}'
    ||| c == '\u{202f}'
    ||| c == '\u{205f}'
    ||| c == '\u{3000}'
}

/// `s` without its leading white space.
pub open spec fn trim_start(s: Seq<char>) -> Seq<char>
    decreases s.len(),
{
    if s.len() > 0 && is_white_space(s[0]) {
        trim_start(s.drop_first())
    } else {
        s
    }
}

/// `s` without its trailing white space.
pub open spec fn trim_end(s: Seq<char>) -> Seq<char>
    decreases s.len(),
{
    if s.len() > 0 && is_white_space(s.last()) {
        trim_end(s.drop_last())
    } else {
        s
    }
}

/// `s` without leading and trailing white space (`str::trim`).
pub open spec fn trim(s: Seq<char>) -> Seq<char> {
    trim_end(trim_start(s))
}

/// Whether `c` is white space (see `is_white_space`).
pub fn is_white_space_char(c: char) -> (b: bool)
    ensures
        b == is_white_space(c),
{
    ('\t' <= c && c <= '\r') || c == ' ' || c == '\u{85}' || c == '\u{a0}' || c == '\u{1680}'
        || ('\u{2000}' <= c && c <= '\u{200a}') || c == '\u{2028}' || c == '\u{2029}'
        || c == '\u{202f}' || c == '\u{205f}' || c == '\u{3000}'
}

/// The characters `v[lo..hi]` as a new vector.
pub fn copy_range(v: &[char], lo: usize, hi: usize) -> (r: Vec<char>)
    requires
        lo <= hi <= v@.len(),
    ensures
        r@ == v@.subrange(lo as int, hi as int),
{
    let mut r: Vec<char> = Vec::new();
    let mut i = lo;
    while i < hi
        invariant
            lo <= i <= hi,
            hi <= v@.len(),
            r@ == v@.subrange(lo as int, i as int),
        decreases hi - i,
    {
        r.push(v[i]);
        assert(v@.subrange(lo as int, i as int).push(v@[i as int]) =~= v@.subrange(
            lo as int,
            i + 1,
        ));
        i = i + 1;
    }
    r
}

proof fn lemma_trim_start_skip(s: Seq<char>, i: int)
    requires
        0 <= i <= s.len(),
        forall|k: int| 0 <= k < i ==> is_white_space(#[trigger] s[k]),
    ensures
        trim_start(s) == trim_start(s.skip(i)),
    decreases i,
{
    if i > 0 {
        assert forall|k: int| 0 <= k < i - 1 implies is_white_space(
            #[trigger] s.drop_first()[k],
        ) by {
            assert(s.drop_first()[k] == s[k + 1]);
        }
        lemma_trim_start_skip(s.drop_first(), i - 1);
        assert(s.drop_first().skip(i - 1) =~= s.skip(i));
    } else {
        assert(s.skip(0) =~= s);
    }
}

proof fn lemma_trim_end_take(s: Seq<char>, i: int)
    requires
        0 <= i <= s.len(),
        forall|k: int| i <= k < s.len() ==> is_white_space(#[trigger] s[k]),
    ensures
        trim_end(s) == trim_end(s.take(i)),
    decreases s.len() - i,
{
    if i < s.len() {
        assert forall|k: int| i <= k < s.drop_last().len() implies is_white_space(
            #[trigger] s.drop_last()[k],
        ) by {
            assert(s.drop_last()[k] == s[k]);
        }
        lemma_trim_end_take(s.drop_last(), i);
        assert(s.drop_last().take(i) =~= s.take(i));
    } else {
        assert(s.take(i) =~= s);
    }
}

/// `str::trim` on a character vector.
pub fn trim_chars(v: &[char]) -> (r: Vec<char>)
    ensures
        r@ == trim(v@),
{
    let n = v.len();
    let mut lo: usize = 0;
    while lo < n && is_white_space_char(v[lo])
        invariant
            lo <= n,
            n == v@.len(),
            forall|k: int| 0 <= k < lo ==> is_white_space(#[trigger] v@[k]),
        decreases n - lo,
    {
        lo = lo + 1;
    }
    let mut hi: usize = n;
    while hi > lo && is_white_space_char(v[hi - 1])
        invariant
            lo <= hi <= n,
            n == v@.len(),
            forall|k: int| hi <= k < n ==> is_white_space(#[trigger] v@[k]),
        decreases hi - lo,
    {
        hi = hi - 1;
    }
    proof {
        lemma_trim_start_skip(v@, lo as int);
        let t = v@.skip(lo as int);
        assert(trim_start(t) == t);
        assert forall|k: int| hi - lo <= k < t.len() implies is_white_space(#[trigger] t[k]) by {
            assert(t[k] == v@[k + lo]);
        }
        lemma_trim_end_take(t, hi - lo);
        let u = t.take(hi - lo);
        assert(u =~= v@.subrange(lo as int, hi as int));
        if u.len() > 0 {
            assert(u.last() == v@[hi - 1]);
        }
        assert(trim_end(u) == u);
    }
    copy_range(v, lo, hi)
}


/// `'0'..='9'`.
pub open spec fn is_ascii_digit(c: char) -> bool {
    '0' <= c && c <= '9'
}

/// The value of a decimal digit character.
pub open spec fn digit_value(c: char) -> nat {
    (c as int - '0' as int) as nat
}

/// The character of a decimal digit `d < 10`.
pub open spec fn digit_char(d: nat) -> char {
    ('0' as int + d) as char
}

/// The number written by a sequence of decimal digits (0 when empty).
pub open spec fn decimal_value(d: Seq<char>) -> nat
    decreases d.len(),
{
    if d.len() == 0 {
        0
    } else {
        decimal_value(d.drop_last()) * 10 + digit_value(d.last())
    }
}

pub open spec fn all_ascii_digits(d: Seq<char>) -> bool {
    forall|i: int| 0 <= i < d.len() ==> is_ascii_digit(#[trigger] d[i])
}

/// What `str::parse::<usize>` gives: an optional `+`, then one or more
/// ASCII digits whose value fits in `usize`; anything else is an error.
pub open spec fn parse_usize(s: Seq<char>) -> Option<usize> {
    let d = if s.len() > 0 && s[0] == '+' {
        s.drop_first()
    } else {
        s
    };
    if d.len() > 0 && all_ascii_digits(d) && decimal_value(d) <= usize::MAX {
        Some(decimal_value(d) as usize)
    } else {
        None
    }
}

/// The decimal notation of `n`, without leading zeros (`"0"` for zero).
pub open spec fn decimal(n: nat) -> Seq<char>
    decreases n,
{
    if n < 10 {
        seq![digit_char(n)]
    } else {
        decimal(n / 10).push(digit_char(n % 10))
    }
}

/// `s` padded on the left with `'0'` to at least `width` characters, as
/// `format!("{:0>width$}", ..)` does.
pub open spec fn zero_pad(s: Seq<char>, width: nat) -> Seq<char> {
    if s.len() < width {
        Seq::new((width - s.len()) as nat, |_i: int| '0') + s
    } else {
        s
    }
}

/// The decimal notation of `n` padded with zeros to `width` characters.
pub open spec fn padded_number(n: nat, width: nat) -> Seq<char> {
    zero_pad(decimal(n), width)
}

pub fn digit_to_char(d: usize) -> (c: char)
    requires
        d < 10,
    ensures
        c == digit_char(d as nat),
        is_ascii_digit(c),
        digit_value(c) == d,
{
    match d {
        0 => '0',
        1 => '1',
        2 => '2',
        3 => '3',
        4 => '4',
        5 => '5',
        6 => '6',
        7 => '7',
        8 => '8',
        _ => '9',
    }
}

/// The decimal notation of `n`.
pub fn decimal_chars(n: usize) -> (r: Vec<char>)
    ensures
        r@ == decimal(n as nat),
    decreases n,
{
    if n < 10 {
        let mut r: Vec<char> = Vec::new();
        r.push(digit_to_char(n));
        assert(r@ =~= seq![digit_char(n as nat)]);
        r
    } else {
        let mut r = decimal_chars(n / 10);
        r.push(digit_to_char(n % 10));
        r
    }
}

/// `format!("{:0>width$}", n)`: the decimal notation of `n`, padded on the
/// left with zeros to at least `width` characters.
pub fn pad_number(n: usize, width: usize) -> (r: Vec<char>)
    ensures
        r@ == padded_number(n as nat, width as nat),
{
    let digits = decimal_chars(n);
    if digits.len() < width {
        let mut r: Vec<char> = Vec::new();
        let fill = width - digits.len();
        let mut i: usize = 0;
        while i < fill
            invariant
                i <= fill,
                r@ == Seq::new(i as nat, |_k: int| '0'),
            decreases fill - i,
        {
            r.push('0');
            assert(r@ =~= Seq::new((i + 1) as nat, |_k: int| '0'));
            i = i + 1;
        }
        let mut j: usize = 0;
        while j < digits.len()
            invariant
                j <= digits@.len(),
                r@ == Seq::new(fill as nat, |_k: int| '0') + digits@.take(j as int),
            decreases digits@.len() - j,
        {
            r.push(digits[j]);
            assert(digits@.take(j as int).push(digits@[j as int]) =~= digits@.take(j + 1));
            assert(r@ =~= Seq::new(fill as nat, |_k: int| '0') + digits@.take(j + 1));
            j = j + 1;
        }
        assert(digits@.take(digits@.len() as int) =~= digits@);
        r
    } else {
        digits
    }
}

/// `str::parse::<usize>`.
pub fn parse_usize_chars(s: &[char]) -> (r: Option<usize>)
    ensures
        r == parse_usize(s@),
{
    let start: usize = if s.len() > 0 && s[0] == '+' {
        1
    } else {
        0
    };
    let ghost d = if s@.len() > 0 && s@[0] == '+' {
        s@.drop_first()
    } else {
        s@
    };
    assert(d =~= s@.skip(start as int));
    if start >= s.len() {
        return None;
    }
    let mut acc: usize = 0;
    let mut too_big = false;
    let mut i = start;
    while i < s.len()
        invariant
            start <= i <= s@.len(),
            d == s@.skip(start as int),
            d == (if s@.len() > 0 && s@[0] == '+' {
                s@.drop_first()
            } else {
                s@
            }),
            forall|k: int| 0 <= k < i - start ==> is_ascii_digit(#[trigger] d[k]),
            !too_big ==> acc == decimal_value(d.take(i - start)),
            too_big ==> decimal_value(d.take(i - start)) > usize::MAX,
        decreases s@.len() - i,
    {
        let c = s[i];
        if !('0' <= c && c <= '9') {
            assert(d[i - start] == c);
            assert(!is_ascii_digit(d[i - start]));
            assert(!all_ascii_digits(d));
            return None;
        }
        let ghost prefix = d.take(i - start);
        assert(d.take(i - start + 1).drop_last() =~= prefix);
        assert(d.take(i - start + 1).last() == c);
        if !too_big {
            let dv = (c as u32 - '0' as u32) as usize;
            assert(dv == digit_value(c));
            match acc.checked_mul(10) {
                Some(m) => match m.checked_add(dv) {
                    Some(a) => {
                        acc = a;
                    },
                    None => {
                        too_big = true;
                    },
                },
                None => {
                    too_big = true;
                },
            }
        }
        i = i + 1;
    }
    assert(d.take(d.len() as int) =~= d);
    if too_big {
        None
    } else {
        Some(acc)
    }
}


/// Whether `pat` occurs in `s` starting at position `i`.
pub open spec fn occurs_at(s: Seq<char>, pat: Seq<char>, i: int) -> bool {
    0 <= i && i + pat.len() <= s.len() && s.subrange(i, i + pat.len()) == pat
}

/// The first position `>= i` at which `pat` occurs in `s`.
pub open spec fn find_from(s: Seq<char>, pat: Seq<char>, i: int) -> Option<int>
    decreases s.len() - i,
{
    if i < 0 || i + pat.len() > s.len() {
        None
    } else if occurs_at(s, pat, i) {
        Some(i)
    } else if i < s.len() {
        find_from(s, pat, i + 1)
    } else {
        None
    }
}

/// The leftmost position at which `pat` occurs in `s`.
pub open spec fn first_occurrence(s: Seq<char>, pat: Seq<char>) -> Option<int> {
    find_from(s, pat, 0)
}

pub proof fn lemma_find_from(s: Seq<char>, pat: Seq<char>, i: int)
    requires
        0 <= i,
    ensures
        match find_from(s, pat, i) {
            Some(k) => i <= k && occurs_at(s, pat, k) && forall|j: int|
                i <= j < k ==> !#[trigger] occurs_at(s, pat, j),
            None => forall|j: int| i <= j ==> !#[trigger] occurs_at(s, pat, j),
        },
    decreases s.len() - i,
{
    if i + pat.len() > s.len() {
    } else if occurs_at(s, pat, i) {
    } else if i < s.len() {
        lemma_find_from(s, pat, i + 1);
    } else {
        assert(occurs_at(s, pat, i) == (s.subrange(i, i) == pat));
        assert(s.subrange(i, i) =~= pat);
    }
}

/// A leftmost occurrence is what `first_occurrence` finds.
pub proof fn lemma_first_occurrence_is(s: Seq<char>, pat: Seq<char>, k: int)
    requires
        occurs_at(s, pat, k),
        forall|j: int| 0 <= j < k ==> !#[trigger] occurs_at(s, pat, j),
    ensures
        first_occurrence(s, pat) == Some(k),
{
    lemma_find_from(s, pat, 0);
}

/// No occurrence at all.
pub proof fn lemma_first_occurrence_none(s: Seq<char>, pat: Seq<char>)
    requires
        forall|j: int| 0 <= j ==> !#[trigger] occurs_at(s, pat, j),
    ensures
        first_occurrence(s, pat) is None,
{
    lemma_find_from(s, pat, 0);
}

pub proof fn lemma_occurs_at_skip(s: Seq<char>, pat: Seq<char>, p: int, j: int)
    requires
        0 <= p <= s.len(),
        0 <= j,
    ensures
        occurs_at(s.skip(p), pat, j) == occurs_at(s, pat, j + p),
{
    if 0 <= j && j + pat.len() <= s.len() - p {
        assert(s.skip(p).subrange(j, j + pat.len()) =~= s.subrange(j + p, j + p + pat.len()));
    }
}

/// The pieces of `s` between the leftmost non-overlapping occurrences of a
/// non-empty `sep` (`str::split` with a string pattern). There is always at
/// least one piece.
pub open spec fn split_on(s: Seq<char>, sep: Seq<char>) -> Seq<Seq<char>>
    decreases s.len(),
{
    if sep.len() == 0 {
        seq![s]
    } else {
        match first_occurrence(s, sep) {
            Some(i) => {
                proof {
                    lemma_find_from(s, sep, 0);
                }
                seq![s.take(i)] + split_on(s.skip(i + sep.len()), sep)
            },
            None => seq![s],
        }
    }
}

/// `s` with every leftmost non-overlapping occurrence of `pat` replaced by
/// `rep` (`str::replace`); an empty `pat` matches before every character
/// and at the end.
pub open spec fn replace_literal(s: Seq<char>, pat: Seq<char>, rep: Seq<char>) -> Seq<char>
    decreases s.len(),
{
    if pat.len() == 0 {
        interleave(s, rep)
    } else {
        match first_occurrence(s, pat) {
            Some(i) => {
                proof {
                    lemma_find_from(s, pat, 0);
                }
                s.take(i) + rep + replace_literal(s.skip(i + pat.len()), pat, rep)
            },
            None => s,
        }
    }
}

/// `rep` before each character of `s` and once more at the end.
pub open spec fn interleave(s: Seq<char>, rep: Seq<char>) -> Seq<char>
    decreases s.len(),
{
    if s.len() == 0 {
        rep
    } else {
        rep + seq![s[0]] + interleave(s.drop_first(), rep)
    }
}

/// The parts joined with `sep` between consecutive parts (`[T]::join`).
pub open spec fn join(parts: Seq<Seq<char>>, sep: Seq<char>) -> Seq<char>
    decreases parts.len(),
{
    if parts.len() == 0 {
        Seq::empty()
    } else if parts.len() == 1 {
        parts[0]
    } else {
        join(parts.drop_last(), sep) + sep + parts.last()
    }
}

/// The views of a sequence of strings.
pub open spec fn string_views(v: Seq<String>) -> Seq<Seq<char>> {
    v.map_values(|s: String| s@)
}

/// The views of a sequence of character vectors.
pub open spec fn views(v: Seq<Vec<char>>) -> Seq<Seq<char>> {
    v.map_values(|p: Vec<char>| p@)
}

pub fn chars_equal(a: &[char], b: &[char]) -> (r: bool)
    ensures
        r == (a@ == b@),
{
    if a.len() != b.len() {
        return false;
    }
    let mut i: usize = 0;
    while i < a.len()
        invariant
            a@.len() == b@.len(),
            i <= a@.len(),
            forall|k: int| 0 <= k < i ==> a@[k] == b@[k],
        decreases a@.len() - i,
    {
        if a[i] != b[i] {
            return false;
        }
        i = i + 1;
    }
    assert(a@ =~= b@);
    true
}

/// Whether `pat` occurs in `s` at position `i`.
pub fn matches_at(s: &[char], pat: &[char], i: usize) -> (r: bool)
    ensures
        r == occurs_at(s@, pat@, i as int),
{
    if pat.len() > s.len() || i > s.len() - pat.len() {
        return false;
    }
    let n = s.len();
    let mut k: usize = 0;
    while k < pat.len()
        invariant
            n == s@.len(),
            i + pat@.len() <= s@.len(),
            k <= pat@.len(),
            forall|j: int| 0 <= j < k ==> s@[i + j] == pat@[j],
        decreases pat@.len() - k,
    {
        assert(i + k < s@.len());
        if s[i + k] != pat[k] {
            assert(s@.subrange(i as int, i + pat@.len())[k as int] != pat@[k as int]);
            return false;
        }
        k = k + 1;
    }
    assert(s@.subrange(i as int, i + pat@.len()) =~= pat@);
    true
}

/// Appends all of `src` to `dst`.
pub fn append_chars(dst: &mut Vec<char>, src: &[char])
    ensures
        final(dst)@ == old(dst)@ + src@,
{
    let mut i: usize = 0;
    while i < src.len()
        invariant
            i <= src@.len(),
            dst@ == old(dst)@ + src@.take(i as int),
        decreases src@.len() - i,
    {
        dst.push(src[i]);
        assert(old(dst)@ + src@.take(i + 1) =~= old(dst)@ + src@.take(i as int) + seq![
            src@[i as int],
        ]);
        i = i + 1;
    }
    assert(src@.take(src@.len() as int) =~= src@);
}

/// `str::split` with a non-empty string pattern.
pub fn split_chars(s: &[char], sep: &[char]) -> (r: Vec<Vec<char>>)
    requires
        sep@.len() > 0,
    ensures
        views(r@) == split_on(s@, sep@),
{
    let mut r: Vec<Vec<char>> = Vec::new();
    let mut ps: usize = 0;
    let mut i: usize = 0;
    assert(s@.skip(0) =~= s@);
    assert(views(r@) =~= Seq::<Seq<char>>::empty());
    while i <= s.len() && sep.len() <= s.len() - i
        invariant
            ps <= i <= s@.len(),
            sep@.len() > 0,
            split_on(s@, sep@) == views(r@) + split_on(s@.skip(ps as int), sep@),
            forall|j: int| ps <= j < i ==> !#[trigger] occurs_at(s@, sep@, j),
        decreases s@.len() - i,
    {
        if matches_at(s, sep, i) {
            let piece = copy_range(s, ps, i);
            proof {
                let t = s@.skip(ps as int);
                assert forall|j: int| 0 <= j < i - ps implies !#[trigger] occurs_at(t, sep@, j) by {
                    lemma_occurs_at_skip(s@, sep@, ps as int, j);
                }
                lemma_occurs_at_skip(s@, sep@, ps as int, i - ps);
                lemma_first_occurrence_is(t, sep@, i - ps);
                assert(t.take(i - ps) =~= piece@);
                assert(t.skip(i - ps + sep@.len()) =~= s@.skip(i + sep@.len()));
                assert(views(r@.push(piece)) =~= views(r@).push(piece@));
            }
            r.push(piece);
            i = i + sep.len();
            ps = i;
        } else {
            i = i + 1;
        }
    }
    let piece = copy_range(s, ps, s.len());
    proof {
        let t = s@.skip(ps as int);
        assert forall|j: int| 0 <= j implies !#[trigger] occurs_at(t, sep@, j) by {
            lemma_occurs_at_skip(s@, sep@, ps as int, j);
        }
        lemma_first_occurrence_none(t, sep@);
        assert(t =~= piece@);
        assert(views(r@.push(piece)) =~= views(r@).push(piece@));
    }
    r.push(piece);
    r
}

/// `str::replace`.
pub fn replace_chars(s: &[char], pat: &[char], rep: &[char]) -> (r: Vec<char>)
    ensures
        r@ == replace_literal(s@, pat@, rep@),
{
    let mut r: Vec<char> = Vec::new();
    if pat.len() == 0 {
        let mut i: usize = 0;
        assert(s@.skip(0) =~= s@);
        while i < s.len()
            invariant
                i <= s@.len(),
                interleave(s@, rep@) == r@ + interleave(s@.skip(i as int), rep@),
            decreases s@.len() - i,
        {
            proof {
                let t = s@.skip(i as int);
                assert(t.drop_first() =~= s@.skip(i + 1));
                assert(t[0] == s@[i as int]);
            }
            append_chars(&mut r, rep);
            r.push(s[i]);
            i = i + 1;
        }
        proof {
            assert(s@.skip(s@.len() as int) =~= Seq::<char>::empty());
        }
        append_chars(&mut r, rep);
        return r;
    }
    let mut ps: usize = 0;
    let mut i: usize = 0;
    assert(s@.skip(0) =~= s@);
    while i <= s.len() && pat.len() <= s.len() - i
        invariant
            ps <= i <= s@.len(),
            pat@.len() > 0,
            replace_literal(s@, pat@, rep@) == r@ + replace_literal(
                s@.skip(ps as int),
                pat@,
                rep@,
            ),
            forall|j: int| ps <= j < i ==> !#[trigger] occurs_at(s@, pat@, j),
        decreases s@.len() - i,
    {
        if matches_at(s, pat, i) {
            proof {
                let t = s@.skip(ps as int);
                assert forall|j: int| 0 <= j < i - ps implies !#[trigger] occurs_at(t, pat@, j) by {
                    lemma_occurs_at_skip(s@, pat@, ps as int, j);
                }
                lemma_occurs_at_skip(s@, pat@, ps as int, i - ps);
                lemma_first_occurrence_is(t, pat@, i - ps);
                assert(t.take(i - ps) =~= s@.subrange(ps as int, i as int));
                assert(t.skip(i - ps + pat@.len()) =~= s@.skip(i + pat@.len()));
            }
            let piece = copy_range(s, ps, i);
            append_chars(&mut r, piece.as_slice());
            append_chars(&mut r, rep);
            i = i + pat.len();
            ps = i;
        } else {
            i = i + 1;
        }
    }
    proof {
        let t = s@.skip(ps as int);
        assert forall|j: int| 0 <= j implies !#[trigger] occurs_at(t, pat@, j) by {
            lemma_occurs_at_skip(s@, pat@, ps as int, j);
        }
        lemma_first_occurrence_none(t, pat@);
        assert(t =~= s@.subrange(ps as int, s@.len() as int));
    }
    let rest = copy_range(s, ps, s.len());
    append_chars(&mut r, rest.as_slice());
    r
}

/// `[T]::join` over character vectors.
pub fn join_chars(parts: &Vec<Vec<char>>, sep: &[char]) -> (r: Vec<char>)
    ensures
        r@ == join(views(parts@), sep@),
{
    let mut r: Vec<char> = Vec::new();
    let mut i: usize = 0;
    while i < parts.len()
        invariant
            i <= parts@.len(),
            r@ == join(views(parts@).take(i as int), sep@),
        decreases parts@.len() - i,
    {
        let ghost before = views(parts@).take(i as int);
        let ghost after = views(parts@).take(i + 1);
        assert(after.drop_last() =~= before);
        assert(after.last() == parts@[i as int]@);
        if i > 0 {
            append_chars(&mut r, sep);
        } else {
            assert(before =~= Seq::<Seq<char>>::empty());
            assert(r@ =~= Seq::<char>::empty());
        }
        append_chars(&mut r, parts[i].as_slice());
        if i == 0 {
            assert(r@ =~= after[0]);
        }
        i = i + 1;
    }
    assert(views(parts@).take(parts@.len() as int) =~= views(parts@));
    r
}


/// `split_on` always yields at least one piece, and the pieces joined with
/// the separator give back the original text.
pub proof fn lemma_split_on_join(s: Seq<char>, sep: Seq<char>)
    requires
        sep.len() > 0,
    ensures
        split_on(s, sep).len() >= 1,
        join(split_on(s, sep), sep) == s,
    decreases s.len(),
{
    lemma_find_from(s, sep, 0);
    match first_occurrence(s, sep) {
        Some(i) => {
            let rest = s.skip(i + sep.len());
            lemma_split_on_join(rest, sep);
            let parts = split_on(s, sep);
            let tail = split_on(rest, sep);
            assert(parts == seq![s.take(i)] + tail);
            lemma_join_prepend(s.take(i), tail, sep);
            assert(s.subrange(i, i + sep.len()) == sep);
            assert(s =~= s.take(i) + sep + rest);
        },
        None => {},
    }
}

/// Joining with one more part in front.
pub proof fn lemma_join_prepend(first: Seq<char>, parts: Seq<Seq<char>>, sep: Seq<char>)
    requires
        parts.len() >= 1,
    ensures
        join(seq![first] + parts, sep) == first + sep + join(parts, sep),
    decreases parts.len(),
{
    let all = seq![first] + parts;
    if parts.len() == 1 {
        assert(all.drop_last() =~= seq![first]);
        assert(all.last() == parts[0]);
        assert(join(all.drop_last(), sep) == first);
    } else {
        lemma_join_prepend(first, parts.drop_last(), sep);
        assert(all.drop_last() =~= seq![first] + parts.drop_last());
        assert(all.last() == parts.last());
        assert(join(all, sep) == join(all.drop_last(), sep) + sep + all.last());
        assert(join(parts, sep) == join(parts.drop_last(), sep) + sep + parts.last());
        assert(first + sep + join(parts.drop_last(), sep) + sep + parts.last() =~= first + sep + (
        join(parts.drop_last(), sep) + sep + parts.last()));
    }
}

/// `l` without one trailing carriage return.
pub open spec fn strip_cr(l: Seq<char>) -> Seq<char> {
    if l.len() > 0 && l.last() == '\r' {
        l.drop_last()
    } else {
        l
    }
}

/// The lines of `s` as `str::lines` yields them: split at `'\n'`, a `'\r'`
/// before a `'\n'` dropped, and no final empty line after a last `'\n'`.
pub open spec fn text_lines(s: Seq<char>) -> Seq<Seq<char>> {
    let p = split_on(s, seq!['\n']);
    let body = p.drop_last().map_values(|l: Seq<char>| strip_cr(l));
    if p.last().len() == 0 {
        body
    } else {
        body.push(p.last())
    }
}

/// `s` without leading copies of `c`.
pub open spec fn strip_char_start(s: Seq<char>, c: char) -> Seq<char>
    decreases s.len(),
{
    if s.len() > 0 && s[0] == c {
        strip_char_start(s.drop_first(), c)
    } else {
        s
    }
}

/// `s` without trailing copies of `c`.
pub open spec fn strip_char_end(s: Seq<char>, c: char) -> Seq<char>
    decreases s.len(),
{
    if s.len() > 0 && s.last() == c {
        strip_char_end(s.drop_last(), c)
    } else {
        s
    }
}

/// `str::trim_matches` with a character.
pub open spec fn trim_char(s: Seq<char>, c: char) -> Seq<char> {
    strip_char_end(strip_char_start(s, c), c)
}

proof fn lemma_strip_char_start_skip(s: Seq<char>, c: char, i: int)
    requires
        0 <= i <= s.len(),
        forall|k: int| 0 <= k < i ==> #[trigger] s[k] == c,
    ensures
        strip_char_start(s, c) == strip_char_start(s.skip(i), c),
    decreases i,
{
    if i > 0 {
        assert forall|k: int| 0 <= k < i - 1 implies #[trigger] s.drop_first()[k] == c by {
            assert(s.drop_first()[k] == s[k + 1]);
        }
        lemma_strip_char_start_skip(s.drop_first(), c, i - 1);
        assert(s.drop_first().skip(i - 1) =~= s.skip(i));
    } else {
        assert(s.skip(0) =~= s);
    }
}

proof fn lemma_strip_char_end_take(s: Seq<char>, c: char, i: int)
    requires
        0 <= i <= s.len(),
        forall|k: int| i <= k < s.len() ==> #[trigger] s[k] == c,
    ensures
        strip_char_end(s, c) == strip_char_end(s.take(i), c),
    decreases s.len() - i,
{
    if i < s.len() {
        assert forall|k: int| i <= k < s.drop_last().len() implies #[trigger] s.drop_last()[k]
            == c by {
            assert(s.drop_last()[k] == s[k]);
        }
        lemma_strip_char_end_take(s.drop_last(), c, i);
        assert(s.drop_last().take(i) =~= s.take(i));
    } else {
        assert(s.take(i) =~= s);
    }
}

/// `str::trim_matches(c)` on a character vector.
pub fn trim_char_chars(v: &[char], c: char) -> (r: Vec<char>)
    ensures
        r@ == trim_char(v@, c),
{
    let n = v.len();
    let mut lo: usize = 0;
    while lo < n && v[lo] == c
        invariant
            lo <= n,
            n == v@.len(),
            forall|k: int| 0 <= k < lo ==> #[trigger] v@[k] == c,
        decreases n - lo,
    {
        lo = lo + 1;
    }
    let mut hi: usize = n;
    while hi > lo && v[hi - 1] == c
        invariant
            lo <= hi <= n,
            n == v@.len(),
            forall|k: int| hi <= k < n ==> #[trigger] v@[k] == c,
        decreases hi - lo,
    {
        hi = hi - 1;
    }
    proof {
        lemma_strip_char_start_skip(v@, c, lo as int);
        let t = v@.skip(lo as int);
        assert(strip_char_start(t, c) == t);
        assert forall|k: int| hi - lo <= k < t.len() implies #[trigger] t[k] == c by {
            assert(t[k] == v@[k + lo]);
        }
        lemma_strip_char_end_take(t, c, hi - lo);
        let u = t.take(hi - lo);
        assert(u =~= v@.subrange(lo as int, hi as int));
        if u.len() > 0 {
            assert(u.last() == v@[hi - 1]);
        }
        assert(strip_char_end(u, c) == u);
    }
    copy_range(v, lo, hi)
}

/// The leftmost position of `pat` in `s`, if any.
pub fn find_chars(s: &[char], pat: &[char]) -> (r: Option<usize>)
    ensures
        match r {
            Some(k) => first_occurrence(s@, pat@) == Some(k as int),
            None => first_occurrence(s@, pat@) is None,
        },
{
    if pat.len() == 0 {
        proof {
            assert(s@.subrange(0, 0) =~= pat@);
            lemma_first_occurrence_is(s@, pat@, 0);
        }
        return Some(0);
    }
    let mut i: usize = 0;
    while pat.len() <= s.len() - i
        invariant
            i <= s@.len(),
            pat@.len() > 0,
            forall|j: int| 0 <= j < i ==> !#[trigger] occurs_at(s@, pat@, j),
        decreases s@.len() - i,
    {
        if matches_at(s, pat, i) {
            proof {
                lemma_first_occurrence_is(s@, pat@, i as int);
            }
            return Some(i);
        }
        i = i + 1;
    }
    proof {
        lemma_first_occurrence_none(s@, pat@);
    }
    None
}

/// `str::lines`.
pub fn lines_chars(s: &[char]) -> (r: Vec<Vec<char>>)
    ensures
        views(r@) == text_lines(s@),
{
    let nl = vec!['\n'];
    assert(nl@ =~= seq!['\n']);
    let pieces = split_chars(s, nl.as_slice());
    proof {
        lemma_split_on_join(s@, seq!['\n']);
    }
    let count = pieces.len();
    let mut r: Vec<Vec<char>> = Vec::new();
    let mut i: usize = 0;
    while i + 1 < count
        invariant
            count == pieces@.len(),
            count >= 1,
            i + 1 <= count,
            views(pieces@) == split_on(s@, seq!['\n']),
            views(r@) == views(pieces@).drop_last().take(i as int).map_values(
                |l: Seq<char>| strip_cr(l),
            ),
        decreases count - i,
    {
        let p = &pieces[i];
        let line = if p.len() > 0 && p[p.len() - 1] == '\r' {
            copy_range(p.as_slice(), 0, p.len() - 1)
        } else {
            copy_range(p.as_slice(), 0, p.len())
        };
        proof {
            let a = views(pieces@).drop_last();
            assert(views(pieces@)[i as int] == p@);
            assert(a[i as int] == p@);
            assert(line@ =~= strip_cr(p@));
            assert(a.take(i + 1).map_values(|l: Seq<char>| strip_cr(l)) =~= a.take(
                i as int,
            ).map_values(|l: Seq<char>| strip_cr(l)).push(strip_cr(a[i as int])));
            assert(views(r@.push(line)) =~= views(r@).push(line@));
        }
        r.push(line);
        i = i + 1;
    }
    proof {
        assert(views(pieces@).drop_last().take(i as int) =~= views(pieces@).drop_last());
    }
    let last = &pieces[count - 1];
    if last.len() > 0 {
        let kept = copy_range(last.as_slice(), 0, last.len());
        proof {
            assert(kept@ =~= views(pieces@).last());
            assert(views(r@.push(kept)) =~= views(r@).push(kept@));
        }
        r.push(kept);
    }
    r
}


/// The decimal notation of `n` is a non-empty run of ASCII digits worth `n`.
pub proof fn lemma_decimal_digits(n: nat)
    ensures
        decimal(n).len() >= 1,
        all_ascii_digits(decimal(n)),
        decimal_value(decimal(n)) == n,
    decreases n,
{
    if n >= 10 {
        lemma_decimal_digits(n / 10);
        let d = decimal(n);
        assert(d.drop_last() =~= decimal(n / 10));
        assert(d.last() == digit_char(n % 10));
        assert(digit_value(digit_char(n % 10)) == n % 10);
        assert(n == (n / 10) * 10 + n % 10);
        assert(decimal_value(d) == decimal_value(decimal(n / 10)) * 10 + digit_value(d.last()));
        assert(decimal_value(d) == n);
        assert forall|i: int| 0 <= i < d.len() implies is_ascii_digit(#[trigger] d[i]) by {
            if i < d.len() - 1 {
                assert(d[i] == decimal(n / 10)[i]);
            }
        }
    } else {
        let d = decimal(n);
        assert(d.drop_last() =~= Seq::<char>::empty());
        assert(d.last() == digit_char(n));
        assert(digit_value(digit_char(n)) == n);
        assert(decimal_value(d.drop_last()) == 0);
        assert(decimal_value(d) == n);
    }
}

proof fn lemma_zeros_value(z: nat)
    ensures
        decimal_value(Seq::new(z, |_k: int| '0')) == 0,
    decreases z,
{
    if z > 0 {
        lemma_zeros_value((z - 1) as nat);
        assert(Seq::new(z, |_k: int| '0').drop_last() =~= Seq::new((z - 1) as nat, |_k: int| '0'));
    }
}

proof fn lemma_leading_zeros(z: nat, d: Seq<char>)
    ensures
        decimal_value(Seq::new(z, |_k: int| '0') + d) == decimal_value(d),
    decreases d.len(),
{
    let zs = Seq::new(z, |_k: int| '0');
    if d.len() == 0 {
        assert(zs + d =~= zs);
        lemma_zeros_value(z);
    } else {
        lemma_leading_zeros(z, d.drop_last());
        assert((zs + d).drop_last() =~= zs + d.drop_last());
        assert((zs + d).last() == d.last());
    }
}

/// Reading back a zero-padded number gives the number: `str::parse` of
/// `format!("{:0>width$}", n)` is `n`, whatever the width.
pub proof fn lemma_padded_number_parses(n: usize, width: nat)
    ensures
        parse_usize(padded_number(n as nat, width)) == Some(n),
{
    lemma_decimal_digits(n as nat);
    let d = decimal(n as nat);
    let p = padded_number(n as nat, width);
    if d.len() < width {
        let z = (width - d.len()) as nat;
        let zs = Seq::new(z, |_k: int| '0');
        lemma_leading_zeros(z, d);
        assert(p == zs + d);
        assert(p[0] == '0');
        assert forall|i: int| 0 <= i < p.len() implies is_ascii_digit(#[trigger] p[i]) by {
            if i >= z {
                assert(p[i] == d[i - z]);
            }
        }
    } else {
        assert(p == d);
        assert(is_ascii_digit(d[0]));
    }
}


proof fn lemma_interleave_nothing(s: Seq<char>)
    ensures
        interleave(s, Seq::empty()) == s,
    decreases s.len(),
{
    if s.len() > 0 {
        lemma_interleave_nothing(s.drop_first());
        assert(Seq::<char>::empty() + seq![s[0]] + s.drop_first() =~= s);
    }
}

/// Replacing a text by itself changes nothing (the empty text included).
pub proof fn lemma_replace_by_itself(s: Seq<char>, pat: Seq<char>)
    ensures
        replace_literal(s, pat, pat) == s,
    decreases s.len(),
{
    if pat.len() == 0 {
        assert(pat =~= Seq::<char>::empty());
        lemma_interleave_nothing(s);
    } else {
        lemma_find_from(s, pat, 0);
        match first_occurrence(s, pat) {
            Some(i) => {
                let rest = s.skip(i + pat.len());
                lemma_replace_by_itself(rest, pat);
                assert(s.subrange(i, i + pat.len()) == pat);
                assert(s.take(i) + pat + rest =~= s);
            },
            None => {},
        }
    }
}


/// `d` writes `n` in decimal with at least `width` characters and no
/// needless leading zero: ASCII digits worth `n`, at least one of them and
/// at least `width`, and starting with a zero only when it is exactly
/// `width` long or the single digit of zero.
pub open spec fn is_numeral(d: Seq<char>, n: nat, width: nat) -> bool {
    &&& d.len() >= 1
    &&& d.len() >= width
    &&& all_ascii_digits(d)
    &&& decimal_value(d) == n
    &&& (d.len() > width && d.len() > 1 ==> d[0] != '0')
}

/// `10` to the power `k`.
pub open spec fn pow10(k: nat) -> nat
    decreases k,
{
    if k == 0 {
        1
    } else {
        10 * pow10((k - 1) as nat)
    }
}

proof fn lemma_decimal_leading_digit(n: nat)
    ensures
        decimal(n).len() > 1 ==> decimal(n)[0] != '0',
    decreases n,
{
    if n >= 10 {
        lemma_decimal_leading_digit(n / 10);
        lemma_decimal_digits(n / 10);
        let d = decimal(n);
        assert(d[0] == decimal(n / 10)[0]);
        if n / 10 < 10 {
            assert(decimal(n / 10)[0] == digit_char(n / 10));
            assert(digit_value(digit_char(n / 10)) == n / 10);
            assert(digit_value('0') == 0);
        } else {
            lemma_decimal_digits(n / 100);
            assert(decimal(n / 10) == decimal(n / 10 / 10).push(digit_char(n / 10 % 10)));
            assert(decimal(n / 10).len() > 1);
        }
    }
}

/// The decimal notation of `n` has as many digits as `n` needs: `n` is below
/// `10^w` for its length `w`, and at least `10^(w-1)` unless `w` is 1.
pub proof fn lemma_decimal_length(n: nat)
    ensures
        decimal(n).len() >= 1,
        n < pow10(decimal(n).len()),
        decimal(n).len() == 1 || pow10((decimal(n).len() - 1) as nat) <= n,
    decreases n,
{
    if n >= 10 {
        lemma_decimal_length(n / 10);
        let w = decimal(n / 10).len();
        assert(decimal(n).len() == w + 1);
        let p = pow10(w);
        assert(pow10((w + 1) as nat) == 10 * p);
        assert(n < 10 * p) by (nonlinear_arith)
            requires
                n / 10 < p,
                n >= 0,
        ;
        if w == 1 {
            assert(pow10(1) == 10) by {
                assert(pow10(0) == 1);
            }
        } else {
            let q = pow10((w - 1) as nat);
            assert(p == 10 * q);
            assert(p <= n) by (nonlinear_arith)
                requires
                    q <= n / 10,
                    p == 10 * q,
                    n >= 0,
            ;
        }
    } else {
        assert(pow10(1) == 10) by {
            assert(pow10(0) == 1);
        }
    }
}

/// The number written for `n` padded to `width` is a numeral of `n` of that
/// width (`format!("{:0>width$}", n)`).
pub proof fn lemma_padded_number_is_numeral(n: nat, width: nat)
    ensures
        is_numeral(padded_number(n, width), n, width),
{
    lemma_decimal_digits(n);
    lemma_decimal_leading_digit(n);
    let d = decimal(n);
    let p = padded_number(n, width);
    if d.len() < width {
        let z = (width - d.len()) as nat;
        lemma_leading_zeros(z, d);
        assert(p == Seq::new(z, |_k: int| '0') + d);
        assert forall|i: int| 0 <= i < p.len() implies is_ascii_digit(#[trigger] p[i]) by {
            if i >= z {
                assert(p[i] == d[i - z]);
            }
        }
    }
}

proof fn lemma_piece_free(s: Seq<char>, pat: Seq<char>, i: int)
    requires
        pat.len() > 0,
        0 <= i <= s.len(),
        forall|j: int| 0 <= j < i ==> !#[trigger] occurs_at(s, pat, j),
    ensures
        forall|j: int| !#[trigger] occurs_at(s.take(i), pat, j),
{
    assert forall|j: int| !#[trigger] occurs_at(s.take(i), pat, j) by {
        if occurs_at(s.take(i), pat, j) {
            assert(s.take(i).subrange(j, j + pat.len()) =~= s.subrange(j, j + pat.len()));
            assert(occurs_at(s, pat, j));
        }
    }
}

/// Search and replace is split and join: the result is the pieces of `s`
/// between the leftmost non-overlapping occurrences of `pat`, joined with
/// `rep`; joined with `pat` instead they give `s` back, and no piece holds
/// an occurrence of `pat`. So every occurrence is replaced, not just the
/// first.
pub proof fn lemma_replace_is_split_and_join(s: Seq<char>, pat: Seq<char>, rep: Seq<char>)
    requires
        pat.len() > 0,
    ensures
        replace_literal(s, pat, rep) == join(split_on(s, pat), rep),
        join(split_on(s, pat), pat) == s,
        forall|k: int, j: int|
            0 <= k < split_on(s, pat).len() ==> !#[trigger] occurs_at(
                #[trigger] split_on(s, pat)[k],
                pat,
                j,
            ),
    decreases s.len(),
{
    lemma_split_on_join(s, pat);
    lemma_find_from(s, pat, 0);
    match first_occurrence(s, pat) {
        Some(i) => {
            let rest = s.skip(i + pat.len());
            lemma_replace_is_split_and_join(rest, pat, rep);
            lemma_split_on_join(rest, pat);
            let tail = split_on(rest, pat);
            assert(split_on(s, pat) == seq![s.take(i)] + tail);
            lemma_join_prepend(s.take(i), tail, rep);
            lemma_piece_free(s, pat, i);
            assert forall|k: int, j: int|
                0 <= k < split_on(s, pat).len() implies !#[trigger] occurs_at(
                #[trigger] split_on(s, pat)[k],
                pat,
                j,
            ) by {
                if k > 0 {
                    assert(split_on(s, pat)[k] == tail[k - 1]);
                }
            }
        },
        None => {
            assert(split_on(s, pat) == seq![s]);
            assert forall|k: int, j: int|
                0 <= k < split_on(s, pat).len() implies !#[trigger] occurs_at(
                #[trigger] split_on(s, pat)[k],
                pat,
                j,
            ) by {
                assert(split_on(s, pat)[k] == s);
                if j < 0 {
                }
            }
        },
    }
}

} // verus!
