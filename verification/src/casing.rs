//! Case conversions of file-name stems: splitting a stem into words and
//! re-assembling them in upper, lower, title, camel, snake or kebab case.
//! Unicode case mapping is std's; its results are named here and the word
//! logic around them is verified.
use vstd::prelude::*;
use crate::text::{
    append_chars, chars_of, copy_range, join, join_chars, string_of, string_views, views,
};

verus! {

/// What `str::to_lowercase` returns for a string (Unicode lowercase mapping,
/// with the final-sigma rule).
pub uninterp spec fn lowercase(s: Seq<char>) -> Seq<char>;

/// What `str::to_uppercase` returns for a string (Unicode uppercase mapping).
pub uninterp spec fn uppercase(s: Seq<char>) -> Seq<char>;

/// The string that `char::to_uppercase` yields for a character (one to three
/// characters).
pub uninterp spec fn char_uppercase(c: char) -> Seq<char>;

/// Whether a character has the Unicode `Uppercase` property
/// (`char::is_uppercase`).
pub uninterp spec fn char_is_upper(c: char) -> bool;

/// Whether a character has the Unicode `Lowercase` property
/// (`char::is_lowercase`).
pub uninterp spec fn char_is_lower(c: char) -> bool;

/// Calls `str::to_lowercase`. Claimed: the result is `lowercase` of the
/// argument, a function of the argument alone.
#[verifier::external_body]
pub(crate) fn str_to_lowercase(s: &str) -> (r: String)
    ensures
        r@ == lowercase(s@),
{
    s.to_lowercase()
}

/// Calls `str::to_uppercase`. Claimed: the result is `uppercase` of the
/// argument, a function of the argument alone.
#[verifier::external_body]
pub(crate) fn str_to_uppercase(s: &str) -> (r: String)
    ensures
        r@ == uppercase(s@),
{
    s.to_uppercase()
}

/// Calls `char::to_uppercase` and collects what it yields into a `String`.
/// Claimed: the result is `char_uppercase` of the argument.
#[verifier::external_body]
pub(crate) fn char_to_uppercase(c: char) -> (r: String)
    ensures
        r@ == char_uppercase(c),
{
    c.to_uppercase().to_string()
}

/// Calls `char::is_uppercase`. Claimed: the result is `char_is_upper(c)`.
#[verifier::external_body]
pub(crate) fn char_is_uppercase(c: char) -> (r: bool)
    ensures
        r == char_is_upper(c),
{
    c.is_uppercase()
}

/// Calls `char::is_lowercase`. Claimed: the result is `char_is_lower(c)`.
#[verifier::external_body]
pub(crate) fn char_is_lowercase(c: char) -> (r: bool)
    ensures
        r == char_is_lower(c),
{
    c.is_lowercase()
}

/// The six case styles a stem can be converted to.
#[derive(Debug, Clone, Copy, PartialEq, Eq, Structural)]
pub enum CaseType {
    Upper,
    Lower,
    Title,
    Camel,
    Snake,
    Kebab,
}

/// Characters that end a word and are dropped: `_`, `-`, space and `.`.
pub open spec fn is_word_separator(c: char) -> bool {
    c == '_' || c == '-' || c == ' ' || c == '.'
}

/// One step of the word splitter: the finished words and the word being
/// built, after reading `c`. A separator ends the current word; an
/// uppercase character right after a lowercase one starts a new word.
pub open spec fn word_step(words: Seq<Seq<char>>, current: Seq<char>, c: char) -> (
    Seq<Seq<char>>,
    Seq<char>,
) {
    if is_word_separator(c) {
        if current.len() > 0 {
            (words.push(current), Seq::empty())
        } else {
            (words, current)
        }
    } else if char_is_upper(c) && current.len() > 0 && char_is_lower(current.last()) {
        (words.push(current), seq![c])
    } else {
        (words, current.push(c))
    }
}

/// The splitter's state after reading all of `s`.
pub open spec fn word_state(s: Seq<char>) -> (Seq<Seq<char>>, Seq<char>)
    decreases s.len(),
{
    if s.len() == 0 {
        (Seq::empty(), Seq::empty())
    } else {
        let (w, c) = word_state(s.drop_last());
        word_step(w, c, s.last())
    }
}

/// The words of `s`: the finished words, then the last one if non-empty.
pub open spec fn words_of(s: Seq<char>) -> Seq<Seq<char>> {
    let (w, c) = word_state(s);
    if c.len() > 0 {
        w.push(c)
    } else {
        w
    }
}

/// A word with its first character uppercased and the rest lowercased.
pub open spec fn title_word(w: Seq<char>) -> Seq<char> {
    if w.len() == 0 {
        Seq::empty()
    } else {
        char_uppercase(w[0]) + lowercase(w.drop_first())
    }
}

/// Title Case: capitalised words joined by spaces.
pub open spec fn title_case(s: Seq<char>) -> Seq<char> {
    join(words_of(s).map_values(|w: Seq<char>| title_word(w)), seq![' '])
}

/// camelCase: the first word lowercased, the others capitalised, no separator.
pub open spec fn camel_case(s: Seq<char>) -> Seq<char> {
    let w = words_of(s);
    join(
        Seq::new(w.len(), |i: int| if i == 0 { lowercase(w[0]) } else { title_word(w[i]) }),
        Seq::empty(),
    )
}

/// Lowercased words joined by `sep`.
pub open spec fn lower_words_joined(s: Seq<char>, sep: char) -> Seq<char> {
    join(words_of(s).map_values(|w: Seq<char>| lowercase(w)), seq![sep])
}

/// The stem converted to a case style.
pub open spec fn case_applied(s: Seq<char>, case_type: CaseType) -> Seq<char> {
    match case_type {
        CaseType::Upper => uppercase(s),
        CaseType::Lower => lowercase(s),
        CaseType::Title => title_case(s),
        CaseType::Camel => camel_case(s),
        CaseType::Snake => lower_words_joined(s, '_'),
        CaseType::Kebab => lower_words_joined(s, '-'),
    }
}

/// Strings made of the given character vectors.
pub fn strings_of(v: &Vec<Vec<char>>) -> (r: Vec<String>)
    ensures
        string_views(r@) == views(v@),
{
    let mut r: Vec<String> = Vec::new();
    let mut i: usize = 0;
    while i < v.len()
        invariant
            i <= v@.len(),
            string_views(r@) == views(v@).take(i as int),
        decreases v@.len() - i,
    {
        let s = string_of(v[i].as_slice());
        proof {
            assert(views(v@)[i as int] == v@[i as int]@);
            assert(string_views(r@.push(s)) =~= string_views(r@).push(s@));
            assert(views(v@).take(i + 1) =~= views(v@).take(i as int).push(views(v@)[i as int]));
        }
        r.push(s);
        i = i + 1;
    }
    assert(views(v@).take(v@.len() as int) =~= views(v@));
    r
}

/// `lowercase` of a character vector.
pub fn lower_chars(w: &[char]) -> (r: Vec<char>)
    ensures
        r@ == lowercase(w@),
{
    let s = string_of(w);
    let l = str_to_lowercase(s.as_str());
    chars_of(l.as_str())
}

/// The first character uppercased and the rest lowercased.
pub fn title_word_chars(w: &[char]) -> (r: Vec<char>)
    ensures
        r@ == title_word(w@),
{
    if w.len() == 0 {
        return Vec::new();
    }
    let up = char_to_uppercase(w[0]);
    let mut r = chars_of(up.as_str());
    let rest = copy_range(w, 1, w.len());
    let low = lower_chars(rest.as_slice());
    assert(rest@ =~= w@.drop_first());
    append_chars(&mut r, low.as_slice());
    r
}

/// The words of a character vector (see `words_of`). Every word is
/// non-empty and holds no separator.
pub fn word_chars(s: &[char]) -> (r: Vec<Vec<char>>)
    ensures
        views(r@) == words_of(s@),
        forall|i: int| 0 <= i < r@.len() ==> (#[trigger] r@[i])@.len() > 0,
        forall|i: int, j: int|
            0 <= i < r@.len() && 0 <= j < r@[i]@.len() ==> !is_word_separator(
                #[trigger] r@[i]@[j],
            ),
{
    let mut words: Vec<Vec<char>> = Vec::new();
    let mut current: Vec<char> = Vec::new();
    let mut i: usize = 0;
    while i < s.len()
        invariant
            i <= s@.len(),
            (views(words@), current@) == word_state(s@.take(i as int)),
            forall|k: int| 0 <= k < words@.len() ==> (#[trigger] words@[k])@.len() > 0,
            forall|k: int, j: int|
                0 <= k < words@.len() && 0 <= j < words@[k]@.len() ==> !is_word_separator(
                    #[trigger] words@[k]@[j],
                ),
            forall|j: int| 0 <= j < current@.len() ==> !is_word_separator(#[trigger] current@[j]),
        decreases s@.len() - i,
    {
        let c = s[i];
        proof {
            assert(s@.take(i + 1).drop_last() =~= s@.take(i as int));
            assert(s@.take(i + 1).last() == c);
        }
        let ghost w0 = views(words@);
        let ghost c0 = current@;
        if c == '_' || c == '-' || c == ' ' || c == '.' {
            if current.len() > 0 {
                let done = current;
                current = Vec::new();
                proof {
                    assert(views(words@.push(done)) =~= w0.push(done@));
                }
                words.push(done);
                proof {
                    assert(current@ =~= Seq::<char>::empty());
                }
            }
        } else if char_is_uppercase(c) && current.len() > 0 && char_is_lowercase(
            current[current.len() - 1],
        ) {
            let done = current;
            current = Vec::new();
            current.push(c);
            proof {
                assert(views(words@.push(done)) =~= w0.push(done@));
                assert(current@ =~= seq![c]);
            }
            words.push(done);
        } else {
            current.push(c);
            proof {
                assert(current@ =~= c0.push(c));
            }
        }
        i = i + 1;
    }
    assert(s@.take(s@.len() as int) =~= s@);
    if current.len() > 0 {
        let ghost w0 = views(words@);
        proof {
            assert(views(words@.push(current)) =~= w0.push(current@));
        }
        words.push(current);
    }
    words
}

/// Splits a stem into words (see `words_of`).
pub fn split_words(s: &str) -> (r: Vec<String>)
    ensures
        string_views(r@) == words_of(s@),
{
    let v = chars_of(s);
    let w = word_chars(v.as_slice());
    strings_of(&w)
}

/// Title Case of a stem.
pub fn to_title_case(s: &str) -> (r: String)
    ensures
        r@ == title_case(s@),
{
    let v = chars_of(s);
    let words = word_chars(v.as_slice());
    let mut parts: Vec<Vec<char>> = Vec::new();
    let mut i: usize = 0;
    while i < words.len()
        invariant
            i <= words@.len(),
            views(parts@) == views(words@).take(i as int).map_values(
                |w: Seq<char>| title_word(w),
            ),
        decreases words@.len() - i,
    {
        let t = title_word_chars(words[i].as_slice());
        proof {
            let a = views(words@);
            assert(a[i as int] == words@[i as int]@);
            assert(a.take(i + 1).map_values(|w: Seq<char>| title_word(w)) =~= a.take(
                i as int,
            ).map_values(|w: Seq<char>| title_word(w)).push(title_word(a[i as int])));
            assert(views(parts@.push(t)) =~= views(parts@).push(t@));
        }
        parts.push(t);
        i = i + 1;
    }
    assert(views(words@).take(words@.len() as int) =~= views(words@));
    let space = vec![' '];
    assert(space@ =~= seq![' ']);
    let joined = join_chars(&parts, space.as_slice());
    string_of(joined.as_slice())
}

/// camelCase of a stem.
pub fn to_camel_case(s: &str) -> (r: String)
    ensures
        r@ == camel_case(s@),
{
    let v = chars_of(s);
    let words = word_chars(v.as_slice());
    let ghost w = views(words@);
    let ghost target = Seq::new(
        w.len(),
        |i: int|
            if i == 0 {
                lowercase(w[0])
            } else {
                title_word(w[i])
            },
    );
    let mut parts: Vec<Vec<char>> = Vec::new();
    let mut i: usize = 0;
    while i < words.len()
        invariant
            i <= words@.len(),
            w == views(words@),
            target.len() == w.len(),
            forall|k: int| 0 <= k < w.len() ==> #[trigger] target[k] == (if k == 0 {
                lowercase(w[0])
            } else {
                title_word(w[k])
            }),
            views(parts@) == target.take(i as int),
        decreases words@.len() - i,
    {
        let t = if i == 0 {
            lower_chars(words[i].as_slice())
        } else {
            title_word_chars(words[i].as_slice())
        };
        proof {
            assert(w[i as int] == words@[i as int]@);
            assert(t@ == target[i as int]);
            assert(views(parts@.push(t)) =~= views(parts@).push(t@));
            assert(target.take(i + 1) =~= target.take(i as int).push(target[i as int]));
        }
        parts.push(t);
        i = i + 1;
    }
    assert(target.take(w.len() as int) =~= target);
    let empty: Vec<char> = Vec::new();
    assert(empty@ =~= Seq::<char>::empty());
    let joined = join_chars(&parts, empty.as_slice());
    string_of(joined.as_slice())
}

/// Lowercased words joined by `sep`.
fn lower_words_with(s: &str, sep: char) -> (r: String)
    ensures
        r@ == lower_words_joined(s@, sep),
{
    let v = chars_of(s);
    let words = word_chars(v.as_slice());
    let mut parts: Vec<Vec<char>> = Vec::new();
    let mut i: usize = 0;
    while i < words.len()
        invariant
            i <= words@.len(),
            views(parts@) == views(words@).take(i as int).map_values(
                |w: Seq<char>| lowercase(w),
            ),
        decreases words@.len() - i,
    {
        let t = lower_chars(words[i].as_slice());
        proof {
            let a = views(words@);
            assert(a[i as int] == words@[i as int]@);
            assert(a.take(i + 1).map_values(|w: Seq<char>| lowercase(w)) =~= a.take(
                i as int,
            ).map_values(|w: Seq<char>| lowercase(w)).push(lowercase(a[i as int])));
            assert(views(parts@.push(t)) =~= views(parts@).push(t@));
        }
        parts.push(t);
        i = i + 1;
    }
    assert(views(words@).take(words@.len() as int) =~= views(words@));
    let sep_v = vec![sep];
    assert(sep_v@ =~= seq![sep]);
    let joined = join_chars(&parts, sep_v.as_slice());
    string_of(joined.as_slice())
}

/// snake_case of a stem.
pub fn to_snake_case(s: &str) -> (r: String)
    ensures
        r@ == lower_words_joined(s@, '_'),
{
    lower_words_with(s, '_')
}

/// kebab-case of a stem.
pub fn to_kebab_case(s: &str) -> (r: String)
    ensures
        r@ == lower_words_joined(s@, '-'),
{
    lower_words_with(s, '-')
}

/// Converts a stem to the given case style.
pub fn apply_case(s: &str, case_type: &CaseType) -> (r: String)
    ensures
        r@ == case_applied(s@, *case_type),
{
    match case_type {
        CaseType::Upper => str_to_uppercase(s),
        CaseType::Lower => str_to_lowercase(s),
        CaseType::Title => to_title_case(s),
        CaseType::Camel => to_camel_case(s),
        CaseType::Snake => to_snake_case(s),
        CaseType::Kebab => to_kebab_case(s),
    }
}


/// The words put together, without anything between them.
pub open spec fn concat(ws: Seq<Seq<char>>) -> Seq<char>
    decreases ws.len(),
{
    if ws.len() == 0 {
        Seq::empty()
    } else {
        concat(ws.drop_last()) + ws.last()
    }
}

/// `s` without its word separators.
pub open spec fn without_separators(s: Seq<char>) -> Seq<char>
    decreases s.len(),
{
    if s.len() == 0 {
        Seq::empty()
    } else if is_word_separator(s.last()) {
        without_separators(s.drop_last())
    } else {
        without_separators(s.drop_last()).push(s.last())
    }
}

proof fn lemma_word_state(s: Seq<char>)
    ensures
        concat(word_state(s).0) + word_state(s).1 == without_separators(s),
        forall|k: int| 0 <= k < word_state(s).0.len() ==> (#[trigger] word_state(s).0[k]).len() > 0,
    decreases s.len(),
{
    if s.len() > 0 {
        let prev = s.drop_last();
        lemma_word_state(prev);
        let (w, c) = word_state(prev);
        let ch = s.last();
        if is_word_separator(ch) {
            if c.len() > 0 {
                assert(w.push(c).drop_last() =~= w);
                assert(concat(w.push(c)) + Seq::<char>::empty() =~= concat(w) + c);
            }
        } else if char_is_upper(ch) && c.len() > 0 && char_is_lower(c.last()) {
            assert(w.push(c).drop_last() =~= w);
            assert(concat(w.push(c)) + seq![ch] =~= (concat(w) + c).push(ch));
        } else {
            assert(concat(w) + c.push(ch) =~= (concat(w) + c).push(ch));
        }
    }
}

/// Splitting into words drops exactly the separators: the words are
/// non-empty, and put together they give the stem without its separators.
pub proof fn lemma_words_keep_every_letter(s: Seq<char>)
    ensures
        concat(words_of(s)) == without_separators(s),
        forall|k: int| 0 <= k < words_of(s).len() ==> (#[trigger] words_of(s)[k]).len() > 0,
{
    lemma_word_state(s);
    let (w, c) = word_state(s);
    if c.len() > 0 {
        assert(w.push(c).drop_last() =~= w);
    } else {
        assert(c =~= Seq::<char>::empty());
        assert(concat(w) + c =~= concat(w));
    }
}


proof fn lemma_join_nothing_is_concat(parts: Seq<Seq<char>>)
    ensures
        join(parts, Seq::empty()) == concat(parts),
    decreases parts.len(),
{
    if parts.len() == 1 {
        assert(parts.drop_last() =~= Seq::<Seq<char>>::empty());
        assert(concat(parts.drop_last()) == Seq::<char>::empty());
        assert(concat(parts) == concat(parts.drop_last()) + parts.last());
        assert(Seq::<char>::empty() + parts[0] =~= parts[0]);
    } else if parts.len() > 1 {
        lemma_join_nothing_is_concat(parts.drop_last());
        assert(join(parts, Seq::empty()) == join(parts.drop_last(), Seq::empty())
            + Seq::<char>::empty() + parts.last());
        assert(join(parts.drop_last(), Seq::empty()) + Seq::<char>::empty() =~= join(
            parts.drop_last(),
            Seq::empty(),
        ));
    }
}

proof fn lemma_concat_prepend(first: Seq<char>, rest: Seq<Seq<char>>)
    ensures
        concat(seq![first] + rest) == first + concat(rest),
    decreases rest.len(),
{
    let all = seq![first] + rest;
    if rest.len() == 0 {
        assert(all.drop_last() =~= Seq::<Seq<char>>::empty());
        assert(concat(all.drop_last()) == Seq::<char>::empty());
        assert(all.last() == first);
        assert(concat(rest) == Seq::<char>::empty());
        assert(Seq::<char>::empty() + first =~= first + Seq::<char>::empty());
    } else {
        lemma_concat_prepend(first, rest.drop_last());
        assert(all.drop_last() =~= seq![first] + rest.drop_last());
        assert(all.last() == rest.last());
        assert(first + concat(rest.drop_last()) + rest.last() =~= first + (concat(rest.drop_last())
            + rest.last()));
    }
}

/// Title Case and camelCase capitalise the same words the same way: each
/// word's first character uppercased and the rest lowercased. Title Case
/// joins all of them with spaces; camelCase lowercases the first word
/// whole and puts the capitalised later words right after it.
pub proof fn lemma_camel_and_title_words(s: Seq<char>)
    ensures
        title_case(s) == join(
            Seq::new(
                words_of(s).len(),
                |i: int| char_uppercase(words_of(s)[i][0]) + lowercase(words_of(s)[i].drop_first()),
            ),
            seq![' '],
        ),
        camel_case(s) == if words_of(s).len() == 0 {
            Seq::empty()
        } else {
            lowercase(words_of(s)[0]) + concat(
                Seq::new(
                    words_of(s).len(),
                    |i: int|
                        char_uppercase(words_of(s)[i][0]) + lowercase(words_of(s)[i].drop_first()),
                ).skip(1),
            )
        },
{
    lemma_words_keep_every_letter(s);
    let w = words_of(s);
    let cap = Seq::new(
        w.len(),
        |i: int| char_uppercase(w[i][0]) + lowercase(w[i].drop_first()),
    );
    assert(w.map_values(|x: Seq<char>| title_word(x)) =~= cap) by {
        assert forall|i: int| 0 <= i < w.len() implies title_word(w[i]) == cap[i] by {
            assert(w[i].len() > 0);
        }
    }
    let parts = Seq::new(w.len(), |i: int| if i == 0 { lowercase(w[0]) } else { title_word(w[i]) });
    lemma_join_nothing_is_concat(parts);
    if w.len() > 0 {
        assert(parts =~= seq![parts[0]] + parts.skip(1));
        assert(parts.skip(1) =~= cap.skip(1)) by {
            assert forall|k: int| 0 <= k < parts.skip(1).len() implies parts.skip(1)[k] == cap.skip(1)[k] by {
                assert(w[k + 1].len() > 0);
            }
        }
        lemma_concat_prepend(parts[0], parts.skip(1));
    } else {
        assert(parts =~= Seq::<Seq<char>>::empty());
    }
}

} // verus!
