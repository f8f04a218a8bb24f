//! Regular expressions, from the `regex` crate. What a compiled pattern
//! finds or replaces is named here as a function of the pattern's text; the
//! library's code works with those results.
use vstd::prelude::*;
use crate::text::string_views;

verus! {

#[verifier::external_type_specification]
#[verifier::external_body]
pub struct ExRegex(regex::Regex);

/// A regular expression compiled from `source`. Values of this type are made
/// only by `compile_pattern`, so `regex` is always the compilation of `source`.
pub struct CompiledPattern {
    regex: regex::Regex,
    source: String,
}

impl View for CompiledPattern {
    type V = Seq<char>;

    /// The pattern text the regular expression was compiled from.
    closed spec fn view(&self) -> Seq<char> {
        self.source@
    }
}

/// `None` when `regex::Regex::new` accepts the pattern; otherwise the text of
/// the error it returns (its `Display`).
pub uninterp spec fn regex_compile_error(pattern: Seq<char>) -> Option<Seq<char>>;

/// What `Regex::replace_all` returns: every non-overlapping match of the
/// pattern in the haystack replaced by the replacement, with `$name` and
/// `$n` expanded to capture groups.
pub uninterp spec fn regex_replace_all(
    pattern: Seq<char>,
    haystack: Seq<char>,
    replacement: Seq<char>,
) -> Seq<char>;

/// The texts of the successive non-overlapping matches that
/// `Regex::find_iter` yields.
pub uninterp spec fn regex_matches(pattern: Seq<char>, haystack: Seq<char>) -> Seq<Seq<char>>;

/// The pieces of the haystack between those matches, as `Regex::split`
/// yields them.
pub uninterp spec fn regex_split(pattern: Seq<char>, haystack: Seq<char>) -> Seq<Seq<char>>;

/// `pieces[0] + seps[0] + pieces[1] + ... + seps[n-2] + pieces[n-1]`.
pub open spec fn interleaved(pieces: Seq<Seq<char>>, seps: Seq<Seq<char>>) -> Seq<char>
    decreases pieces.len(),
{
    if pieces.len() == 0 {
        Seq::empty()
    } else if pieces.len() == 1 {
        pieces[0]
    } else {
        interleaved(pieces.drop_last(), seps) + seps[pieces.len() - 2] + pieces.last()
    }
}

/// Calls `regex::Regex::new`. Claimed: it succeeds exactly when
/// `regex_compile_error` is `None`, the result remembers the pattern text,
/// and a refusal carries the error's text. It succeeds on `\d+` (one or
/// more decimal digits): valid syntax, a single Unicode class under a
/// repetition, far within the default size and nesting limits.
#[verifier::external_body]
pub(crate) fn compile_pattern(pattern: &str) -> (r: Result<CompiledPattern, String>)
    ensures
        r is Ok <==> regex_compile_error(pattern@) is None,
        pattern@ == seq!['\\', 'd', '+'] ==> r is Ok,
        r matches Ok(c) ==> c@ == pattern@,
        r matches Err(e) ==> regex_compile_error(pattern@) == Some(e@),
{
    match regex::Regex::new(pattern) {
        Ok(regex) => Ok(CompiledPattern { regex, source: pattern.to_string() }),
        Err(e) => Err(e.to_string()),
    }
}

/// Calls `Regex::replace_all` with a literal-with-expansion replacement
/// string. Claimed: the result is `regex_replace_all` of the pattern text,
/// the haystack and the replacement.
#[verifier::external_body]
pub(crate) fn replace_all(re: &CompiledPattern, haystack: &str, replacement: &str) -> (r: String)
    ensures
        r@ == regex_replace_all(re@, haystack@, replacement@),
{
    re.regex.replace_all(haystack, replacement).into_owned()
}

/// Calls `Regex::find_iter` and keeps the text of each match. Claimed: the
/// texts are `regex_matches` of the pattern text and the haystack.
#[verifier::external_body]
pub(crate) fn find_all(re: &CompiledPattern, haystack: &str) -> (r: Vec<String>)
    ensures
        string_views(r@) == regex_matches(re@, haystack@),
{
    re.regex.find_iter(haystack).map(|m| m.as_str().to_string()).collect()
}

/// Calls `Regex::split`. Claimed: the pieces are `regex_split` of the
/// pattern text and the haystack; there is one piece more than there are
/// matches (the source builds each piece from the end of one `find_iter`
/// match to the start of the next, and a last piece from the end of the
/// last match to the end of the haystack), so the pieces interleaved with
/// the matches give back the haystack.
#[verifier::external_body]
pub(crate) fn split_all(re: &CompiledPattern, haystack: &str) -> (r: Vec<String>)
    ensures
        string_views(r@) == regex_split(re@, haystack@),
        r@.len() == regex_matches(re@, haystack@).len() + 1,
        interleaved(string_views(r@), regex_matches(re@, haystack@)) == haystack@,
{
    re.regex.split(haystack).map(|p| p.to_string()).collect()
}

} // verus!
