//! Rename rules and their application to a list of file names: each name is
//! split into stem and extension, the rule rewrites the stem, and the
//! extension is put back.
use vstd::prelude::*;
use crate::casing::{apply_case, case_applied};
pub use crate::casing::CaseType;
use crate::pattern::{
    compile_pattern, find_all, interleaved, regex_compile_error, regex_matches,
    regex_replace_all, regex_split, replace_all, split_all, CompiledPattern,
};
use crate::segments::{
    apply_segments, has_char, lemma_segment_counter_bound, segment_counter, segments_applied,
};
use crate::text::{
    append_chars, chars_of, copy_range, decimal, decimal_chars, is_numeral, pad_number, padded_number, pow10,
    parse_usize, parse_usize_chars, replace_chars, replace_literal, string_of, string_views,
};

verus! {

/// Where a numbering rule puts the number.
#[derive(Debug, Clone, Copy, PartialEq, Eq, Structural)]
pub enum NumberPosition {
    Prefix,
    Suffix,
}

impl Default for NumberPosition {
    fn default() -> (r: Self)
        ensures
            r == NumberPosition::Prefix,
    {
        NumberPosition::Prefix
    }
}

/// A rule that rewrites the stem of every file name.
#[derive(Debug)]
pub enum RenameRule {
    /// Replace every occurrence of `search` by `replace`.
    SearchReplace { search: String, replace: String },
    /// Replace every match of the regular expression `pattern` by `replace`.
    RegexReplace { pattern: String, replace: String },
    /// Put `prefix` before and `suffix` after the stem.
    PrefixSuffix { prefix: String, suffix: String },
    /// Number the files: `start`, `start + step`, ..., zero-padded to
    /// `padding` digits, before or after the stem with `separator` between.
    Numbering {
        start: usize,
        step: usize,
        padding: usize,
        position: NumberPosition,
        separator: String,
    },
    /// Change the case of the stem.
    ChangeCase { case_type: CaseType },
    /// Zero-pad every number in the stem to `padding` digits; 0 means the
    /// widest number found among all the stems.
    Repad { padding: usize },
    /// Keep some segments of the stem and append a template.
    Segments {
        separator: String,
        keep: String,
        join: String,
        append: String,
        cycle: String,
        group_size: usize,
    },
}

/// A file name before and after renaming.
#[derive(Debug)]
pub struct RenamePreview {
    pub original: String,
    pub renamed: String,
    pub changed: bool,
}

/// The default start of a numbering rule.
pub fn default_start() -> (r: usize)
    ensures
        r == 1,
{
    1
}

/// The default step of a numbering rule.
pub fn default_step() -> (r: usize)
    ensures
        r == 1,
{
    1
}

/// The default number width of a numbering rule.
pub fn default_padding() -> (r: usize)
    ensures
        r == 3,
{
    3
}

/// The default width of a repad rule: 0, the widest number found.
pub fn default_repad_padding() -> (r: usize)
    ensures
        r == 0,
{
    0
}

/// The default separator of a segments rule.
pub fn default_segments_separator() -> (r: String)
    ensures
        r@ == seq!['_'],
{
    let mut s = String::new();
    crate::text::push_char(&mut s, '_');
    assert(s@ =~= seq!['_']);
    s
}

/// The default group size of a segments rule.
pub fn default_group_size() -> (r: usize)
    ensures
        r == 1,
{
    1
}

/// The position of the last `c` in `s`.
pub open spec fn last_index_of(s: Seq<char>, c: char) -> Option<int>
    decreases s.len(),
{
    if s.len() == 0 {
        None
    } else if s.last() == c {
        Some(s.len() - 1)
    } else {
        last_index_of(s.drop_last(), c)
    }
}

/// Stem and extension of a file name: split at the last `.` unless that dot
/// is the first character (a hidden file such as `.bashrc` has no
/// extension); without such a dot the extension is empty.
pub open spec fn name_parts(name: Seq<char>) -> (Seq<char>, Seq<char>) {
    match last_index_of(name, '.') {
        Some(p) => if p > 0 {
            (name.take(p), name.skip(p + 1))
        } else {
            (name, Seq::empty())
        },
        None => (name, Seq::empty()),
    }
}

proof fn lemma_last_index_of(s: Seq<char>, c: char)
    ensures
        match last_index_of(s, c) {
            Some(p) => 0 <= p < s.len() && s[p] == c && forall|k: int|
                p < k < s.len() ==> s[k] != c,
            None => forall|k: int| 0 <= k < s.len() ==> s[k] != c,
        },
    decreases s.len(),
{
    if s.len() > 0 && s.last() != c {
        lemma_last_index_of(s.drop_last(), c);
        match last_index_of(s.drop_last(), c) {
            Some(p) => {
                assert forall|k: int| p < k < s.len() implies s[k] != c by {
                    if k < s.len() - 1 {
                        assert(s[k] == s.drop_last()[k]);
                    }
                }
            },
            None => {
                assert forall|k: int| 0 <= k < s.len() implies s[k] != c by {
                    if k < s.len() - 1 {
                        assert(s[k] == s.drop_last()[k]);
                    }
                }
            },
        }
    }
}

proof fn lemma_last_index_is(s: Seq<char>, c: char, p: int)
    requires
        0 <= p < s.len(),
        s[p] == c,
        forall|k: int| p < k < s.len() ==> s[k] != c,
    ensures
        last_index_of(s, c) == Some(p),
{
    lemma_last_index_of(s, c);
}

/// Splits a file name into stem and extension (see `name_parts`).
pub fn split_name_ext(filename: &str) -> (r: (String, String))
    ensures
        (r.0@, r.1@) == name_parts(filename@),
{
    let v = chars_of(filename);
    let n = v.len();
    let mut k = n;
    while k > 0 && v[k - 1] != '.'
        invariant
            k <= n,
            n == v@.len(),
            forall|j: int| k <= j < n ==> v@[j] != '.',
        decreases k,
    {
        k = k - 1;
    }
    if k > 0 {
        proof {
            lemma_last_index_is(v@, '.', k - 1);
        }
        if k - 1 > 0 {
            let stem = copy_range(v.as_slice(), 0, k - 1);
            let ext = copy_range(v.as_slice(), k, n);
            assert(stem@ =~= v@.take(k - 1));
            assert(ext@ =~= v@.skip(k as int));
            return (string_of(stem.as_slice()), string_of(ext.as_slice()));
        }
    } else {
        proof {
            lemma_last_index_of(v@, '.');
        }
    }
    (string_of(v.as_slice()), String::new())
}

/// The regular expression that finds the numbers of a stem: runs of decimal
/// digits (Unicode decimal digits, as `regex` reads `\d`).
pub open spec fn digit_pattern() -> Seq<char> {
    seq!['\\', 'd', '+']
}

/// What `str::parse::<usize>` reads from a number, or 0 when it cannot.
pub open spec fn number_value(s: Seq<char>) -> nat {
    match parse_usize(s) {
        Some(v) => v as nat,
        None => 0,
    }
}

/// The pieces between the numbers, with each number re-written with its
/// value zero-padded to `width`.
pub open spec fn repadded(pieces: Seq<Seq<char>>, numbers: Seq<Seq<char>>, width: nat) -> Seq<
    char,
> {
    interleaved(pieces, numbers.map_values(|m: Seq<char>| padded_number(number_value(m), width)))
}

/// How many digits a number read from a stem has: the length of the decimal
/// notation of its value.
pub open spec fn number_width(m: Seq<char>) -> nat {
    decimal(number_value(m)).len()
}

/// The widest of the numbers, 0 when there are none.
pub open spec fn widest_number(numbers: Seq<Seq<char>>) -> nat
    decreases numbers.len(),
{
    if numbers.len() == 0 {
        0
    } else {
        let rest = widest_number(numbers.drop_last());
        let w = number_width(numbers.last());
        if w > rest {
            w
        } else {
            rest
        }
    }
}

/// The widest number found in the stems of the names, 0 when there is none.
pub open spec fn detected_width(names: Seq<Seq<char>>, pattern: Seq<char>) -> nat
    decreases names.len(),
{
    if names.len() == 0 {
        0
    } else {
        let rest = detected_width(names.drop_last(), pattern);
        let w = widest_number(regex_matches(pattern, name_parts(names.last()).0));
        if w > rest {
            w
        } else {
            rest
        }
    }
}

proof fn lemma_interleaved_step(pieces: Seq<Seq<char>>, seps: Seq<Seq<char>>, k: int)
    requires
        0 <= k,
        k + 2 <= pieces.len(),
    ensures
        interleaved(pieces.take(k + 2), seps) == interleaved(pieces.take(k + 1), seps) + seps[k]
            + pieces[k + 1],
{
    let t = pieces.take(k + 2);
    assert(t.drop_last() =~= pieces.take(k + 1));
    assert(t.last() == pieces[k + 1]);
}

/// Every number the pattern finds in the stem re-written with its value
/// (0 when it is too large for `usize` or not ASCII) zero-padded to
/// `width`; the text between the numbers is kept.
pub fn repad_numbers(stem: &str, digits: &CompiledPattern, width: usize) -> (r: String)
    ensures
        r@ == repadded(regex_split(digits@, stem@), regex_matches(digits@, stem@), width as nat),
{
    let pieces = split_all(digits, stem);
    let numbers = find_all(digits, stem);
    let ghost ps = string_views(pieces@);
    let ghost ns = string_views(numbers@);
    let ghost padded = ns.map_values(|m: Seq<char>| padded_number(number_value(m), width as nat));
    let first = chars_of(pieces[0].as_str());
    let mut out: Vec<char> = first;
    proof {
        assert(pieces@.len() >= 1);
        assert(ps.take(1).len() == 1);
        assert(ps.take(1)[0] == ps[0]);
    }
    let mut k: usize = 0;
    while k < numbers.len()
        invariant
            pieces@.len() == numbers@.len() + 1,
            ps == string_views(pieces@),
            ns == string_views(numbers@),
            padded == ns.map_values(|m: Seq<char>| padded_number(number_value(m), width as nat)),
            k <= numbers@.len(),
            out@ == interleaved(ps.take(k + 1), padded),
        decreases numbers@.len() - k,
    {
        let num_chars = chars_of(numbers[k].as_str());
        let value: usize = match parse_usize_chars(num_chars.as_slice()) {
            Some(v) => v,
            None => 0,
        };
        let p = pad_number(value, width);
        let next = chars_of(pieces[k + 1].as_str());
        proof {
            assert(ns[k as int] == numbers@[k as int]@);
            assert(padded[k as int] == p@);
            assert(ps[k + 1] == next@);
            lemma_interleaved_step(ps, padded, k as int);
        }
        append_chars(&mut out, p.as_slice());
        append_chars(&mut out, next.as_slice());
        k = k + 1;
    }
    assert(ps.take(ps.len() as int) =~= ps);
    string_of(out.as_slice())
}

/// The widest number (in decimal digits of its value) that the pattern
/// finds in the stems of the file names; 0 when there is none.
pub fn auto_detect_padding(filenames: &[String], digits: &CompiledPattern) -> (r: usize)
    ensures
        r == detected_width(string_views(filenames@), digits@),
{
    let ghost names = string_views(filenames@);
    let mut best: usize = 0;
    let mut i: usize = 0;
    while i < filenames.len()
        invariant
            i <= filenames@.len(),
            names == string_views(filenames@),
            best == detected_width(names.take(i as int), digits@),
        decreases filenames@.len() - i,
    {
        let (stem, _ext) = split_name_ext(filenames[i].as_str());
        let numbers = find_all(digits, stem.as_str());
        let ghost ns = string_views(numbers@);
        let mut widest: usize = 0;
        let mut k: usize = 0;
        while k < numbers.len()
            invariant
                k <= numbers@.len(),
                ns == string_views(numbers@),
                widest == widest_number(ns.take(k as int)),
            decreases numbers@.len() - k,
        {
            let num_chars = chars_of(numbers[k].as_str());
            let value: usize = match parse_usize_chars(num_chars.as_slice()) {
                Some(v) => v,
                None => 0,
            };
            let w = decimal_chars(value).len();
            proof {
                assert(ns[k as int] == numbers@[k as int]@);
                assert(ns.take(k + 1).drop_last() =~= ns.take(k as int));
                assert(ns.take(k + 1).last() == ns[k as int]);
            }
            if w > widest {
                widest = w;
            }
            k = k + 1;
        }
        proof {
            assert(ns.take(ns.len() as int) =~= ns);
            assert(names.take(i + 1).drop_last() =~= names.take(i as int));
            assert(names.take(i + 1).last() == filenames@[i as int]@);
        }
        if widest > best {
            best = widest;
        }
        i = i + 1;
    }
    assert(names.take(names.len() as int) =~= names);
    best
}


/// Why a rule cannot be applied to `count` names, as the error text; `None`
/// when it can. Only a regular-expression rule is ever refused: when there
/// is at least one name and `regex` refuses its pattern.
pub open spec fn rule_refusal(rule: RenameRule, count: nat) -> Option<Seq<char>> {
    match rule {
        RenameRule::RegexReplace { pattern, .. } => if count > 0 {
            match regex_compile_error(pattern@) {
                Some(e) => Some("Regex invalide: "@ + e),
                None => None,
            }
        } else {
            None
        },
        _ => None,
    }
}

/// The number width a repad rule uses for these names: its padding, or the
/// widest number found when the padding is 0. Other rules do not use it.
pub open spec fn repad_width(rule: RenameRule, names: Seq<Seq<char>>) -> nat {
    match rule {
        RenameRule::Repad { padding } => if padding == 0 {
            detected_width(names, digit_pattern())
        } else {
            padding as nat
        },
        _ => 0,
    }
}

/// Whether the numbers of a numbering rule fit in `usize` for `count` names
/// (otherwise `start + i * step` overflows).
pub open spec fn rule_fits(rule: RenameRule, count: nat) -> bool {
    match rule {
        RenameRule::Numbering { start, step, .. } => count == 0 || start + (count - 1) * step
            <= usize::MAX,
        _ => true,
    }
}

/// The new stem the rule gives the stem of the name at position `i`.
pub open spec fn renamed_stem(rule: RenameRule, stem: Seq<char>, i: int, width: nat) -> Seq<
    char,
> {
    match rule {
        RenameRule::SearchReplace { search, replace } => replace_literal(stem, search@, replace@),
        RenameRule::RegexReplace { pattern, replace } => regex_replace_all(
            pattern@,
            stem,
            replace@,
        ),
        RenameRule::PrefixSuffix { prefix, suffix } => prefix@ + stem + suffix@,
        RenameRule::Numbering { start, step, padding, position, separator } => {
            let number = padded_number((start + i * step) as nat, padding as nat);
            match position {
                NumberPosition::Prefix => number + separator@ + stem,
                NumberPosition::Suffix => stem + separator@ + number,
            }
        },
        RenameRule::ChangeCase { case_type } => case_applied(stem, case_type),
        RenameRule::Repad { .. } => repadded(
            regex_split(digit_pattern(), stem),
            regex_matches(digit_pattern(), stem),
            width,
        ),
        RenameRule::Segments { separator, keep, join, append, cycle, group_size } => {
            segments_applied(
                stem,
                separator@,
                keep@,
                join@,
                append@,
                cycle@,
                group_size,
                i as usize,
            )
        },
    }
}

/// The new name the rule gives the name at position `i`: the new stem, and
/// the extension after a `.` when there is one.
pub open spec fn renamed_name(rule: RenameRule, name: Seq<char>, i: int, width: nat) -> Seq<
    char,
> {
    let (stem, ext) = name_parts(name);
    let new_stem = renamed_stem(rule, stem, i, width);
    if ext.len() == 0 {
        new_stem
    } else {
        new_stem + seq!['.'] + ext
    }
}

/// The preview of one name: the original, its new name, and whether they
/// differ.
pub open spec fn is_preview_of(p: RenamePreview, name: Seq<char>, renamed: Seq<char>) -> bool {
    &&& p.original@ == name
    &&& p.renamed@ == renamed
    &&& p.changed == (name != renamed)
}

/// The regular expressions a rule needs, compiled.
struct CompiledRule {
    user: Option<CompiledPattern>,
    digits: Option<CompiledPattern>,
}

impl CompiledRule {
    spec fn ready_for(self, rule: RenameRule, count: nat) -> bool {
        &&& rule matches RenameRule::RegexReplace { pattern, .. } ==> (count > 0 ==> (
        self.user matches Some(c) && c@ == pattern@))
        &&& rule matches RenameRule::Repad { .. } ==> (self.digits matches Some(c) && c@
            == digit_pattern())
    }
}

fn refusal_message(e: &String) -> (r: String)
    ensures
        r@ == "Regex invalide: "@ + e@,
{
    let mut msg = String::from_str("Regex invalide: ");
    msg.append(e.as_str());
    msg
}

/// The new stem for the name at position `i`.
fn rename_stem(
    rule: &RenameRule,
    compiled: &CompiledRule,
    count: usize,
    stem: &str,
    i: usize,
    width: usize,
) -> (r: String)
    requires
        compiled.ready_for(*rule, count as nat),
        i < count,
        rule_fits(*rule, count as nat),
    ensures
        r@ == renamed_stem(*rule, stem@, i as int, width as nat),
{
    match rule {
        RenameRule::SearchReplace { search, replace } => {
            let s = chars_of(stem);
            let p = chars_of(search.as_str());
            let q = chars_of(replace.as_str());
            let out = replace_chars(s.as_slice(), p.as_slice(), q.as_slice());
            string_of(out.as_slice())
        },
        RenameRule::RegexReplace { pattern, replace } => match &compiled.user {
            Some(c) => replace_all(c, stem, replace.as_str()),
            None => {
                assert(false);
                String::new()
            },
        },
        RenameRule::PrefixSuffix { prefix, suffix } => {
            let mut out = prefix.clone();
            out.append(stem);
            out.append(suffix.as_str());
            out
        },
        RenameRule::Numbering { start, step, padding, position, separator } => {
            proof {
                let st = *step as int;
                assert(i * st <= (count - 1) * st) by (nonlinear_arith)
                    requires
                        i <= count - 1,
                        st >= 0,
                ;
            }
            let number = pad_number(start + i * step, *padding);
            let number_s = string_of(number.as_slice());
            match position {
                NumberPosition::Prefix => {
                    let mut out = number_s;
                    out.append(separator.as_str());
                    out.append(stem);
                    out
                },
                NumberPosition::Suffix => {
                    let mut out = String::from_str(stem);
                    out.append(separator.as_str());
                    out.append(number_s.as_str());
                    out
                },
            }
        },
        RenameRule::ChangeCase { case_type } => apply_case(stem, case_type),
        RenameRule::Repad { .. } => match &compiled.digits {
            Some(c) => repad_numbers(stem, c, width),
            None => {
                assert(false);
                String::new()
            },
        },
        RenameRule::Segments { separator, keep, join, append, cycle, group_size } => {
            proof {
                lemma_segment_counter_bound(cycle@, *group_size, i);
            }
            apply_segments(
                stem,
                separator.as_str(),
                keep.as_str(),
                join.as_str(),
                append.as_str(),
                cycle.as_str(),
                *group_size,
                i,
            )
        },
    }
}

/// Whether a numbering rule's numbers fit in `usize` for `count` names (see
/// `rule_fits`); callers check this before `apply_rule`.
pub fn numbering_fits(rule: &RenameRule, count: usize) -> (r: bool)
    ensures
        r == rule_fits(*rule, count as nat),
{
    match rule {
        RenameRule::Numbering { start, step, .. } => {
            if count == 0 {
                true
            } else {
                match (count - 1).checked_mul(*step) {
                    Some(m) => start.checked_add(m).is_some(),
                    None => {
                        assert((count - 1) * (*step as int) > usize::MAX);
                        false
                    },
                }
            }
        },
        _ => true,
    }
}

/// Applies a rule to every file name and returns one preview per name, in
/// order. It fails only when the rule's regular expression is refused (see
/// `rule_refusal`), with the message `Regex invalide: <error>`.
pub fn apply_rule(filenames: &[String], rule: &RenameRule) -> (r: Result<
    Vec<RenamePreview>,
    String,
>)
    requires
        rule_fits(*rule, filenames@.len()),
    ensures
        match r {
            Ok(v) => {
                &&& rule_refusal(*rule, filenames@.len()) is None
                &&& v@.len() == filenames@.len()
                &&& forall|i: int|
                    0 <= i < v@.len() ==> is_preview_of(
                        #[trigger] v@[i],
                        filenames@[i]@,
                        renamed_name(
                            *rule,
                            filenames@[i]@,
                            i,
                            repad_width(*rule, string_views(filenames@)),
                        ),
                    )
            },
            Err(e) => rule_refusal(*rule, filenames@.len()) == Some(e@),
        },
{
    let count = filenames.len();
    let ghost names = string_views(filenames@);
    let mut compiled = CompiledRule { user: None, digits: None };
    let mut width: usize = 0;
    match rule {
        RenameRule::RegexReplace { pattern, .. } => {
            if count > 0 {
                match compile_pattern(pattern.as_str()) {
                    Ok(c) => {
                        compiled.user = Some(c);
                    },
                    Err(e) => {
                        return Err(refusal_message(&e));
                    },
                }
            }
        },
        RenameRule::Repad { padding } => {
            proof {
                reveal_strlit("\\d+");
            }
            let digit_text = "\\d+";
            assert(digit_text@ =~= digit_pattern());
            match compile_pattern(digit_text) {
                Ok(c) => {
                    width = if *padding == 0 {
                        let w = auto_detect_padding(filenames, &c);
                        w
                    } else {
                        *padding
                    };
                    compiled.digits = Some(c);
                },
                Err(_) => {
                    assert(false);
                    return Ok(Vec::new());
                },
            }
        },
        _ => {},
    }
    assert(width as nat == repad_width(*rule, names));
    let mut results: Vec<RenamePreview> = Vec::new();
    let mut i: usize = 0;
    while i < count
        invariant
            count == filenames@.len(),
            names == string_views(filenames@),
            compiled.ready_for(*rule, count as nat),
            rule_fits(*rule, count as nat),
            width as nat == repad_width(*rule, names),
            i <= count,
            results@.len() == i,
            forall|k: int|
                0 <= k < i ==> is_preview_of(
                    #[trigger] results@[k],
                    filenames@[k]@,
                    renamed_name(*rule, filenames@[k]@, k, width as nat),
                ),
        decreases count - i,
    {
        let name = &filenames[i];
        let (stem, ext) = split_name_ext(name.as_str());
        let new_stem = rename_stem(rule, &compiled, count, stem.as_str(), i, width);
        let renamed = if ext.as_str().is_empty() {
            new_stem
        } else {
            let mut out = new_stem;
            let mut dot = String::new();
            crate::text::push_char(&mut dot, '.');
            out.append(dot.as_str());
            out.append(ext.as_str());
            out
        };
        let changed = !(*name == renamed);
        let original = name.clone();
        results.push(RenamePreview { original, renamed, changed });
        i = i + 1;
    }
    Ok(results)
}


/// Splitting a name and putting it back loses nothing but a final dot: with
/// an extension, stem, `.` and extension give the name; without one, the
/// name is the stem, or the stem followed by the dot that ends the name. The
/// extension holds no dot.
pub proof fn lemma_name_parts_rebuild(name: Seq<char>)
    ensures
        name_parts(name).1.len() > 0 ==> name_parts(name).0 + seq!['.'] + name_parts(name).1
            == name,
        name_parts(name).1.len() == 0 ==> name == name_parts(name).0 || name == name_parts(
            name,
        ).0 + seq!['.'],
        !name_parts(name).1.contains('.'),
{
    lemma_last_index_of(name, '.');
    match last_index_of(name, '.') {
        Some(p) => {
            if p > 0 {
                let ext = name.skip(p + 1);
                assert(name.take(p) + seq!['.'] + ext =~= name);
                if ext.contains('.') {
                    let k = choose|k: int| 0 <= k < ext.len() && ext[k] == '.';
                    assert(name[p + 1 + k] == '.');
                }
            }
        },
        None => {},
    }
}

/// A rule that leaves a stem as it is leaves the whole name as it is,
/// unless the name ends with a dot after its first character (that dot is
/// dropped, as the extension after it is empty).
pub proof fn lemma_unchanged_stem_keeps_name(rule: RenameRule, name: Seq<char>, i: int, width: nat)
    requires
        renamed_stem(rule, name_parts(name).0, i, width) == name_parts(name).0,
        !(name.len() > 1 && name.last() == '.'),
    ensures
        renamed_name(rule, name, i, width) == name,
{
    lemma_name_parts_rebuild(name);
    lemma_last_index_of(name, '.');
    let (stem, ext) = name_parts(name);
    if ext.len() == 0 && name != stem {
        assert(name == stem + seq!['.']);
        assert(name.last() == '.');
        match last_index_of(name, '.') {
            Some(p) => {
                assert(p > 0);
            },
            None => {},
        }
    }
}


proof fn lemma_widest_number_zero(numbers: Seq<Seq<char>>)
    ensures
        widest_number(numbers) == 0 <==> numbers.len() == 0,
    decreases numbers.len(),
{
    if numbers.len() > 0 {
        lemma_widest_number_zero(numbers.drop_last());
        crate::text::lemma_decimal_digits(number_value(numbers.last()));
    }
}

/// The detected width of two lists of names together is the wider of their
/// widths (detection goes name by name), and a list's width is 0 exactly
/// when the pattern finds no number in any of its stems.
pub proof fn lemma_detected_width_concat(
    a: Seq<Seq<char>>,
    b: Seq<Seq<char>>,
    pattern: Seq<char>,
)
    ensures
        detected_width(a + b, pattern) == if detected_width(a, pattern) > detected_width(
            b,
            pattern,
        ) {
            detected_width(a, pattern)
        } else {
            detected_width(b, pattern)
        },
        detected_width(a, pattern) == 0 <==> forall|i: int|
            0 <= i < a.len() ==> #[trigger] regex_matches(pattern, name_parts(a[i]).0).len() == 0,
    decreases b.len(),
{
    if b.len() == 0 {
        assert(a + b =~= a);
        lemma_detected_width_zero(a, pattern);
    } else {
        lemma_detected_width_concat(a, b.drop_last(), pattern);
        assert((a + b).drop_last() =~= a + b.drop_last());
        assert((a + b).last() == b.last());
    }
}

proof fn lemma_detected_width_zero(names: Seq<Seq<char>>, pattern: Seq<char>)
    ensures
        detected_width(names, pattern) == 0 <==> forall|i: int|
            0 <= i < names.len() ==> #[trigger] regex_matches(pattern, name_parts(names[i]).0).len()
                == 0,
    decreases names.len(),
{
    if names.len() > 0 {
        let rest = names.drop_last();
        lemma_detected_width_zero(rest, pattern);
        lemma_widest_number_zero(regex_matches(pattern, name_parts(names.last()).0));
        if detected_width(names, pattern) == 0 {
            assert forall|i: int|
                0 <= i < names.len() implies #[trigger] regex_matches(pattern, name_parts(names[i]).0).len()
                == 0 by {
                if i < names.len() - 1 {
                    assert(names[i] == rest[i]);
                }
            }
        } else {
            if forall|i: int|
                0 <= i < names.len() ==> #[trigger] regex_matches(pattern, name_parts(names[i]).0).len()
                    == 0 {
                assert forall|i: int|
                    0 <= i < rest.len() implies #[trigger] regex_matches(pattern, name_parts(rest[i]).0).len()
                    == 0 by {
                    assert(names[i] == rest[i]);
                }
                assert(regex_matches(pattern, name_parts(names[names.len() - 1]).0).len() == 0);
            }
        }
    }
}


/// A numbering rule writes, whatever its position, the number of the file
/// at `i` (`start + i * step`) in decimal, zero-padded to `padding`
/// characters: before the separator and the stem, or after the stem and the
/// separator.
pub proof fn lemma_numbering_writes_padded_number(rule: RenameRule, stem: Seq<char>, i: int, width: nat)
    requires
        0 <= i,
    ensures
        rule matches RenameRule::Numbering { start, step, padding, position, separator } ==> ({
            let r = renamed_stem(rule, stem, i, width);
            let n = (start + i * step) as nat;
            match position {
                NumberPosition::Prefix => {
                    let tail = separator@ + stem;
                    &&& r.len() >= tail.len()
                    &&& r.skip(r.len() - tail.len()) == tail
                    &&& is_numeral(r.take(r.len() - tail.len()), n, padding as nat)
                },
                NumberPosition::Suffix => {
                    let head = stem + separator@;
                    &&& r.len() >= head.len()
                    &&& r.take(head.len() as int) == head
                    &&& is_numeral(r.skip(head.len() as int), n, padding as nat)
                },
            }
        }),
{
    match rule {
        RenameRule::Numbering { start, step, padding, position, separator } => {
            assert(start + i * step >= 0) by (nonlinear_arith)
                requires
                    i >= 0,
                    step >= 0,
                    start >= 0,
            ;
            let n = (start + i * step) as nat;
            let d = padded_number(n, padding as nat);
            crate::text::lemma_padded_number_is_numeral(n, padding as nat);
            let r = renamed_stem(rule, stem, i, width);
            match position {
                NumberPosition::Prefix => {
                    let tail = separator@ + stem;
                    assert(r == d + tail);
                    assert(r.skip(r.len() - tail.len()) =~= tail);
                    assert(r.take(r.len() - tail.len()) =~= d);
                },
                NumberPosition::Suffix => {
                    let head = stem + separator@;
                    assert(r == head + d);
                    assert(r.take(head.len() as int) =~= head);
                    assert(r.skip(head.len() as int) =~= d);
                },
            }
        },
        _ => {},
    }
}

/// A prefix/suffix rule puts its prefix before and its suffix after the
/// whole stem, whichever of them is empty: the new stem is the prefix, the
/// stem and the suffix, one after the other.
pub proof fn lemma_prefix_suffix_surrounds(rule: RenameRule, stem: Seq<char>, i: int, width: nat)
    ensures
        rule matches RenameRule::PrefixSuffix { prefix, suffix } ==> ({
            let r = renamed_stem(rule, stem, i, width);
            &&& r.len() == prefix@.len() + stem.len() + suffix@.len()
            &&& r.take(prefix@.len() as int) == prefix@
            &&& r.subrange(prefix@.len() as int, (prefix@.len() + stem.len()) as int) == stem
            &&& r.skip((prefix@.len() + stem.len()) as int) == suffix@
        }),
{
    match rule {
        RenameRule::PrefixSuffix { prefix, suffix } => {
            let r = renamed_stem(rule, stem, i, width);
            assert(r == prefix@ + stem + suffix@);
            assert(r.take(prefix@.len() as int) =~= prefix@);
            assert(r.subrange(prefix@.len() as int, (prefix@.len() + stem.len()) as int) =~= stem);
            assert(r.skip((prefix@.len() + stem.len()) as int) =~= suffix@);
        },
        _ => {},
    }
}

/// The width of a number read from a stem is its count of decimal digits:
/// at least one, its value is below `10^width`, and at least
/// `10^(width-1)` unless the width is 1.
pub proof fn lemma_number_width_counts_digits(m: Seq<char>)
    ensures
        number_width(m) >= 1,
        number_value(m) < pow10(number_width(m)),
        number_width(m) == 1 || pow10((number_width(m) - 1) as nat) <= number_value(m),
{
    crate::text::lemma_decimal_length(number_value(m));
}

/// The widest number is as wide as every number of the list, and as wide as
/// one of them (0 for no number).
pub proof fn lemma_widest_number_bounds(numbers: Seq<Seq<char>>)
    ensures
        forall|k: int| 0 <= k < numbers.len() ==> number_width(#[trigger] numbers[k]) <= widest_number(numbers),
        numbers.len() == 0 ==> widest_number(numbers) == 0,
        numbers.len() > 0 ==> exists|k: int| 0 <= k < numbers.len() && widest_number(numbers) == number_width(#[trigger] numbers[k]),
    decreases numbers.len(),
{
    if numbers.len() > 0 {
        let rest = numbers.drop_last();
        lemma_widest_number_bounds(rest);
        assert forall|k: int| 0 <= k < numbers.len() implies number_width(#[trigger] numbers[k]) <= widest_number(numbers) by {
            if k < numbers.len() - 1 {
                assert(numbers[k] == rest[k]);
            }
        }
        let last = numbers.len() - 1;
        if number_width(numbers.last()) > widest_number(rest) {
            assert(widest_number(numbers) == number_width(numbers[last]));
        } else if rest.len() > 0 {
            let k = choose|k: int| 0 <= k < rest.len() && widest_number(rest) == number_width(#[trigger] rest[k]);
            assert(numbers[k] == rest[k]);
            assert(widest_number(numbers) == number_width(numbers[k]));
        } else {
            assert(widest_number(numbers) == number_width(numbers[last]));
        }
    }
}

/// The detected width bounds every number the pattern finds in every stem,
/// and is the width of one of them (0 when there is none).
pub proof fn lemma_detected_width_bounds(names: Seq<Seq<char>>, pattern: Seq<char>)
    ensures
        forall|i: int, k: int|
            0 <= i < names.len() && 0 <= k < regex_matches(pattern, name_parts(names[i]).0).len()
                ==> number_width(#[trigger] regex_matches(pattern, name_parts(#[trigger] names[i]).0)[k])
                <= detected_width(names, pattern),
        detected_width(names, pattern) > 0 ==> exists|i: int, k: int|
            0 <= i < names.len() && 0 <= k < regex_matches(pattern, name_parts(names[i]).0).len()
                && detected_width(names, pattern) == number_width(
                #[trigger] regex_matches(pattern, name_parts(#[trigger] names[i]).0)[k],
            ),
    decreases names.len(),
{
    if names.len() > 0 {
        let rest = names.drop_last();
        lemma_detected_width_bounds(rest, pattern);
        let last = names.len() - 1;
        let ms = regex_matches(pattern, name_parts(names[last]).0);
        assert(names.last() == names[last]);
        lemma_widest_number_bounds(ms);
        assert forall|i: int, k: int|
            0 <= i < names.len() && 0 <= k < regex_matches(pattern, name_parts(names[i]).0).len()
                implies number_width(#[trigger] regex_matches(pattern, name_parts(#[trigger] names[i]).0)[k])
                <= detected_width(names, pattern) by {
            if i < last {
                assert(names[i] == rest[i]);
            } else {
                assert(number_width(ms[k]) <= widest_number(ms));
            }
        }
        if detected_width(names, pattern) > 0 {
            if widest_number(ms) > detected_width(rest, pattern) {
                assert(ms.len() > 0);
                let k = choose|k: int| 0 <= k < ms.len() && widest_number(ms) == number_width(#[trigger] ms[k]);
                assert(detected_width(names, pattern) == number_width(regex_matches(pattern, name_parts(names[last]).0)[k]));
            } else {
                let (i, k) = choose|i: int, k: int|
                    0 <= i < rest.len() && 0 <= k < regex_matches(pattern, name_parts(rest[i]).0).len()
                        && detected_width(rest, pattern) == number_width(
                        #[trigger] regex_matches(pattern, name_parts(#[trigger] rest[i]).0)[k],
                    );
                assert(names[i] == rest[i]);
                assert(detected_width(names, pattern) == number_width(regex_matches(pattern, name_parts(names[i]).0)[k]));
            }
        }
    }
}


/// Every rule keeps the extension: the new name is the new stem, then a dot
/// and the original extension when the name has one; a name with an
/// extension ends with it after the rename.
pub proof fn lemma_rules_keep_the_extension(rule: RenameRule, name: Seq<char>, i: int, width: nat)
    ensures
        name_parts(name).1.len() == 0 ==> renamed_name(rule, name, i, width) == renamed_stem(
            rule,
            name_parts(name).0,
            i,
            width,
        ),
        name_parts(name).1.len() > 0 ==> {
            let ext = name_parts(name).1;
            let r = renamed_name(rule, name, i, width);
            &&& r.len() == renamed_stem(rule, name_parts(name).0, i, width).len() + 1 + ext.len()
            &&& r.take(renamed_stem(rule, name_parts(name).0, i, width).len() as int) == renamed_stem(
                rule,
                name_parts(name).0,
                i,
                width,
            )
            &&& r[renamed_stem(rule, name_parts(name).0, i, width).len() as int] == '.'
            &&& r.skip(r.len() - ext.len()) == ext
        },
{
    let (stem, ext) = name_parts(name);
    let ns = renamed_stem(rule, stem, i, width);
    if ext.len() > 0 {
        let r = renamed_name(rule, name, i, width);
        assert(r == ns + seq!['.'] + ext);
        assert(r.take(ns.len() as int) =~= ns);
        assert(r.skip(r.len() - ext.len()) =~= ext);
    }
}

} // verus!
