//! The "segments" rule: a stem is cut at a separator, some of its segments
//! are kept (by 1-based ranges such as `1-3,5`), re-joined, and followed by
//! a suffix in which `#` runs become a zero-padded counter and `@` becomes a
//! value taken from a repeating cycle.
use vstd::prelude::*;
use vstd::arithmetic::div_mod::{
    lemma_fundamental_div_mod, lemma_fundamental_div_mod_converse, lemma_small_mod,
};
use crate::text::{
    append_chars, chars_equal, chars_of, copy_range, find_chars, first_occurrence, join, occurs_at,
    join_chars, pad_number, padded_number, parse_usize, parse_usize_chars, split_chars, split_on,
    string_of, trim, trim_chars, views,
};

verus! {

/// The number of occurrences of `v` in `s`.
pub open spec fn count_of(s: Seq<Seq<char>>, v: Seq<char>) -> nat
    decreases s.len(),
{
    if s.len() == 0 {
        0
    } else {
        count_of(s.drop_last(), v) + if s.last() == v {
            1nat
        } else {
            0nat
        }
    }
}

/// Each item repeated `g` times in a row: `[a, b]` with `g = 2` is
/// `[a, a, b, b]`.
pub open spec fn expanded(items: Seq<Seq<char>>, g: nat) -> Seq<Seq<char>> {
    Seq::new(items.len() * g, |k: int| items[k / g as int])
}

/// The cycle value and the counter for the file at `index`: the value at
/// `index` in the endlessly repeated expanded cycle, and how many times that
/// value occurred before it (counting earlier rounds). Without cycle items
/// the value is empty and the counter is `index`.
pub open spec fn cycle_position(items: Seq<Seq<char>>, g: nat, index: nat) -> (Seq<char>, nat) {
    let ex = expanded(items, g);
    if ex.len() == 0 {
        (Seq::empty(), index)
    } else {
        let l = ex.len();
        let pos = index % l;
        let round = index / l;
        let value = ex[pos as int];
        (value, (round * count_of(ex, value) + count_of(ex.take(pos + 1int), value) - 1) as nat)
    }
}

pub proof fn lemma_count_take_step(s: Seq<Seq<char>>, v: Seq<char>, k: int)
    requires
        0 <= k < s.len(),
    ensures
        count_of(s.take(k + 1), v) == count_of(s.take(k), v) + if s[k] == v {
            1nat
        } else {
            0nat
        },
{
    assert(s.take(k + 1).drop_last() =~= s.take(k));
    assert(s.take(k + 1).last() == s[k]);
}

proof fn lemma_count_le_len(s: Seq<Seq<char>>, v: Seq<char>)
    ensures
        count_of(s, v) <= s.len(),
    decreases s.len(),
{
    if s.len() > 0 {
        lemma_count_le_len(s.drop_last(), v);
    }
}

/// Occurrences in a prefix of the expanded cycle, counted on the items.
proof fn lemma_expanded_count(items: Seq<Seq<char>>, g: int, v: Seq<char>, k: int)
    requires
        g > 0,
        0 <= k <= items.len() * g,
    ensures
        k / g <= items.len(),
        count_of(expanded(items, g as nat).take(k), v) == g * count_of(items.take(k / g), v) + (
        if k / g < items.len() && items[k / g] == v {
            k % g
        } else {
            0
        }),
    decreases k,
{
    let ex = expanded(items, g as nat);
    let m = items.len() as int;
    if k == 0 {
        assert(ex.take(0) =~= Seq::<Seq<char>>::empty());
        assert(items.take(0) =~= Seq::<Seq<char>>::empty());
        assert(0int / g == 0) by (nonlinear_arith)
            requires
                g > 0,
        ;
        assert(0int % g == 0) by (nonlinear_arith)
            requires
                g > 0,
        ;
    } else {
        let j = k - 1;
        lemma_expanded_count(items, g, v, j);
        let q = j / g;
        let r = j % g;
        lemma_fundamental_div_mod(j, g);
        assert(0 <= r < g) by (nonlinear_arith)
            requires
                g > 0,
                r == j % g,
        ;
        assert(q < m) by (nonlinear_arith)
            requires
                j == g * q + r,
                0 <= r,
                j < m * g,
                g > 0,
        ;
        assert(0 <= q) by (nonlinear_arith)
            requires
                j == g * q + r,
                0 <= j,
                r < g,
                g > 0,
        ;
        assert(ex.len() == m * g);
        assert(ex[j] == items[q]);
        lemma_count_take_step(ex, v, j);
        let step: int = if items[q] == v {
            1
        } else {
            0
        };
        if r + 1 < g {
            assert(k == q * g + (r + 1)) by (nonlinear_arith)
                requires
                    k == j + 1,
                    j == g * q + r,
            ;
            lemma_fundamental_div_mod_converse(k, g, q, r + 1);
        } else {
            assert(k == (q + 1) * g + 0) by (nonlinear_arith)
                requires
                    k == j + 1,
                    j == g * q + r,
                    r + 1 == g,
            ;
            lemma_fundamental_div_mod_converse(k, g, q + 1, 0);
            lemma_count_take_step(items, v, q);
            let c = count_of(items.take(q), v) as int;
            assert(g * (c + step) == g * c + g * step) by (nonlinear_arith);
            assert(g * step == r * step + step) by (nonlinear_arith)
                requires
                    r + 1 == g,
            ;
        }
    }
}

/// The cycle value and counter (see `cycle_position`) for the file at
/// `index`, computed on the items without building the expanded cycle. The
/// counter never exceeds `index`.
pub fn cycle_position_of(items: &Vec<Vec<char>>, group_size: usize, index: usize) -> (r: (
    Vec<char>,
    usize,
))
    ensures
        (r.0@, r.1 as nat) == cycle_position(
            views(items@),
            if group_size == 0 {
                1nat
            } else {
                group_size as nat
            },
            index as nat,
        ),
        r.1 <= index,
{
    let ghost its = views(items@);
    let g: usize = if group_size == 0 {
        1
    } else {
        group_size
    };
    let m = items.len();
    let ghost ex = expanded(its, g as nat);
    assert(its.len() == m);
    if m == 0 {
        assert(ex.len() == 0) by (nonlinear_arith)
            requires
                ex.len() == its.len() * g,
                its.len() == 0,
        ;
        return (Vec::new(), index);
    }
    assert(ex.len() == m * g) by (nonlinear_arith)
        requires
            ex.len() == its.len() * g,
            its.len() == m,
    ;
    assert(m * g > 0) by (nonlinear_arith)
        requires
            m > 0,
            g > 0,
    ;
    let (pos, round): (usize, usize) = match m.checked_mul(g) {
        Some(l) => (index % l, index / l),
        None => {
            proof {
                lemma_small_mod(index as nat, (m * g) as nat);
                assert(index as int / (m * g) == 0) by (nonlinear_arith)
                    requires
                        0 <= index < m * g,
                ;
            }
            (index, 0)
        },
    };
    let ghost l = (m * g) as int;
    assert(0 < l) by (nonlinear_arith)
        requires
            m > 0,
            g > 0,
            l == m * g,
    ;
    assert(pos == index as int % l && round == index as int / l);
    proof {
        lemma_fundamental_div_mod(index as int, l);
    }
    assert(0 <= pos < l) by (nonlinear_arith)
        requires
            l > 0,
            pos == index as int % l,
    ;
    let j = pos / g;
    let rem = pos % g;
    proof {
        lemma_fundamental_div_mod(pos as int, g as int);
        assert(j < m) by (nonlinear_arith)
            requires
                pos == g * j + rem,
                0 <= rem,
                pos < m * g,
                g > 0,
        ;
    }
    let value = &items[j];
    assert(ex[pos as int] == its[j as int]);
    assert(value@ == its[j as int]);
    let mut before: usize = 0;
    let mut i: usize = 0;
    while i < j
        invariant
            j < m,
            m == items@.len(),
            its == views(items@),
            i <= j,
            value@ == its[j as int],
            before as nat == count_of(its.take(i as int), its[j as int]),
            before <= i,
        decreases j - i,
    {
        let same = chars_equal(items[i].as_slice(), value.as_slice());
        proof {
            assert(its[i as int] == items@[i as int]@);
            assert(its[j as int] == value@);
            lemma_count_take_step(its, its[j as int], i as int);
        }
        if same {
            before = before + 1;
        }
        i = i + 1;
    }
    proof {
        lemma_expanded_count(its, g as int, its[j as int], pos as int);
        lemma_count_take_step(ex, its[j as int], pos as int);
        lemma_fundamental_div_mod_converse(pos as int, g as int, j as int, rem as int);
        assert(g * before <= g * j) by (nonlinear_arith)
            requires
                before <= j,
                g > 0,
        ;
    }
    let occ_minus_one = g * before + rem;
    let counter = if round == 0 {
        occ_minus_one
    } else {
        let mut total: usize = 0;
        let mut k: usize = 0;
        while k < m
            invariant
                j < m,
                m == items@.len(),
                its == views(items@),
                k <= m,
                value@ == its[j as int],
                total as nat == count_of(its.take(k as int), its[j as int]),
                total <= k,
            decreases m - k,
        {
            let same = chars_equal(items[k].as_slice(), value.as_slice());
            proof {
                assert(its[k as int] == items@[k as int]@);
                assert(its[j as int] == value@);
                lemma_count_take_step(its, its[j as int], k as int);
            }
            if same {
                total = total + 1;
            }
            k = k + 1;
        }
        proof {
            assert(its.take(m as int) =~= its);
            assert(ex.take(l) =~= ex);
            lemma_expanded_count(its, g as int, its[j as int], l);
            lemma_fundamental_div_mod_converse(l, g as int, m as int, 0);
            assert(g * total <= g * m) by (nonlinear_arith)
                requires
                    total <= m,
                    g > 0,
            ;
            assert(round * (g * total) <= round * l) by (nonlinear_arith)
                requires
                    g * total <= l,
                    round >= 0,
            ;
            assert(round * l + pos == index) by (nonlinear_arith)
                requires
                    index == l * round + pos,
            ;
            assert(occ_minus_one <= pos);
            assert(round * (g * total) + occ_minus_one <= index);
        }
        round * (g * total) + occ_minus_one
    };
    proof {
        if round == 0 {
            let c = count_of(ex, its[j as int]);
            assert(round * c == 0) by (nonlinear_arith)
                requires
                    round == 0,
            ;
        }
    }
    let mut out: Vec<char> = Vec::new();
    crate::text::append_chars(&mut out, value.as_slice());
    assert(out@ =~= its[j as int]);
    (out, counter)
}


/// The parts that are not empty, in order.
pub open spec fn non_empty_parts(s: Seq<Seq<char>>) -> Seq<Seq<char>>
    decreases s.len(),
{
    if s.len() == 0 {
        Seq::empty()
    } else {
        let rest = non_empty_parts(s.drop_last());
        if s.last().len() > 0 {
            rest.push(s.last())
        } else {
            rest
        }
    }
}

/// The cycle items of a `cycle` setting: its comma-separated parts, trimmed,
/// without the empty ones.
pub open spec fn cycle_items(cycle: Seq<char>) -> Seq<Seq<char>> {
    non_empty_parts(split_on(cycle, seq![',']).map_values(|p: Seq<char>| trim(p)))
}

/// `n - 1`, or 0 for 0 (`usize::saturating_sub(1)`).
pub open spec fn one_less(n: usize) -> usize {
    if n == 0 {
        0
    } else {
        (n - 1) as usize
    }
}

/// The positions `i` with `lo <= i <= hi` and `i < total`, ascending.
pub open spec fn index_run(lo: usize, hi: usize, total: usize) -> Seq<usize> {
    let end: int = if hi < total {
        hi + 1
    } else {
        total as int
    };
    if lo <= hi && lo < end {
        Seq::new((end - lo) as nat, |k: int| (lo + k) as usize)
    } else {
        Seq::empty()
    }
}

/// The 0-based positions one trimmed, non-empty part of a keep setting
/// selects: `a-b` is the 1-based range from `a` (default the first) to `b`
/// (default the last); a single number selects one segment; positions past
/// `total` are dropped and anything unreadable selects nothing.
pub open spec fn keep_part(p: Seq<char>, total: usize) -> Seq<usize> {
    match first_occurrence(p, seq!['-']) {
        Some(k) => {
            let lo = match parse_usize(trim(p.take(k))) {
                Some(v) => one_less(v),
                None => 0,
            };
            let hi = match parse_usize(trim(p.skip(k + 1))) {
                Some(v) => one_less(v),
                None => one_less(total),
            };
            index_run(lo, hi, total)
        },
        None => match parse_usize(p) {
            Some(n) => if one_less(n) < total {
                seq![one_less(n)]
            } else {
                Seq::empty()
            },
            None => Seq::empty(),
        },
    }
}

/// The positions selected by the comma-separated parts, part after part.
pub open spec fn keep_parts(parts: Seq<Seq<char>>, total: usize) -> Seq<usize>
    decreases parts.len(),
{
    if parts.len() == 0 {
        Seq::empty()
    } else {
        let p = trim(parts.last());
        keep_parts(parts.drop_last(), total) + if p.len() == 0 {
            Seq::empty()
        } else {
            keep_part(p, total)
        }
    }
}

/// Every position out of `total`, in order.
pub open spec fn all_positions(total: usize) -> Seq<usize> {
    Seq::new(total as nat, |i: int| i as usize)
}

/// Whether a trimmed part of a keep setting can be read: it is a range (it
/// holds a `-`, each bound optional) or a number.
pub open spec fn readable_part(p: Seq<char>) -> bool {
    p.len() > 0 && (first_occurrence(p, seq!['-']) is Some || parse_usize(p) is Some)
}

/// Whether some part, trimmed, can be read.
pub open spec fn any_readable(parts: Seq<Seq<char>>) -> bool
    decreases parts.len(),
{
    parts.len() > 0 && (any_readable(parts.drop_last()) || readable_part(trim(parts.last())))
}

/// The 0-based segment positions a keep setting selects out of `total`. A
/// blank setting, and one of which no part can be read, keeps every
/// segment, in order; otherwise the parts select their positions in turn
/// (a reversed range, or positions past the end, select nothing).
pub open spec fn keep_indices(keep: Seq<char>, total: usize) -> Seq<usize> {
    let t = trim(keep);
    let parts = split_on(t, seq![',']);
    if t.len() == 0 || !any_readable(parts) {
        all_positions(total)
    } else {
        keep_parts(parts, total)
    }
}

/// Whether `c` occurs in `s`.
pub open spec fn has_char(s: Seq<char>, c: char) -> bool {
    exists|i: int| 0 <= i < s.len() && s[i] == c
}

/// The number of `'#'` characters `s` starts with.
pub open spec fn hash_run(s: Seq<char>) -> nat
    decreases s.len(),
{
    if s.len() > 0 && s[0] == '#' {
        1 + hash_run(s.drop_first())
    } else {
        0
    }
}

pub proof fn lemma_hash_run_bound(s: Seq<char>)
    ensures
        hash_run(s) <= s.len(),
        s.len() > 0 && s[0] == '#' ==> hash_run(s) >= 1,
    decreases s.len(),
{
    if s.len() > 0 && s[0] == '#' {
        lemma_hash_run_bound(s.drop_first());
    }
}

/// A suffix template filled in: each run of `#` becomes `counter + 1`
/// zero-padded to the run's length, each `@` becomes the cycle value, and
/// every other character stays.
pub open spec fn expand_template(s: Seq<char>, counter: nat, cycle_value: Seq<char>) -> Seq<char>
    decreases s.len(),
{
    if s.len() == 0 {
        Seq::empty()
    } else if s[0] == '#' {
        proof {
            lemma_hash_run_bound(s);
        }
        padded_number(counter + 1, hash_run(s)) + expand_template(
            s.skip(hash_run(s) as int),
            counter,
            cycle_value,
        )
    } else if s[0] == '@' {
        cycle_value + expand_template(s.drop_first(), counter, cycle_value)
    } else {
        seq![s[0]] + expand_template(s.drop_first(), counter, cycle_value)
    }
}

/// The separator a segments rule cuts at: `_` when none is given.
pub open spec fn segment_separator(separator: Seq<char>) -> Seq<char> {
    if separator.len() == 0 {
        seq!['_']
    } else {
        separator
    }
}

/// The group size in force: at least 1.
pub open spec fn group_of(group_size: usize) -> nat {
    if group_size == 0 {
        1
    } else {
        group_size as nat
    }
}

/// The counter a segments rule gives the file at `index`.
pub open spec fn segment_counter(cycle: Seq<char>, group_size: usize, index: usize) -> nat {
    cycle_position(cycle_items(cycle), group_of(group_size), index as nat).1
}

/// The new stem under a segments rule: the kept segments joined, then the
/// filled-in suffix template.
pub open spec fn segments_applied(
    stem: Seq<char>,
    separator: Seq<char>,
    keep: Seq<char>,
    join_with: Seq<char>,
    append: Seq<char>,
    cycle: Seq<char>,
    group_size: usize,
    index: usize,
) -> Seq<char> {
    let sep = segment_separator(separator);
    let segs = split_on(stem, sep);
    let idx = keep_indices(keep, segs.len() as usize);
    let kept = idx.map_values(|i: usize| segs[i as int]);
    let joiner = if join_with.len() == 0 {
        sep
    } else {
        join_with
    };
    let (value, counter) = cycle_position(cycle_items(cycle), group_of(group_size), index as nat);
    join(kept, joiner) + expand_template(append, counter, value)
}

/// The cycle items (see `cycle_items`) of a cycle setting.
pub fn cycle_items_of(cycle: &[char]) -> (r: Vec<Vec<char>>)
    ensures
        views(r@) == cycle_items(cycle@),
{
    let comma = vec![','];
    assert(comma@ =~= seq![',']);
    let parts = split_chars(cycle, comma.as_slice());
    let ghost trimmed = views(parts@).map_values(|p: Seq<char>| trim(p));
    let mut r: Vec<Vec<char>> = Vec::new();
    let mut i: usize = 0;
    while i < parts.len()
        invariant
            i <= parts@.len(),
            trimmed == views(parts@).map_values(|p: Seq<char>| trim(p)),
            views(r@) == non_empty_parts(trimmed.take(i as int)),
        decreases parts@.len() - i,
    {
        let t = trim_chars(parts[i].as_slice());
        proof {
            assert(trimmed[i as int] == t@);
            assert(trimmed.take(i + 1).drop_last() =~= trimmed.take(i as int));
            assert(trimmed.take(i + 1).last() == t@);
        }
        if t.len() > 0 {
            proof {
                assert(views(r@.push(t)) =~= views(r@).push(t@));
            }
            r.push(t);
        }
        i = i + 1;
    }
    assert(trimmed.take(parts@.len() as int) =~= trimmed);
    r
}

/// Appends the positions `lo..=hi` that are below `total`.
fn push_index_run(out: &mut Vec<usize>, lo: usize, hi: usize, total: usize)
    ensures
        final(out)@ == old(out)@ + index_run(lo, hi, total),
{
    let ghost end: int = if hi < total {
        hi + 1
    } else {
        total as int
    };
    if lo > hi {
        assert(index_run(lo, hi, total) =~= Seq::<usize>::empty());
        assert(old(out)@ + Seq::<usize>::empty() =~= old(out)@);
        return;
    }
    let mut i = lo;
    while i <= hi && i < total
        invariant
            lo <= i,
            lo <= hi,
            i <= end || i == lo,
            end == (if hi < total {
                hi + 1
            } else {
                total as int
            }),
            out@ == old(out)@ + Seq::new((i - lo) as nat, |k: int| (lo + k) as usize),
        decreases total - i,
    {
        out.push(i);
        assert(out@ =~= old(out)@ + Seq::new((i + 1 - lo) as nat, |k: int| (lo + k) as usize));
        i = i + 1;
    }
    proof {
        if lo < end {
            assert(i == end);
            assert(out@ =~= old(out)@ + index_run(lo, hi, total));
        } else {
            assert(i == lo);
            assert(out@ =~= old(out)@ + index_run(lo, hi, total));
        }
    }
}

/// `saturating_sub(1)`.
fn one_less_exec(n: usize) -> (r: usize)
    ensures
        r == one_less(n),
{
    if n == 0 {
        0
    } else {
        n - 1
    }
}

/// The positions one trimmed, non-empty part of a keep setting selects.
fn keep_part_indices(p: &[char], total: usize) -> (r: Vec<usize>)
    ensures
        r@ == keep_part(p@, total),
{
    let mut out: Vec<usize> = Vec::new();
    let dash = vec!['-'];
    assert(dash@ =~= seq!['-']);
    match find_chars(p, dash.as_slice()) {
        Some(k) => {
            proof {
                crate::text::lemma_find_from(p@, seq!['-'], 0);
                assert(first_occurrence(p@, seq!['-']) == Some(k as int));
                assert(occurs_at(p@, seq!['-'], k as int));
                assert(seq!['-'].len() == 1);
                assert(k + 1 <= p@.len());
            }
            let n = p.len();
            assert(k + 1 <= n);
            let a = copy_range(p, 0, k);
            let b = copy_range(p, k + 1, n);
            assert(a@ =~= p@.take(k as int));
            assert(b@ =~= p@.skip(k + 1));
            let ta = trim_chars(a.as_slice());
            let tb = trim_chars(b.as_slice());
            let lo = match parse_usize_chars(ta.as_slice()) {
                Some(v) => one_less_exec(v),
                None => 0,
            };
            let hi = match parse_usize_chars(tb.as_slice()) {
                Some(v) => one_less_exec(v),
                None => one_less_exec(total),
            };
            push_index_run(&mut out, lo, hi, total);
            assert(out@ =~= keep_part(p@, total));
        },
        None => {
            match parse_usize_chars(p) {
                Some(n) => {
                    let i = one_less_exec(n);
                    if i < total {
                        out.push(i);
                        assert(out@ =~= seq![i]);
                    }
                },
                None => {},
            }
        },
    }
    out
}

fn all_positions_of(total: usize) -> (r: Vec<usize>)
    ensures
        r@ == all_positions(total),
{
    let mut out: Vec<usize> = Vec::new();
    let mut i: usize = 0;
    while i < total
        invariant
            i <= total,
            out@ == Seq::new(i as nat, |k: int| k as usize),
        decreases total - i,
    {
        out.push(i);
        assert(out@ =~= Seq::new((i + 1) as nat, |k: int| k as usize));
        i = i + 1;
    }
    out
}

/// The 0-based segment positions selected by a keep setting such as
/// `"1-3"`, `"1,3,5"`, `"2-"` or `"1-2,4"` (1-based, inclusive) out of
/// `total` segments. A blank setting, or one of which no part can be read,
/// selects every segment. Every returned position is below `total`.
pub fn parse_keep_range(keep: &str, total: usize) -> (r: Vec<usize>)
    ensures
        r@ == keep_indices(keep@, total),
        forall|i: int| 0 <= i < r@.len() ==> r@[i] < total,
{
    let v = chars_of(keep);
    let t = trim_chars(v.as_slice());
    if t.len() == 0 {
        return all_positions_of(total);
    }
    let mut out: Vec<usize> = Vec::new();
    let comma = vec![','];
    assert(comma@ =~= seq![',']);
    let parts = split_chars(t.as_slice(), comma.as_slice());
    let dash = vec!['-'];
    assert(dash@ =~= seq!['-']);
    let mut readable = false;
    let mut j: usize = 0;
    while j < parts.len()
        invariant
            j <= parts@.len(),
            dash@ == seq!['-'],
            out@ == keep_parts(views(parts@).take(j as int), total),
            readable == any_readable(views(parts@).take(j as int)),
            forall|i: int| 0 <= i < out@.len() ==> out@[i] < total,
        decreases parts@.len() - j,
    {
        let p = trim_chars(parts[j].as_slice());
        proof {
            let a = views(parts@);
            assert(a.take(j + 1).drop_last() =~= a.take(j as int));
            assert(a.take(j + 1).last() == parts@[j as int]@);
        }
        if p.len() > 0 && (find_chars(p.as_slice(), dash.as_slice()).is_some()
            || parse_usize_chars(p.as_slice()).is_some()) {
            readable = true;
        }
        if p.len() > 0 {
            let sel = keep_part_indices(p.as_slice(), total);
            proof {
                lemma_keep_part_bound(p@, total);
            }
            let ghost before = out@;
            let mut k: usize = 0;
            while k < sel.len()
                invariant
                    k <= sel@.len(),
                    out@ == before + sel@.take(k as int),
                    forall|i: int| 0 <= i < sel@.len() ==> sel@[i] < total,
                    forall|i: int| 0 <= i < before.len() ==> before[i] < total,
                decreases sel@.len() - k,
            {
                out.push(sel[k]);
                assert(out@ =~= before + sel@.take(k + 1));
                k = k + 1;
            }
            assert(sel@.take(sel@.len() as int) =~= sel@);
        } else {
            assert(out@ + Seq::<usize>::empty() =~= out@);
        }
        j = j + 1;
    }
    assert(views(parts@).take(parts@.len() as int) =~= views(parts@));
    if !readable {
        return all_positions_of(total);
    }
    out
}

/// Every position a keep part selects is below `total`.
proof fn lemma_keep_part_bound(p: Seq<char>, total: usize)
    ensures
        forall|i: int|
            0 <= i < keep_part(p, total).len() ==> #[trigger] keep_part(p, total)[i] < total,
{
}


proof fn lemma_hash_run_exact(t: Seq<char>, w: int)
    requires
        0 <= w <= t.len(),
        forall|k: int| 0 <= k < w ==> #[trigger] t[k] == '#',
        w == t.len() || t[w] != '#',
    ensures
        hash_run(t) == w,
    decreases w,
{
    if w > 0 {
        assert forall|k: int| 0 <= k < w - 1 implies #[trigger] t.drop_first()[k] == '#' by {
            assert(t.drop_first()[k] == t[k + 1]);
        }
        lemma_hash_run_exact(t.drop_first(), w - 1);
    }
}

/// Fills in a suffix template (see `expand_template`): runs of `#` become
/// `counter + 1` zero-padded to the run's length, `@` becomes `cycle_value`.
pub fn expand_placeholders(s: &str, counter: usize, cycle_value: &str) -> (r: String)
    requires
        has_char(s@, '#') ==> counter < usize::MAX,
    ensures
        r@ == expand_template(s@, counter as nat, cycle_value@),
{
    let v = chars_of(s);
    let cv = chars_of(cycle_value);
    let n = v.len();
    let mut out: Vec<char> = Vec::new();
    let mut i: usize = 0;
    assert(v@.skip(0) =~= v@);
    while i < n
        invariant
            n == v@.len(),
            v@ == s@,
            cv@ == cycle_value@,
            i <= n,
            has_char(s@, '#') ==> counter < usize::MAX,
            expand_template(v@, counter as nat, cv@) == out@ + expand_template(
                v@.skip(i as int),
                counter as nat,
                cv@,
            ),
        decreases n - i,
    {
        let ghost t = v@.skip(i as int);
        assert(t[0] == v@[i as int]);
        let c = v[i];
        if c == '#' {
            let mut j = i;
            while j < n && v[j] == '#'
                invariant
                    n == v@.len(),
                    i <= j <= n,
                    forall|k: int| i <= k < j ==> #[trigger] v@[k] == '#',
                decreases n - j,
            {
                j = j + 1;
            }
            proof {
                assert(v@[i as int] == '#');
                assert(has_char(s@, '#'));
                assert forall|k: int| 0 <= k < j - i implies #[trigger] t[k] == '#' by {
                    assert(t[k] == v@[k + i]);
                }
                if j < n {
                    assert(t[j - i] == v@[j as int]);
                }
                lemma_hash_run_exact(t, j - i);
                assert(t.skip(j - i) =~= v@.skip(j as int));
            }
            let num = pad_number(counter + 1, j - i);
            append_chars(&mut out, num.as_slice());
            i = j;
        } else if c == '@' {
            assert(t.drop_first() =~= v@.skip(i + 1));
            append_chars(&mut out, cv.as_slice());
            i = i + 1;
        } else {
            assert(t.drop_first() =~= v@.skip(i + 1));
            out.push(c);
            assert(out@ =~= (out@.drop_last()) + seq![c]);
            i = i + 1;
        }
    }
    assert(v@.skip(n as int) =~= Seq::<char>::empty());
    assert(out@ + Seq::<char>::empty() =~= out@);
    string_of(out.as_slice())
}


/// The segments rule applied to one stem (see `segments_applied`): cut at
/// `separator` (default `_`), keep the segments `keep` selects, join them
/// with `join_with` (default the separator), then append the filled-in
/// `append` template for the file at `index`.
pub fn apply_segments(
    stem: &str,
    separator: &str,
    keep: &str,
    join_with: &str,
    append: &str,
    cycle: &str,
    group_size: usize,
    index: usize,
) -> (r: String)
    requires
        has_char(append@, '#') ==> segment_counter(cycle@, group_size, index) < usize::MAX,
    ensures
        r@ == segments_applied(
            stem@,
            separator@,
            keep@,
            join_with@,
            append@,
            cycle@,
            group_size,
            index,
        ),
{
    let stem_v = chars_of(stem);
    let sep_given = chars_of(separator);
    let sep: Vec<char> = if sep_given.len() == 0 {
        let u = vec!['_'];
        assert(u@ =~= seq!['_']);
        u
    } else {
        sep_given
    };
    assert(sep@ == segment_separator(separator@));
    let segments = split_chars(stem_v.as_slice(), sep.as_slice());
    let ghost segs = views(segments@);
    let n = segments.len();
    let indices = parse_keep_range(keep, n);
    let mut kept: Vec<Vec<char>> = Vec::new();
    let mut k: usize = 0;
    while k < indices.len()
        invariant
            k <= indices@.len(),
            n == segments@.len(),
            segs == views(segments@),
            forall|i: int| 0 <= i < indices@.len() ==> indices@[i] < n,
            views(kept@) == indices@.take(k as int).map_values(|i: usize| segs[i as int]),
        decreases indices@.len() - k,
    {
        let idx = indices[k];
        let piece = copy_range(segments[idx].as_slice(), 0, segments[idx].len());
        proof {
            assert(piece@ =~= segs[idx as int]);
            assert(indices@.take(k + 1).map_values(|i: usize| segs[i as int]) =~= indices@.take(
                k as int,
            ).map_values(|i: usize| segs[i as int]).push(segs[idx as int]));
            assert(views(kept@.push(piece)) =~= views(kept@).push(piece@));
        }
        kept.push(piece);
        k = k + 1;
    }
    assert(indices@.take(indices@.len() as int) =~= indices@);
    let join_given = chars_of(join_with);
    let joiner: Vec<char> = if join_given.len() == 0 {
        copy_range(sep.as_slice(), 0, sep.len())
    } else {
        join_given
    };
    assert(joiner@ =~= (if join_with@.len() == 0 {
        sep@
    } else {
        join_with@
    }));
    let cycle_v = chars_of(cycle);
    let items = cycle_items_of(cycle_v.as_slice());
    let (value, counter) = cycle_position_of(&items, group_size, index);
    let value_s = string_of(value.as_slice());
    let mut result = join_chars(&kept, joiner.as_slice());
    let suffix = expand_placeholders(append, counter, value_s.as_str());
    let suffix_v = chars_of(suffix.as_str());
    append_chars(&mut result, suffix_v.as_slice());
    string_of(result.as_slice())
}


/// The counter a segments rule gives the file at `index` is at most `index`.
pub proof fn lemma_segment_counter_bound(cycle: Seq<char>, group_size: usize, index: usize)
    ensures
        segment_counter(cycle, group_size, index) <= index,
{
    let items = cycle_items(cycle);
    let g = group_of(group_size);
    let ex = expanded(items, g);
    if ex.len() > 0 {
        let l = ex.len() as int;
        let pos = index as int % l;
        let round = index as int / l;
        lemma_fundamental_div_mod(index as int, l);
        assert(0 <= pos < l) by (nonlinear_arith)
            requires
                l > 0,
                pos == index as int % l,
        ;
        assert(round >= 0) by (nonlinear_arith)
            requires
                l > 0,
                index >= 0,
                round == index as int / l,
        ;
        let value = ex[pos];
        lemma_count_le_len(ex, value);
        lemma_count_le_len(ex.take(pos + 1), value);
        lemma_count_take_step(ex, value, pos);
        let c = count_of(ex, value) as int;
        assert(round * c <= round * l) by (nonlinear_arith)
            requires
                c <= l,
                round >= 0,
        ;
    }
}


/// The cycle repeats: the file one whole expanded cycle later gets the same
/// cycle value, and a counter larger by the number of times that value
/// occurs in one cycle.
pub proof fn lemma_cycle_repeats(items: Seq<Seq<char>>, g: nat, index: nat)
    requires
        g > 0,
        items.len() > 0,
    ensures
        cycle_position(items, g, index + items.len() * g).0 == cycle_position(items, g, index).0,
        cycle_position(items, g, index + items.len() * g).1 == cycle_position(items, g, index).1
            + count_of(expanded(items, g), cycle_position(items, g, index).0),
{
    let ex = expanded(items, g);
    let l = ex.len() as int;
    assert(l == items.len() * g);
    assert(l >= 1) by (nonlinear_arith)
        requires
            l == items.len() * g,
            items.len() > 0,
            g > 0,
    ;
    let i = index as int;
    let pos = i % l;
    let round = i / l;
    lemma_fundamental_div_mod(i, l);
    assert(0 <= pos < l) by (nonlinear_arith)
        requires
            pos == i % l,
            l >= 1,
    ;
    assert(round >= 0) by (nonlinear_arith)
        requires
            round == i / l,
            i >= 0,
            l >= 1,
    ;
    assert(i + l == (round + 1) * l + pos) by (nonlinear_arith)
        requires
            i == l * round + pos,
    ;
    lemma_fundamental_div_mod_converse(i + l, l, round + 1, pos);
    let v = ex[pos];
    lemma_count_take_step(ex, v, pos);
    let c = count_of(ex, v) as int;
    let x = count_of(ex.take(pos + 1), v) as int;
    assert(x >= 1);
    assert(round * c >= 0) by (nonlinear_arith)
        requires
            round >= 0,
            c >= 0,
    ;
    assert((round + 1) * c + x - 1 == round * c + x - 1 + c) by (nonlinear_arith);
}

/// A blank keep setting keeps every segment; joined with the separator and
/// followed by an empty suffix template, they give the stem back.
pub proof fn lemma_keep_all_segments(
    stem: Seq<char>,
    separator: Seq<char>,
    keep: Seq<char>,
    cycle: Seq<char>,
    group_size: usize,
    index: usize,
)
    requires
        trim(keep).len() == 0,
        split_on(stem, segment_separator(separator)).len() <= usize::MAX,
    ensures
        segments_applied(
            stem,
            separator,
            keep,
            Seq::empty(),
            Seq::empty(),
            cycle,
            group_size,
            index,
        ) == stem,
{
    let sep = segment_separator(separator);
    crate::text::lemma_split_on_join(stem, sep);
    let segs = split_on(stem, sep);
    let idx = keep_indices(keep, segs.len() as usize);
    assert(idx.len() == segs.len());
    assert(idx.map_values(|i: usize| segs[i as int]) =~= segs);
    let (value, counter) = cycle_position(cycle_items(cycle), group_of(group_size), index as nat);
    assert(expand_template(Seq::empty(), counter, value) =~= Seq::<char>::empty());
    assert(join(segs, sep) + Seq::<char>::empty() =~= join(segs, sep));
}

/// A suffix template without `#` and `@` is appended as it is.
pub proof fn lemma_plain_template(s: Seq<char>, counter: nat, cycle_value: Seq<char>)
    requires
        !has_char(s, '#'),
        !has_char(s, '@'),
    ensures
        expand_template(s, counter, cycle_value) == s,
    decreases s.len(),
{
    if s.len() > 0 {
        assert(s[0] != '#');
        assert(s[0] != '@');
        let rest = s.drop_first();
        if has_char(rest, '#') {
            let i = choose|i: int| 0 <= i < rest.len() && rest[i] == '#';
            assert(s[i + 1] == '#');
        }
        if has_char(rest, '@') {
            let i = choose|i: int| 0 <= i < rest.len() && rest[i] == '@';
            assert(s[i + 1] == '@');
        }
        lemma_plain_template(rest, counter, cycle_value);
        assert(seq![s[0]] + rest =~= s);
    }
}


proof fn lemma_keep_parts_bound(parts: Seq<Seq<char>>, total: usize)
    ensures
        forall|i: int|
            0 <= i < keep_parts(parts, total).len() ==> #[trigger] keep_parts(parts, total)[i] < total,
    decreases parts.len(),
{
    if parts.len() > 0 {
        lemma_keep_parts_bound(parts.drop_last(), total);
        lemma_keep_part_bound(trim(parts.last()), total);
        let a = keep_parts(parts.drop_last(), total);
        let p = trim(parts.last());
        let b = if p.len() == 0 {
            Seq::<usize>::empty()
        } else {
            keep_part(p, total)
        };
        assert forall|i: int| 0 <= i < (a + b).len() implies #[trigger] (a + b)[i] < total by {
            if i >= a.len() {
                assert((a + b)[i] == b[i - a.len()]);
            }
        }
    }
}

/// A keep setting selects only positions that exist; a blank one, and one
/// of which no part can be read, selects every position in order.
pub proof fn lemma_keep_selects_existing_positions(keep: Seq<char>, total: usize)
    ensures
        forall|i: int|
            0 <= i < keep_indices(keep, total).len() ==> #[trigger] keep_indices(keep, total)[i]
                < total,
        trim(keep).len() == 0 || !any_readable(split_on(trim(keep), seq![','])) ==> keep_indices(
            keep,
            total,
        ) == all_positions(total),
{
    lemma_keep_parts_bound(split_on(trim(keep), seq![',']), total);
}


} // verus!
