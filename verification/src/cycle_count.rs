//! The counter of the segments rule counted file by file: the file at a
//! position gets its cycle value's number of occurrences so far.
use vstd::prelude::*;
use vstd::arithmetic::div_mod::{
    lemma_fundamental_div_mod, lemma_fundamental_div_mod_converse, lemma_small_mod,
};
use crate::segments::{
    count_of, cycle_items, cycle_position, expand_template, expanded, group_of, keep_indices,
    lemma_count_take_step, segment_separator, segments_applied,
};
use crate::text::{join, split_on};

verus! {

/// The expanded cycle repeated without end: the value of the file at
/// position `j`.
pub open spec fn value_at(ex: Seq<Seq<char>>, j: int) -> Seq<char> {
    ex[j % (ex.len() as int)]
}

/// How many of the files at positions `0..n` get the value `v`.
pub open spec fn occurrences_before(ex: Seq<Seq<char>>, v: Seq<char>, n: nat) -> nat {
    count_of(Seq::new(n, |j: int| value_at(ex, j)), v)
}

/// The cycle value and counter of the file at `index`, counted over the
/// files: no value and the index itself without cycle items; otherwise the
/// value at `index` in the endlessly repeated expanded cycle, and how many
/// files up to and including this one got that value, less one.
pub open spec fn value_and_count(ex: Seq<Seq<char>>, index: nat) -> (Seq<char>, nat) {
    if ex.len() == 0 {
        (Seq::empty(), index)
    } else {
        let v = value_at(ex, index as int);
        (v, (occurrences_before(ex, v, index + 1) - 1) as nat)
    }
}

proof fn lemma_occurrences_by_rounds(ex: Seq<Seq<char>>, v: Seq<char>, n: nat)
    requires
        ex.len() > 0,
    ensures
        occurrences_before(ex, v, n) == (n as int / (ex.len() as int)) * count_of(ex, v)
            + count_of(ex.take(n as int % (ex.len() as int)), v),
    decreases n,
{
    let l = ex.len() as int;
    if n == 0 {
        assert(Seq::new(0, |j: int| value_at(ex, j)) =~= Seq::<Seq<char>>::empty());
        assert(ex.take(0) =~= Seq::<Seq<char>>::empty());
        lemma_small_mod(0, l as nat);
        assert(0int / l == 0) by (nonlinear_arith)
            requires
                l > 0,
        ;
    } else {
        let m = (n - 1) as nat;
        lemma_occurrences_by_rounds(ex, v, m);
        let sn = Seq::new(n, |j: int| value_at(ex, j));
        let sm = Seq::new(m, |j: int| value_at(ex, j));
        assert(sn.drop_last() =~= sm);
        assert(sn.last() == value_at(ex, m as int));
        let q = m as int / l;
        let r = m as int % l;
        lemma_fundamental_div_mod(m as int, l);
        assert(0 <= r < l) by (nonlinear_arith)
            requires
                r == m as int % l,
                l > 0,
        ;
        assert(value_at(ex, m as int) == ex[r]);
        lemma_count_take_step(ex, v, r);
        let c = count_of(ex, v) as int;
        if r + 1 < l {
            assert(n == q * l + (r + 1)) by (nonlinear_arith)
                requires
                    m == l * q + r,
                    n == m + 1,
            ;
            lemma_fundamental_div_mod_converse(n as int, l, q, r + 1);
        } else {
            assert(n == (q + 1) * l + 0) by (nonlinear_arith)
                requires
                    m == l * q + r,
                    n == m + 1,
                    r + 1 == l,
            ;
            lemma_fundamental_div_mod_converse(n as int, l, q + 1, 0);
            assert(ex.take(r + 1) =~= ex);
            assert(ex.take(0) =~= Seq::<Seq<char>>::empty());
            assert((q + 1) * c == q * c + c) by (nonlinear_arith);
        }
    }
}

/// The counter a segments rule gives a file counts the files so far that
/// got the same cycle value: `cycle_position` (by whole cycles and the
/// position in the last one) is `value_and_count` (file by file). So the
/// new stem is the kept segments followed by the template filled in with
/// the value of the file and its 1-based occurrence count so far.
pub proof fn lemma_segment_counter_counts_occurrences(
    stem: Seq<char>,
    separator: Seq<char>,
    keep: Seq<char>,
    join_with: Seq<char>,
    append: Seq<char>,
    cycle: Seq<char>,
    group_size: usize,
    index: usize,
)
    ensures
        cycle_position(cycle_items(cycle), group_of(group_size), index as nat) == value_and_count(
            expanded(cycle_items(cycle), group_of(group_size)),
            index as nat,
        ),
        segments_applied(stem, separator, keep, join_with, append, cycle, group_size, index)
            == segments_applied(
            stem,
            separator,
            keep,
            join_with,
            Seq::empty(),
            cycle,
            group_size,
            index,
        ) + expand_template(
            append,
            value_and_count(expanded(cycle_items(cycle), group_of(group_size)), index as nat).1,
            value_and_count(expanded(cycle_items(cycle), group_of(group_size)), index as nat).0,
        ),
{
    let ex = expanded(cycle_items(cycle), group_of(group_size));
    if ex.len() > 0 {
        let l = ex.len() as int;
        let i = index as int;
        let pos = i % l;
        let round = i / l;
        lemma_fundamental_div_mod(i, l);
        assert(0 <= pos < l) by (nonlinear_arith)
            requires
                pos == i % l,
                l > 0,
        ;
        let v = ex[pos];
        lemma_occurrences_by_rounds(ex, v, (index + 1) as nat);
        lemma_count_take_step(ex, v, pos);
        let c = count_of(ex, v) as int;
        if pos + 1 < l {
            assert(i + 1 == round * l + (pos + 1)) by (nonlinear_arith)
                requires
                    i == l * round + pos,
            ;
            lemma_fundamental_div_mod_converse(i + 1, l, round, pos + 1);
        } else {
            assert(i + 1 == (round + 1) * l + 0) by (nonlinear_arith)
                requires
                    i == l * round + pos,
                    pos + 1 == l,
            ;
            lemma_fundamental_div_mod_converse(i + 1, l, round + 1, 0);
            assert(ex.take(pos + 1) =~= ex);
            assert(ex.take(0) =~= Seq::<Seq<char>>::empty());
            assert((round + 1) * c == round * c + c) by (nonlinear_arith);
        }
    }
    let (value, counter) = cycle_position(cycle_items(cycle), group_of(group_size), index as nat);
    assert(expand_template(Seq::empty(), counter, value) =~= Seq::<char>::empty());
    let sep = segment_separator(separator);
    let segs = split_on(stem, sep);
    let idx = keep_indices(keep, segs.len() as usize);
    let kept = idx.map_values(|k: usize| segs[k as int]);
    let joiner = if join_with.len() == 0 {
        sep
    } else {
        join_with
    };
    assert(join(kept, joiner) + Seq::<char>::empty() =~= join(kept, joiner));
}


} // verus!
