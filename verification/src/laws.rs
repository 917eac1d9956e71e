//! The engine's guarantees, stated and proved over the whole data path:
//! from raw lines through the window filter and the frequency table to the
//! distinct count and the top-N ranking.

use crate::freq::{
    count_of, has_key, key_index, lemma_count_of_pos, lemma_key_index, lemma_table_of, table_of,
};
use crate::rank::{lemma_rank_total_ordering, min_len, rank_leq, rank_order, ranked};
use crate::record::{lemma_parsed_lines_len, line_valid, parsed_lines};
use crate::window::{admitted, lemma_windowed_len, windowed, Window};
use vstd::prelude::*;
use vstd::relations::sorted_by;

verus! {

/// The URLs that occur among a record sequence.
pub open spec fn url_set(recs: Seq<(u64, Seq<char>)>) -> Set<Seq<char>> {
    Set::new(|u: Seq<char>| exists|i: int| 0 <= i < recs.len() && (#[trigger] recs[i]).1 == u)
}

/// What a `distinct` run computes: the number of rows of the frequency
/// table built from the lines the window admits.
pub open spec fn distinct_result(lines: Seq<Seq<char>>, w: Window) -> int {
    table_of(windowed(parsed_lines(lines), w)).len() as int
}

/// What a `top` run computes: the first `n` rows of that table in ranking
/// order, or all of them when fewer than `n` exist.
pub open spec fn top_result(lines: Seq<Seq<char>>, w: Window, n: int) -> Seq<(Seq<char>, u64)> {
    let t = table_of(windowed(parsed_lines(lines), w));
    ranked(t).take(min_len(n, t.len() as int))
}

/// The distinct count equals the number of unique URLs among the records
/// whose timestamps the window admits; records of malformed lines never
/// contribute, since `parsed_lines` drops them.
pub proof fn lemma_distinct_counts_unique_urls(lines: Seq<Seq<char>>, w: Window)
    requires
        lines.len() <= u64::MAX,
    ensures
        distinct_result(lines, w) == url_set(windowed(parsed_lines(lines), w)).len(),
{
    let recs = windowed(parsed_lines(lines), w);
    lemma_parsed_lines_len(lines);
    lemma_windowed_len(parsed_lines(lines), w);
    lemma_table_of(recs);
    let t = table_of(recs);
    let keys = t.map_values(|row: (Seq<char>, u64)| row.0);
    assert(forall|i: int| 0 <= i < t.len() ==> keys[i] == (#[trigger] t[i]).0);
    assert(keys.no_duplicates());
    keys.unique_seq_to_set();
    assert forall|u: Seq<char>| #[trigger] keys.to_set().contains(u) implies url_set(
        recs,
    ).contains(u) by {
        let i = choose|i: int| 0 <= i < keys.len() && #[trigger] keys[i] == u;
        assert(t[i].0 == u);
        assert(has_key(t, u)) by {
            lemma_key_index(t, u);
        }
        assert(count_of(recs, u) > 0);
        lemma_count_of_pos(recs, u);
    }
    assert forall|u: Seq<char>| #[trigger] url_set(recs).contains(u) implies keys.to_set().contains(
        u,
    ) by {
        lemma_count_of_pos(recs, u);
        assert(count_of(recs, u) > 0);
        assert(has_key(t, u));
        lemma_key_index(t, u);
        let i = key_index(t, u);
        assert(keys[i] == u);
        assert(keys.contains(u));
    }
    assert(keys.to_set() =~= url_set(recs));
    assert(keys.len() == t.len());
}

/// Shape of the top-N result over a table with pairwise distinct URLs: its
/// length is the smaller of `n` and the table size, it is strictly
/// descending in the ranking order (count descending, ties broken by
/// reverse lexicographic URL order), and every row of it is a row of the
/// table.
pub proof fn lemma_top_shape(t: Seq<(Seq<char>, u64)>, n: int)
    requires
        n >= 0,
        forall|i: int, j: int| 0 <= i < j < t.len() ==> (#[trigger] t[i]).0 != (#[trigger] t[j]).0,
    ensures
        ({
            let top = ranked(t).take(min_len(n, t.len() as int));
            &&& top.len() == min_len(n, t.len() as int)
            &&& forall|i: int, j: int|
                0 <= i < j < top.len() ==> rank_leq(#[trigger] top[i], #[trigger] top[j]) && top[i]
                    != top[j]
            &&& forall|i: int| 0 <= i < top.len() ==> t.contains(#[trigger] top[i])
        }),
{
    broadcast use vstd::seq_lib::group_to_multiset_ensures;

    lemma_rank_total_ordering();
    t.lemma_sort_by_ensures(rank_order());
    let s = ranked(t);
    assert(t.to_multiset().len() == t.len());
    assert(s.to_multiset().len() == s.len());
    assert(t.to_multiset() == s.to_multiset());
    assert(s.len() == t.len());
    assert(t.no_duplicates());
    t.lemma_multiset_has_no_duplicates();
    s.lemma_multiset_has_no_duplicates_conv();
    let top = s.take(min_len(n, t.len() as int));
    assert forall|i: int, j: int| 0 <= i < j < top.len() implies rank_leq(
        #[trigger] top[i],
        #[trigger] top[j],
    ) && top[i] != top[j] by {
        let r = rank_order();
        assert(sorted_by(s, r));
        assert(r(s[i], s[j]));
        assert(s.no_duplicates());
    }
    assert forall|i: int| 0 <= i < top.len() implies t.contains(#[trigger] top[i]) by {
        assert(s.contains(s[i]));
        assert(s.to_multiset().count(s[i]) > 0);
        assert(t.to_multiset().count(s[i]) > 0);
    }
}

/// Shape of a whole `top` run, for any input and any `n >= 0`: the result
/// has as many rows as `n` or the distinct count, whichever is smaller; it
/// descends strictly in the ranking order; and each of its rows is a row
/// of the full frequency table.
pub proof fn lemma_top_run_shape(lines: Seq<Seq<char>>, w: Window, n: int)
    requires
        n >= 0,
        lines.len() <= u64::MAX,
    ensures
        ({
            let t = table_of(windowed(parsed_lines(lines), w));
            let top = top_result(lines, w, n);
            &&& top.len() == min_len(n, distinct_result(lines, w))
            &&& forall|i: int, j: int|
                0 <= i < j < top.len() ==> rank_leq(#[trigger] top[i], #[trigger] top[j]) && top[i]
                    != top[j]
            &&& forall|i: int| 0 <= i < top.len() ==> t.contains(#[trigger] top[i])
        }),
{
    let recs = windowed(parsed_lines(lines), w);
    lemma_parsed_lines_len(lines);
    lemma_windowed_len(parsed_lines(lines), w);
    lemma_table_of(recs);
    lemma_top_shape(table_of(recs), n);
}

/// Determinism of the engine: the results are functions of the lines, the
/// window and `n` alone, so two runs over the same unmodified input agree.
/// `count_entries`, `compute_distinct` and `compute_top` pin their results
/// to exactly these spec functions, and no other state exists.
pub proof fn lemma_runs_agree(
    lines: Seq<Seq<char>>,
    w: Window,
    n: int,
    top1: Seq<(Seq<char>, u64)>,
    top2: Seq<(Seq<char>, u64)>,
    d1: int,
    d2: int,
)
    requires
        top1 == top_result(lines, w, n),
        top2 == top_result(lines, w, n),
        d1 == distinct_result(lines, w),
        d2 == distinct_result(lines, w),
    ensures
        top1 == top2,
        d1 == d2,
{
}

/// A malformed line contributes nothing: appending one to the input
/// changes neither the distinct count nor the top-N result.
pub proof fn lemma_malformed_line_ignored(lines: Seq<Seq<char>>, bad: Seq<char>, w: Window, n: int)
    requires
        !line_valid(bad),
    ensures
        distinct_result(lines.push(bad), w) == distinct_result(lines, w),
        top_result(lines.push(bad), w, n) == top_result(lines, w, n),
{
    assert(lines.push(bad).drop_last() =~= lines);
    assert(lines.push(bad).last() == bad);
    assert(parsed_lines(lines.push(bad)) == parsed_lines(lines));
}

/// The window's bounds are inclusive: a timestamp exactly at `from` or at
/// `to` is admitted, and one unit outside either bound is not.
pub proof fn lemma_inclusive_boundaries(f: u64, t: u64)
    ensures
        admitted((Window { from: Some(f), to: None }), f),
        f > 0 ==> !admitted((Window { from: Some(f), to: None }), (f - 1) as u64),
        admitted((Window { from: None, to: Some(t) }), t),
        t < u64::MAX ==> !admitted((Window { from: None, to: Some(t) }), (t + 1) as u64),
        f <= t ==> admitted((Window { from: Some(f), to: Some(t) }), f) && admitted(
            (Window { from: Some(f), to: Some(t) }),
            t,
        ),
{
}

/// Empty input: with no valid records the distinct count is 0 and the
/// top-N result is empty, whatever the window and `n`.
pub proof fn lemma_empty_input(w: Window, n: int)
    requires
        n >= 0,
    ensures
        distinct_result(Seq::empty(), w) == 0,
        top_result(Seq::empty(), w, n) == Seq::<(Seq<char>, u64)>::empty(),
{
    broadcast use vstd::seq_lib::group_to_multiset_ensures;

    let t = table_of(windowed(parsed_lines(Seq::empty()), w));
    assert(t.len() == 0);
    lemma_rank_total_ordering();
    t.lemma_sort_by_ensures(rank_order());
    assert(ranked(t).to_multiset().len() == ranked(t).len());
    assert(t.to_multiset().len() == t.len());
    assert(ranked(t).len() == 0);
    assert(top_result(Seq::empty(), w, n) =~= Seq::<(Seq<char>, u64)>::empty());
}

} // verus!
