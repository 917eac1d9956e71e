//! The top-N query: ranking frequency-table rows by count descending,
//! with ties broken by reverse lexicographic order of the URL.

use crate::freq::{Entry, FreqTable};
use vstd::multiset::Multiset;
use vstd::prelude::*;
use vstd::relations::{sorted_by, total_ordering};
use vstd::seq_lib::lemma_sorted_unique;

verus! {

/// Lexicographic order on character sequences, by code point:
/// `a` is empty, or its head is smaller, or heads agree and the tails compare.
pub open spec fn lex_leq(a: Seq<char>, b: Seq<char>) -> bool
    decreases a.len(),
{
    if a.len() == 0 {
        true
    } else if b.len() == 0 {
        false
    } else if a.first() != b.first() {
        (a.first() as u32) < (b.first() as u32)
    } else {
        lex_leq(a.drop_first(), b.drop_first())
    }
}

/// Distinct characters have distinct code points.
proof fn lemma_char_code_points(c1: char, c2: char)
    requires
        c1 != c2,
    ensures
        c1 as u32 != c2 as u32,
{
}

/// Any two character sequences compare one way or the other.
pub proof fn lemma_lex_total(a: Seq<char>, b: Seq<char>)
    ensures
        lex_leq(a, b) || lex_leq(b, a),
    decreases a.len(),
{
    if a.len() == 0 {
    } else if b.len() == 0 {
        assert(lex_leq(b, a));
    } else if a.first() == b.first() {
        lemma_lex_total(a.drop_first(), b.drop_first());
    } else {
        let ca = a.first();
        let cb = b.first();
        lemma_char_code_points(ca, cb);
        assert(ca as u32 != cb as u32);
        if (a.first() as u32) < (b.first() as u32) {
            assert(lex_leq(a, b));
        } else {
            assert(lex_leq(b, a));
        }
    }
}

/// Sequences that compare below each other are equal.
pub proof fn lemma_lex_antisymmetric(a: Seq<char>, b: Seq<char>)
    requires
        lex_leq(a, b),
        lex_leq(b, a),
    ensures
        a == b,
    decreases a.len(),
{
    if a.len() == 0 {
        assert(b.len() == 0);
        assert(a =~= b);
    } else {
        assert(a.first() == b.first());
        lemma_lex_antisymmetric(a.drop_first(), b.drop_first());
        assert(a =~= Seq::empty().push(a.first()) + a.drop_first());
        assert(b =~= Seq::empty().push(b.first()) + b.drop_first());
    }
}

/// The lexicographic order is transitive.
pub proof fn lemma_lex_transitive(a: Seq<char>, b: Seq<char>, c: Seq<char>)
    requires
        lex_leq(a, b),
        lex_leq(b, c),
    ensures
        lex_leq(a, c),
    decreases a.len(),
{
    if a.len() > 0 && b.len() > 0 && c.len() > 0 && a.first() == b.first() && b.first()
        == c.first() {
        lemma_lex_transitive(a.drop_first(), b.drop_first(), c.drop_first());
    }
}

/// The ranking order on table rows: `x` comes no later than `y` when its
/// count is higher, or the counts agree and its URL is lexicographically
/// no smaller (reverse lexicographic tie-break).
pub open spec fn rank_leq(x: (Seq<char>, u64), y: (Seq<char>, u64)) -> bool {
    if x.1 != y.1 {
        x.1 > y.1
    } else {
        lex_leq(y.0, x.0)
    }
}

/// The ranking order as a relation value, for sorting.
pub open spec fn rank_order() -> spec_fn((Seq<char>, u64), (Seq<char>, u64)) -> bool {
    |x: (Seq<char>, u64), y: (Seq<char>, u64)| rank_leq(x, y)
}

/// The ranking order is a total order on rows.
pub proof fn lemma_rank_total_ordering()
    ensures
        total_ordering(rank_order()),
{
    let r = rank_order();
    assert forall|x: (Seq<char>, u64)| #[trigger] r(x, x) by {
        lemma_lex_total(x.0, x.0);
    }
    assert forall|x: (Seq<char>, u64), y: (Seq<char>, u64)| #[trigger] r(x, y) && #[trigger] r(
        y,
        x,
    ) implies x == y by {
        lemma_lex_antisymmetric(y.0, x.0);
    }
    assert forall|x: (Seq<char>, u64), y: (Seq<char>, u64), z: (Seq<char>, u64)|
        #[trigger] r(x, y) && #[trigger] r(y, z) implies r(x, z) by {
        if x.1 == y.1 && y.1 == z.1 {
            lemma_lex_transitive(z.0, y.0, x.0);
        }
    }
    assert forall|x: (Seq<char>, u64), y: (Seq<char>, u64)| #[trigger] r(x, y) || #[trigger] r(
        y,
        x,
    ) by {
        if x.1 == y.1 {
            lemma_lex_total(x.0, y.0);
        }
    }
}

/// The rows of a table in ranking order.
pub open spec fn ranked(t: Seq<(Seq<char>, u64)>) -> Seq<(Seq<char>, u64)> {
    t.sort_by(rank_order())
}

/// Decides `lex_leq` on two strings.
fn lex_leq_exec(a: &String, b: &String) -> (r: bool)
    ensures
        r == lex_leq(a@, b@),
{
    let sa = a.as_str();
    let sb = b.as_str();
    let na = sa.unicode_len();
    let nb = sb.unicode_len();
    let mut i: usize = 0;
    proof {
        assert(a@.skip(0) =~= a@);
        assert(b@.skip(0) =~= b@);
    }
    while i < na && i < nb
        invariant
            na == a@.len(),
            nb == b@.len(),
            0 <= i <= na,
            0 <= i <= nb,
            sa@ == a@,
            sb@ == b@,
            lex_leq(a@, b@) == lex_leq(a@.skip(i as int), b@.skip(i as int)),
        decreases na - i,
    {
        let ca = sa.get_char(i);
        let cb = sb.get_char(i);
        proof {
            assert(a@.skip(i as int).first() == ca);
            assert(b@.skip(i as int).first() == cb);
            assert(a@.skip(i as int).drop_first() =~= a@.skip(i + 1));
            assert(b@.skip(i as int).drop_first() =~= b@.skip(i + 1));
        }
        if (ca as u32) < (cb as u32) {
            return true;
        }
        if (ca as u32) > (cb as u32) {
            return false;
        }
        proof {
            assert(ca == cb);
        }
        i = i + 1;
    }
    proof {
        if i >= na {
            assert(a@.skip(i as int).len() == 0);
        } else {
            assert(b@.skip(i as int).len() == 0);
            assert(a@.skip(i as int).len() > 0);
        }
    }
    i >= na
}

/// Decides the ranking order on two rows.
fn rank_leq_exec(x: &Entry, y: &Entry) -> (r: bool)
    ensures
        r == rank_leq(x@, y@),
{
    if x.count != y.count {
        x.count > y.count
    } else {
        lex_leq_exec(&y.url, &x.url)
    }
}

/// Sorts the rows into ranking order: the result is exactly `ranked` of
/// the input rows.
fn sort_ranked(rows: Vec<Entry>) -> (out: Vec<Entry>)
    ensures
        out.deep_view() == ranked(rows.deep_view()),
{
    let ghost orig = rows.deep_view();
    let mut rest = rows;
    let mut out: Vec<Entry> = Vec::new();
    proof {
        broadcast use vstd::seq_lib::group_to_multiset_ensures;
        broadcast use vstd::multiset::group_multiset_axioms;

        lemma_rank_total_ordering();
        assert(out.deep_view() =~= Seq::empty());
        assert(out.deep_view().to_multiset().add(rest.deep_view().to_multiset())
            =~= orig.to_multiset());
    }
    while rest.len() > 0
        invariant
            total_ordering(rank_order()),
            out.deep_view().to_multiset().add(rest.deep_view().to_multiset())
                == orig.to_multiset(),
            sorted_by(out.deep_view(), rank_order()),
            forall|i: int, j: int|
                0 <= i < out.deep_view().len() && 0 <= j < rest.deep_view().len() ==> rank_leq(
                    #[trigger] out.deep_view()[i],
                    #[trigger] rest.deep_view()[j],
                ),
        decreases rest@.len(),
    {
        let ghost restdv = rest.deep_view();
        // Find the row that ranks before all remaining rows.
        let mut m: usize = 0;
        let mut k: usize = 1;
        proof {
            let r = rank_order();
            assert(r(restdv[0], restdv[0]));
            assert(rank_leq(restdv[0], restdv[0]));
        }
        while k < rest.len()
            invariant
                rest.deep_view() == restdv,
                restdv.len() == rest@.len(),
                0 <= m < rest@.len(),
                1 <= k <= rest@.len(),
                forall|j: int| 0 <= j < k ==> rank_leq(restdv[m as int], #[trigger] restdv[j]),
                total_ordering(rank_order()),
            decreases rest@.len() - k,
        {
            proof {
                assert(restdv[m as int] == rest@[m as int]@);
                assert(restdv[k as int] == rest@[k as int]@);
            }
            let better = rank_leq_exec(&rest[m], &rest[k]);
            if !better {
                proof {
                    let r = rank_order();
                    assert(r(restdv[m as int], restdv[k as int]) || r(
                        restdv[k as int],
                        restdv[m as int],
                    ));
                    assert(rank_leq(restdv[k as int], restdv[m as int]));
                    assert forall|j: int| 0 <= j < k implies rank_leq(
                        restdv[k as int],
                        #[trigger] restdv[j],
                    ) by {
                        let r2 = rank_order();
                        assert(r2(restdv[k as int], restdv[m as int]));
                        assert(r2(restdv[m as int], restdv[j]));
                        assert(r2(restdv[k as int], restdv[j]));
                    }
                }
                m = k;
            }
            proof {
                let r = rank_order();
                assert(r(restdv[m as int], restdv[m as int]));
                assert(rank_leq(restdv[m as int], restdv[k as int]));
            }
            k = k + 1;
        }
        proof {
            assert(restdv[m as int] == rest@[m as int]@);
        }
        let ghost prev = rest@;
        let ghost prevdv = rest.deep_view();
        let picked = rest.remove(m);
        proof {
            assert(picked@ == prevdv[m as int]);
            assert forall|kk: int| 0 <= kk < rest@.len() implies rest.deep_view()[kk]
                == prevdv.remove(m as int)[kk] by {
                assert(rest@[kk] == prev.remove(m as int)[kk]);
                if kk < m {
                    assert(prev.remove(m as int)[kk] == prev[kk]);
                    assert(prevdv.remove(m as int)[kk] == prevdv[kk]);
                } else {
                    assert(prev.remove(m as int)[kk] == prev[kk + 1]);
                    assert(prevdv.remove(m as int)[kk] == prevdv[kk + 1]);
                }
            }
            assert(rest.deep_view() =~= prevdv.remove(m as int));
        }
        let ghost outdv = out.deep_view();
        out.push(picked);
        proof {
            broadcast use vstd::seq_lib::group_to_multiset_ensures;

            assert(out.deep_view() =~= outdv.push(prevdv[m as int]));
            assert(out.deep_view().to_multiset() == outdv.to_multiset().insert(
                prevdv[m as int],
            ));
            assert(rest.deep_view().to_multiset() == prevdv.to_multiset().remove(
                prevdv[m as int],
            ));
            assert(prevdv.to_multiset().contains(prevdv[m as int]));
            assert(out.deep_view().to_multiset().add(rest.deep_view().to_multiset())
                =~= orig.to_multiset());
            // The picked row keeps `out` sorted and still precedes the rest.
            assert forall|i: int, j: int|
                0 <= i < out.deep_view().len() && 0 <= j < rest.deep_view().len() implies rank_leq(
                #[trigger] out.deep_view()[i],
                #[trigger] rest.deep_view()[j],
            ) by {
                let r = rank_order();
                if j < m {
                    assert(rest.deep_view()[j] == prevdv[j]);
                } else {
                    assert(rest.deep_view()[j] == prevdv[j + 1]);
                }
                if i < outdv.len() {
                    assert(out.deep_view()[i] == outdv[i]);
                } else {
                    assert(out.deep_view()[i] == prevdv[m as int]);
                }
            }
            assert forall|i: int, j: int| 0 <= i < j < out.deep_view().len() implies (
            rank_order())(out.deep_view()[i], out.deep_view()[j]) by {
                if j < outdv.len() {
                    assert(sorted_by(outdv, rank_order()));
                } else {
                    assert(out.deep_view()[j] == prevdv[m as int]);
                    assert(rank_leq(outdv[i], prevdv[m as int]));
                }
            }
            assert(sorted_by(out.deep_view(), rank_order()));
        }
    }
    proof {
        broadcast use vstd::seq_lib::group_to_multiset_ensures;

        assert(rest.deep_view() =~= Seq::empty());
        assert(rest.deep_view().to_multiset() =~= Multiset::empty());
        assert(out.deep_view().to_multiset() =~= orig.to_multiset());
        orig.lemma_sort_by_ensures(rank_order());
        lemma_sorted_unique(out.deep_view(), orig.sort_by(rank_order()), rank_order());
    }
    out
}

/// The smaller of two lengths.
pub open spec fn min_len(n: int, len: int) -> int {
    if n <= len {
        n
    } else {
        len
    }
}

/// The top-N query: the first `n` rows of the table in ranking order, or
/// all rows when fewer than `n` remain.
pub fn compute_top(table: FreqTable, n: usize) -> (top: Vec<Entry>)
    ensures
        top.deep_view() == ranked(table@).take(min_len(n as int, table@.len() as int)),
{
    let ghost tv = table@;
    let mut rows = sort_ranked(table.entries);
    let ghost sorted = rows.deep_view();
    if n < rows.len() {
        let ghost prev = rows@;
        rows.truncate(n);
        proof {
            assert(rows@ == prev.subrange(0, n as int));
            assert forall|k: int| 0 <= k < rows@.len() implies rows.deep_view()[k] == sorted.take(
                n as int,
            )[k] by {
                assert(rows@[k] == prev[k]);
                assert(sorted[k] == prev[k]@);
                assert(rows.deep_view()[k] == rows@[k]@);
            }
            assert(rows.deep_view() =~= sorted.take(n as int));
            assert(ranked(tv).len() == tv.len()) by {
                broadcast use vstd::seq_lib::group_to_multiset_ensures;

                lemma_rank_total_ordering();
                tv.lemma_sort_by_ensures(rank_order());
                assert(tv.to_multiset().len() == tv.len());
                assert(ranked(tv).to_multiset().len() == ranked(tv).len());
                assert(tv.to_multiset() == ranked(tv).to_multiset());
            }
        }
    } else {
        proof {
            assert(ranked(tv).len() == tv.len()) by {
                broadcast use vstd::seq_lib::group_to_multiset_ensures;

                lemma_rank_total_ordering();
                tv.lemma_sort_by_ensures(rank_order());
                assert(tv.to_multiset().len() == tv.len());
                assert(ranked(tv).to_multiset().len() == ranked(tv).len());
                assert(tv.to_multiset() == ranked(tv).to_multiset());
            }
            assert(rows.deep_view() =~= sorted.take(min_len(n as int, tv.len() as int)));
        }
    }
    rows
}

} // verus!
