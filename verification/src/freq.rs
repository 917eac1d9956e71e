//! The frequency aggregator: folding admitted records into a table that
//! maps each URL to its occurrence count.

use crate::record::{parse_lines, parsed_lines, Record};
use crate::window::{filter_window, windowed, Window};
use vstd::prelude::*;

verus! {

/// One row of the frequency table: a URL and its occurrence count.
pub struct Entry {
    pub url: String,
    pub count: u64,
}

impl View for Entry {
    type V = (Seq<char>, u64);

    open spec fn view(&self) -> (Seq<char>, u64) {
        (self.url@, self.count)
    }
}

impl DeepView for Entry {
    type V = (Seq<char>, u64);

    open spec fn deep_view(&self) -> (Seq<char>, u64) {
        self@
    }
}

/// A frequency table: one row per distinct URL, in order of first
/// occurrence, each carrying the URL's occurrence count.
pub struct FreqTable {
    pub entries: Vec<Entry>,
}

impl View for FreqTable {
    type V = Seq<(Seq<char>, u64)>;

    open spec fn view(&self) -> Seq<(Seq<char>, u64)> {
        self.entries.deep_view()
    }
}

/// The index of the first row of `t` whose URL is `url`, or `t.len()`
/// when no row has it.
pub open spec fn key_index(t: Seq<(Seq<char>, u64)>, url: Seq<char>) -> int
    decreases t.len(),
{
    if t.len() == 0 {
        0
    } else if t.first().0 == url {
        0
    } else {
        1 + key_index(t.drop_first(), url)
    }
}

/// Whether some row of `t` has the URL `url`.
pub open spec fn has_key(t: Seq<(Seq<char>, u64)>, url: Seq<char>) -> bool {
    key_index(t, url) < t.len()
}

/// `key_index` lands in `0 ..= t.len()`, hits `url` when in range, and
/// nothing before it matches; any match therefore lies at or after it.
pub proof fn lemma_key_index(t: Seq<(Seq<char>, u64)>, url: Seq<char>)
    ensures
        0 <= key_index(t, url) <= t.len(),
        has_key(t, url) ==> t[key_index(t, url)].0 == url,
        forall|i: int| 0 <= i < key_index(t, url) ==> (#[trigger] t[i]).0 != url,
        forall|i: int| 0 <= i < t.len() && (#[trigger] t[i]).0 == url ==> key_index(t, url) <= i,
    decreases t.len(),
{
    if t.len() > 0 && t.first().0 != url {
        lemma_key_index(t.drop_first(), url);
        assert(forall|i: int|
            1 <= i < t.len() ==> (#[trigger] t[i]) == t.drop_first()[i - 1]);
    }
}

/// Two tables with the same URLs row for row give every URL the same
/// `key_index`.
proof fn lemma_key_index_same_keys(
    a: Seq<(Seq<char>, u64)>,
    b: Seq<(Seq<char>, u64)>,
    url: Seq<char>,
)
    requires
        a.len() == b.len(),
        forall|i: int| 0 <= i < a.len() ==> (#[trigger] a[i]).0 == b[i].0,
    ensures
        key_index(a, url) == key_index(b, url),
    decreases a.len(),
{
    if a.len() > 0 {
        assert(a.first().0 == b.first().0);
        if a.first().0 != url {
            assert(forall|i: int|
                0 <= i < a.drop_first().len() ==> (#[trigger] a.drop_first()[i]).0
                    == b.drop_first()[i].0);
            lemma_key_index_same_keys(a.drop_first(), b.drop_first(), url);
        }
    }
}

/// How `key_index` behaves when one row is appended.
proof fn lemma_key_index_push(t: Seq<(Seq<char>, u64)>, row: (Seq<char>, u64), url: Seq<char>)
    ensures
        key_index(t.push(row), url) == if has_key(t, url) {
            key_index(t, url)
        } else if row.0 == url {
            t.len() as int
        } else {
            t.len() + 1int
        },
    decreases t.len(),
{
    lemma_key_index(t, url);
    if t.len() == 0 {
        assert(t.push(row).len() == 1);
        assert(t.push(row).first() == row);
        assert(t.push(row).drop_first() =~= Seq::empty());
        assert(!has_key(t, url));
        if row.0 == url {
            assert(key_index(t.push(row), url) == 0);
        } else {
            assert(key_index(t.push(row), url) == 1 + key_index(t.push(row).drop_first(), url));
            assert(key_index(t.push(row), url) == 1);
        }
    } else {
        assert(t.push(row).first() == t.first());
        if t.first().0 == url {
            assert(key_index(t, url) == 0);
            assert(has_key(t, url));
            assert(key_index(t.push(row), url) == 0);
        } else {
            assert(t.push(row).drop_first() =~= t.drop_first().push(row));
            lemma_key_index(t.drop_first(), url);
            lemma_key_index_push(t.drop_first(), row, url);
            assert(key_index(t, url) == 1 + key_index(t.drop_first(), url));
            assert(key_index(t.push(row), url) == 1 + key_index(t.drop_first().push(row), url));
            assert(has_key(t, url) == has_key(t.drop_first(), url));
        }
    }
}

/// The number of records in `recs` whose URL is `url`.
pub open spec fn count_of(recs: Seq<(u64, Seq<char>)>, url: Seq<char>) -> nat
    decreases recs.len(),
{
    if recs.len() == 0 {
        0
    } else {
        count_of(recs.drop_last(), url) + if recs.last().1 == url {
            1nat
        } else {
            0nat
        }
    }
}

/// No URL occurs more often than there are records.
pub proof fn lemma_count_of_le_len(recs: Seq<(u64, Seq<char>)>, url: Seq<char>)
    ensures
        count_of(recs, url) <= recs.len(),
    decreases recs.len(),
{
    if recs.len() > 0 {
        lemma_count_of_le_len(recs.drop_last(), url);
    }
}

/// A URL's count is positive exactly when some record carries it.
pub proof fn lemma_count_of_pos(recs: Seq<(u64, Seq<char>)>, url: Seq<char>)
    ensures
        count_of(recs, url) > 0 <==> exists|i: int|
            0 <= i < recs.len() && (#[trigger] recs[i]).1 == url,
    decreases recs.len(),
{
    if recs.len() > 0 {
        lemma_count_of_pos(recs.drop_last(), url);
        let dl = recs.drop_last();
        if count_of(recs, url) > 0 {
            if recs.last().1 == url {
                assert(recs[recs.len() - 1].1 == url);
            } else {
                let i = choose|i: int| 0 <= i < dl.len() && (#[trigger] dl[i]).1 == url;
                assert(recs[i].1 == url);
            }
        }
        if exists|i: int| 0 <= i < recs.len() && (#[trigger] recs[i]).1 == url {
            let i = choose|i: int| 0 <= i < recs.len() && (#[trigger] recs[i]).1 == url;
            if i < recs.len() - 1 {
                assert(dl[i].1 == url);
            }
        }
    }
}

/// One record folded into a table: the row of its URL is incremented, or a
/// fresh row with count 1 is appended on first occurrence.
pub open spec fn bump(t: Seq<(Seq<char>, u64)>, url: Seq<char>) -> Seq<(Seq<char>, u64)> {
    if has_key(t, url) {
        t.update(key_index(t, url), (url, (t[key_index(t, url)].1 + 1) as u64))
    } else {
        t.push((url, 1u64))
    }
}

/// The frequency table of a record sequence: every record folded in, in
/// input order.
pub open spec fn table_of(recs: Seq<(u64, Seq<char>)>) -> Seq<(Seq<char>, u64)>
    decreases recs.len(),
{
    if recs.len() == 0 {
        Seq::empty()
    } else {
        bump(table_of(recs.drop_last()), recs.last().1)
    }
}

/// Correctness of `table_of`: row URLs are pairwise distinct, every row
/// carries exactly its URL's occurrence count (hence at least 1), and a URL
/// has a row exactly when it occurs.
pub proof fn lemma_table_of(recs: Seq<(u64, Seq<char>)>)
    requires
        recs.len() <= u64::MAX,
    ensures
        forall|i: int, j: int|
            0 <= i < j < table_of(recs).len() ==> (#[trigger] table_of(recs)[i]).0 != (
            #[trigger] table_of(recs)[j]).0,
        forall|i: int|
            0 <= i < table_of(recs).len() ==> (#[trigger] table_of(recs)[i]).1 == count_of(
                recs,
                table_of(recs)[i].0,
            ) && table_of(recs)[i].1 >= 1,
        forall|u: Seq<char>| #[trigger] has_key(table_of(recs), u) <==> count_of(recs, u) > 0,
        table_of(recs).len() <= recs.len(),
    decreases recs.len(),
{
    if recs.len() > 0 {
        let dl = recs.drop_last();
        let r = recs.last();
        let t0 = table_of(dl);
        let t = table_of(recs);
        lemma_table_of(dl);
        lemma_key_index(t0, r.1);
        assert(forall|u: Seq<char>|
            #[trigger] count_of(recs, u) == count_of(dl, u) + if r.1 == u {
                1nat
            } else {
                0nat
            });
        if has_key(t0, r.1) {
            let ki = key_index(t0, r.1);
            lemma_count_of_le_len(dl, r.1);
            assert(t0[ki].1 == count_of(dl, r.1));
            assert(t0[ki].1 + 1 <= u64::MAX);
            assert(t =~= t0.update(ki, (r.1, (t0[ki].1 + 1) as u64)));
            assert(forall|i: int| 0 <= i < t.len() ==> (#[trigger] t[i]).0 == t0[i].0);
            assert forall|u: Seq<char>| #[trigger] has_key(t, u) <==> count_of(recs, u) > 0 by {
                lemma_key_index_same_keys(t, t0, u);
                assert(has_key(t, u) == has_key(t0, u));
                assert(has_key(t0, u) <==> count_of(dl, u) > 0);
                assert(count_of(recs, u) == count_of(dl, u) + if r.1 == u {
                    1nat
                } else {
                    0nat
                });
            }
            assert forall|i: int| 0 <= i < t.len() implies (#[trigger] t[i]).1 == count_of(
                recs,
                t[i].0,
            ) && t[i].1 >= 1 by {
                if i != ki {
                    assert(t[i] == t0[i]);
                    assert(t0[i].0 != t0[ki].0);
                }
            }
        } else {
            assert(count_of(dl, r.1) == 0);
            assert(t =~= t0.push((r.1, 1u64)));
            assert(forall|i: int| 0 <= i < t0.len() ==> (#[trigger] t[i]) == t0[i]);
            assert(t[t0.len() as int] == (r.1, 1u64));
            assert forall|i: int| 0 <= i < t0.len() implies (#[trigger] t[i]).0 != r.1 by {
                if t0[i].0 == r.1 {
                    assert(has_key(t0, r.1));
                }
            }
            assert forall|u: Seq<char>| #[trigger] has_key(t, u) <==> count_of(recs, u) > 0 by {
                lemma_key_index_push(t0, (r.1, 1u64), u);
            }
        }
    }
}

/// Finds the first row of `entries` whose URL is `url`: returns its index,
/// or the length when no row matches.
fn find_key(entries: &Vec<Entry>, url: &String) -> (j: usize)
    ensures
        j as int == key_index(entries.deep_view(), url@),
{
    let ghost t = entries.deep_view();
    let n = entries.len();
    let mut j: usize = 0;
    while j < n
        invariant
            0 <= j <= n,
            n == entries@.len(),
            t == entries.deep_view(),
            forall|k: int| 0 <= k < j ==> (#[trigger] t[k]).0 != url@,
        decreases n - j,
    {
        proof {
            assert(t[j as int] == entries@[j as int]@);
        }
        if entries[j].url.eq(url) {
            proof {
                lemma_key_index(t, url@);
                assert(key_index(t, url@) <= j);
                if key_index(t, url@) < j {
                    assert(t[key_index(t, url@)].0 == url@);
                }
            }
            return j;
        }
        j = j + 1;
    }
    proof {
        lemma_key_index(t, url@);
        if has_key(t, url@) {
            assert(t[key_index(t, url@)].0 == url@);
        }
    }
    j
}

/// Folds every record into a fresh frequency table, in input order.
pub fn aggregate(recs: Vec<Record>) -> (t: FreqTable)
    ensures
        t@ == table_of(recs.deep_view()),
{
    let ghost orig = recs.deep_view();
    let ghost mut done: int = 0;
    let n0 = recs.len();
    let mut recs = recs;
    let mut entries: Vec<Entry> = Vec::new();
    while recs.len() > 0
        invariant
            0 <= done <= orig.len(),
            done == orig.len() - recs@.len(),
            orig.len() == n0 <= usize::MAX,
            recs.deep_view() == orig.skip(done),
            entries.deep_view() == table_of(orig.take(done)),
        decreases recs@.len(),
    {
        proof {
            assert(recs.deep_view()[0] == orig[done]);
        }
        let ghost prev = recs@;
        let ghost prevdv = recs.deep_view();
        let rec = recs.remove(0);
        proof {
            assert(rec@ == orig[done]);
            assert(recs@ =~= prev.subrange(1, prev.len() as int));
            assert forall|k: int| 0 <= k < recs@.len() implies recs.deep_view()[k] == orig[done + 1
                + k] by {
                assert(recs@[k] == prev[k + 1]);
                assert(prevdv[k + 1] == prev[k + 1].deep_view());
                assert(prevdv[k + 1] == orig.skip(done)[k + 1]);
            }
            assert(recs.deep_view() =~= orig.skip(done + 1));
            assert(orig.take(done + 1).drop_last() =~= orig.take(done));
            assert(orig.take(done + 1).last() == orig[done]);
        }
        let ghost t0 = entries.deep_view();
        let j = find_key(&entries, &rec.url);
        if j < entries.len() {
            proof {
                assert(has_key(t0, rec.url@));
                lemma_table_of(orig.take(done));
                lemma_count_of_le_len(orig.take(done), rec.url@);
                lemma_key_index(t0, rec.url@);
                assert(t0[j as int].0 == rec.url@);
                assert(t0[j as int].1 == count_of(orig.take(done), rec.url@));
                assert(t0[j as int].1 <= done);
                assert(done < orig.len());
                assert(usize::MAX <= u64::MAX);
                assert(t0[j as int].1 < u64::MAX);
                assert(t0[j as int] == entries@[j as int]@);
            }
            let c = entries[j].count;
            let u = entries[j].url.clone();
            let ghost prev_rows = entries@;
            entries[j] = Entry { url: u, count: c + 1 };
            proof {
                lemma_key_index(t0, rec.url@);
                assert(prev_rows[j as int]@.0 == rec.url@);
                assert(entries@ =~= prev_rows.update(j as int, entries@[j as int]));
                assert forall|k: int| 0 <= k < entries@.len() implies entries.deep_view()[k]
                    == bump(t0, rec.url@)[k] by {
                    if k != j {
                        assert(entries@[k] == prev_rows[k]);
                    }
                }
                assert(entries.deep_view() =~= bump(t0, rec.url@));
            }
        } else {
            proof {
                assert(!has_key(t0, rec.url@));
            }
            entries.push(Entry { url: rec.url, count: 1 });
            proof {
                assert(entries.deep_view() =~= bump(t0, rec.url@));
            }
        }
        proof {
            done = done + 1;
            assert(entries.deep_view() =~= table_of(orig.take(done)));
        }
    }
    proof {
        assert(orig.take(done) =~= orig);
    }
    FreqTable { entries }
}

/// The full data path short of I/O: parse the raw lines, keep the records
/// the window admits, and fold them into the frequency table.
pub fn count_entries(lines: &Vec<String>, w: &Window) -> (t: FreqTable)
    ensures
        t@ == table_of(windowed(parsed_lines(lines.deep_view()), *w)),
{
    let recs = parse_lines(lines);
    let admitted_recs = filter_window(recs, w);
    aggregate(admitted_recs)
}

/// The distinct-URL count: the number of rows of the table.
pub fn compute_distinct(t: &FreqTable) -> (n: usize)
    ensures
        n == t@.len(),
{
    t.entries.len()
}

} // verus!
