//! Inclusive timestamp windows and the admission rule for records.

use crate::record::Record;
use vstd::prelude::*;

verus! {

/// A time window with an optional inclusive lower bound and an optional
/// inclusive upper bound. A missing bound admits every timestamp on that
/// side. Nothing requires `from <= to`; a window with `from > to` simply
/// admits no timestamp.
#[derive(Clone, Copy)]
pub struct Window {
    pub from: Option<u64>,
    pub to: Option<u64>,
}

/// A timestamp is admitted exactly when it lies on or above the lower bound
/// (if any) and on or below the upper bound (if any).
pub open spec fn admitted(w: Window, ts: u64) -> bool {
    &&& match w.from {
        Some(f) => ts >= f,
        None => true,
    }
    &&& match w.to {
        Some(t) => ts <= t,
        None => true,
    }
}

impl Window {
    /// A window with no bounds, admitting every timestamp.
    pub fn unbounded() -> (w: Window)
        ensures
            w.from is None,
            w.to is None,
    {
        Window { from: None, to: None }
    }

    /// Decides admission of one timestamp, per `admitted`.
    pub fn admits(&self, ts: u64) -> (r: bool)
        ensures
            r == admitted(*self, ts),
    {
        let lower_ok = match self.from {
            Some(f) => ts >= f,
            None => true,
        };
        let upper_ok = match self.to {
            Some(t) => ts <= t,
            None => true,
        };
        lower_ok && upper_ok
    }
}

/// The subsequence of records admitted by a window, in input order.
pub open spec fn windowed(recs: Seq<(u64, Seq<char>)>, w: Window) -> Seq<(u64, Seq<char>)>
    decreases recs.len(),
{
    if recs.len() == 0 {
        Seq::empty()
    } else {
        let rest = windowed(recs.drop_last(), w);
        if admitted(w, recs.last().0) {
            rest.push(recs.last())
        } else {
            rest
        }
    }
}

/// Keeping a prefix of the input keeps at most as many admitted records.
pub proof fn lemma_windowed_len(recs: Seq<(u64, Seq<char>)>, w: Window)
    ensures
        windowed(recs, w).len() <= recs.len(),
    decreases recs.len(),
{
    if recs.len() > 0 {
        lemma_windowed_len(recs.drop_last(), w);
    }
}

/// The filter keeps exactly the admitted records: every kept record was
/// admitted, and every admitted record is kept. With
/// `lemma_inclusive_boundaries` this makes the boundary rule concrete: a
/// record whose timestamp sits exactly on a bound is kept, one a unit
/// outside is not.
pub proof fn lemma_windowed_keeps_admitted(recs: Seq<(u64, Seq<char>)>, w: Window)
    ensures
        forall|i: int|
            0 <= i < windowed(recs, w).len() ==> admitted(
                w,
                (#[trigger] windowed(recs, w)[i]).0,
            ),
        forall|i: int|
            0 <= i < recs.len() && admitted(w, (#[trigger] recs[i]).0) ==> windowed(
                recs,
                w,
            ).contains(recs[i]),
    decreases recs.len(),
{
    if recs.len() > 0 {
        let dl = recs.drop_last();
        lemma_windowed_keeps_admitted(dl, w);
        assert(forall|i: int| 0 <= i < dl.len() ==> (#[trigger] dl[i]) == recs[i]);
        assert forall|i: int|
            0 <= i < recs.len() && admitted(w, (#[trigger] recs[i]).0) implies windowed(
            recs,
            w,
        ).contains(recs[i]) by {
            if i < recs.len() - 1 {
                let k = choose|k: int|
                    0 <= k < windowed(dl, w).len() && (#[trigger] windowed(dl, w)[k]) == dl[i];
                assert(windowed(recs, w)[k] == recs[i]);
            } else {
                assert(windowed(recs, w).last() == recs[i]);
            }
        }
    }
}

/// Keeps exactly the records the window admits, in order.
pub fn filter_window(recs: Vec<Record>, w: &Window) -> (out: Vec<Record>)
    ensures
        out.deep_view() == windowed(recs.deep_view(), *w),
{
    let ghost orig = recs.deep_view();
    let ghost mut done: int = 0;
    let mut out: Vec<Record> = Vec::new();
    let mut recs = recs;
    while recs.len() > 0
        invariant
            0 <= done <= orig.len(),
            done == orig.len() - recs@.len(),
            recs.deep_view() == orig.skip(done),
            out.deep_view() == windowed(orig.take(done), *w),
        decreases recs@.len(),
    {
        proof {
            assert(recs.deep_view()[0] == orig[done]);
        }
        let ghost prev = recs@;
        let ghost prevdv = recs.deep_view();
        let rec = recs.remove(0);
        proof {
            assert(rec@ == orig[done]);
            assert(recs@ =~= prev.subrange(1, prev.len() as int));
            assert forall|k: int| 0 <= k < recs@.len() implies recs.deep_view()[k] == orig[done + 1
                + k] by {
                assert(recs@[k] == prev[k + 1]);
                assert(prevdv[k + 1] == prev[k + 1].deep_view());
                assert(prevdv[k + 1] == orig.skip(done)[k + 1]);
            }
            assert(recs.deep_view() =~= orig.skip(done + 1));
            assert(orig.take(done + 1).drop_last() =~= orig.take(done));
            assert(orig.take(done + 1).last() == orig[done]);
        }
        let ghost old_out = out.deep_view();
        let keep = w.admits(rec.ts);
        if keep {
            out.push(rec);
            proof {
                assert(out.deep_view() =~= old_out.push(orig[done]));
            }
        }
        proof {
            done = done + 1;
            assert(out.deep_view() =~= windowed(orig.take(done), *w));
        }
    }
    proof {
        assert(orig.take(done) =~= orig);
    }
    out
}

} // verus!
