use crate::error::Error;
use crate::partition::{
    agg_overflow, aggregate_target, ents, lemma_val_at_in_entry, lemma_val_at_some_in, same_piece,
    split_target, val_at, Entry, EntryS, Partition,
};
use crate::rat::{frac_add, frac_fits, frac_wf, frac_zero, Frac};
use vstd::prelude::*;

verus! {

/// What the reading layer reports about duplicate input lines.
pub struct RefineryStats {
    pub num_duplicate_lines: Option<i64>,
}

/// What the binned-track writer reports about duplicate input lines.
pub struct TrackBinnerStats {
    pub num_duplicate_lines: Option<i64>,
}

/// The value at point `p` after folding the scored intervals `calls` into
/// an empty partition, in order.
pub open spec fn folded_val(calls: Seq<EntryS>, p: int) -> Option<Frac>
    decreases calls.len(),
{
    if calls.len() == 0 {
        None
    } else {
        let prev = folded_val(calls.drop_last(), p);
        let c = calls.last();
        if c.lo <= p <= c.hi {
            match prev {
                Some(w) => Some(frac_add(w, c.v)),
                None => Some(c.v),
            }
        } else {
            prev
        }
    }
}

/// Where, after folding `calls` into an empty partition, two neighbouring
/// points share one piece: the fold of `split_target` over the calls.
pub open spec fn folded_piece(calls: Seq<EntryS>, p: int) -> bool
    decreases calls.len(),
{
    if calls.len() == 0 {
        false
    } else {
        let c = calls.last();
        &&& p != c.hi
        &&& p + 1 != c.lo
        &&& (folded_piece(calls.drop_last(), p) || (c.lo <= p && p + 1 <= c.hi && folded_val(
            calls.drop_last(),
            p,
        ) is None && folded_val(calls.drop_last(), p + 1) is None))
    }
}

/// Whether folding step `i` overflows: some point of the new interval
/// already carries a value whose sum with the new one does not fit.
pub open spec fn step_overflow(calls: Seq<EntryS>, i: int) -> bool {
    exists|p: int|
        calls[i].lo <= p <= calls[i].hi && (#[trigger] folded_val(calls.take(i), p)) is Some
            && !frac_fits(frac_add(folded_val(calls.take(i), p)->0, calls[i].v))
}

/// Whether the whole fold goes through: every interval is nonempty and no
/// step overflows.
pub open spec fn fold_ok(calls: Seq<EntryS>, i: int) -> bool
    decreases i,
{
    if i <= 0 {
        true
    } else {
        &&& fold_ok(calls, i - 1)
        &&& calls[i - 1].lo <= calls[i - 1].hi
        &&& !step_overflow(calls, i - 1)
    }
}

/// The overflow test over the partition's entries agrees with the
/// pointwise one.
pub proof fn lemma_overflow_pointwise(pre: Seq<EntryS>, lo: int, hi: int, v: Frac, calls: Seq<
    EntryS,
>, i: int)
    requires
        crate::partition::entries_wf(pre),
        lo <= hi,
        0 <= i < calls.len(),
        calls[i].lo == lo,
        calls[i].hi == hi,
        calls[i].v == v,
        forall|p: int| #[trigger] val_at(pre, p) == folded_val(calls.take(i), p),
    ensures
        agg_overflow(pre, lo, hi, v) == step_overflow(calls, i),
{
    if agg_overflow(pre, lo, hi, v) {
        let e = choose|e: int|
            0 <= e < pre.len() && crate::partition::overlaps_s(#[trigger] pre[e], lo, hi)
                && !frac_fits(frac_add(pre[e].v, v));
        let p: int = if pre[e].lo >= lo {
            pre[e].lo
        } else {
            lo
        };
        assert(crate::partition::entry_wf(pre[e]));
        assert(pre[e].lo <= p <= pre[e].hi);
        assert(lo <= p <= hi);
        lemma_val_at_in_entry(pre, e, p);
        assert(folded_val(calls.take(i), p) == Some(pre[e].v));
        assert(step_overflow(calls, i));
    }
    if step_overflow(calls, i) {
        let p = choose|p: int|
            calls[i].lo <= p <= calls[i].hi && (#[trigger] folded_val(calls.take(i), p)) is Some
                && !frac_fits(frac_add(folded_val(calls.take(i), p)->0, calls[i].v));
        assert(val_at(pre, p) is Some);
        lemma_val_at_some_in(pre, p);
        let e = choose|e: int|
            0 <= e < pre.len() && (#[trigger] pre[e]).lo <= p <= pre[e].hi && val_at(pre, p)
                == Some(pre[e].v);
        assert(crate::partition::overlaps_s(pre[e], lo, hi));
        assert(!frac_fits(frac_add(pre[e].v, v)));
        assert(agg_overflow(pre, lo, hi, v));
    }
}

/// Builds a partition from a stream of scored intervals by folding each
/// one in with `aggregate`: afterward every point carries exactly the sum
/// of the values of the intervals covering it.
#[verifier::rlimit(100)]
pub fn build_partition(scored: &Vec<Entry>) -> (r: Result<Partition, Error>)
    requires
        forall|i: int| 0 <= i < scored@.len() ==> frac_wf((#[trigger] ents(scored@)[i]).v),
    ensures
        r is Ok <==> fold_ok(ents(scored@), scored@.len() as int),
        match r {
            Ok(p) => p.wf() && (forall|q: int|
                #[trigger] val_at(p@, q) == folded_val(ents(scored@), q)) && (forall|q: int|
                (#[trigger] same_piece(p@, q)) <==> folded_piece(ents(scored@), q)),
            Err(e) => e == Error::InvalidRange || e == Error::Overflow,
        },
{
    let ghost calls = ents(scored@);
    let n = scored.len();
    let mut p = Partition::new();
    let mut i: usize = 0;
    proof {
        assert(calls.take(0) =~= Seq::<EntryS>::empty());
        assert forall|q: int| #[trigger] val_at(p@, q) == folded_val(calls.take(0), q) by {
            assert(p@.len() == 0);
        }
        assert forall|q: int| !(#[trigger] same_piece(p@, q)) by {
            assert(p@.len() == 0);
        }
    }
    while i < n
        invariant
            i <= n,
            n == scored@.len(),
            calls == ents(scored@),
            forall|j: int| 0 <= j < scored@.len() ==> frac_wf((#[trigger] ents(scored@)[j]).v),
            p.wf(),
            fold_ok(calls, i as int),
            forall|q: int| #[trigger] val_at(p@, q) == folded_val(calls.take(i as int), q),
            forall|q: int|
                (#[trigger] same_piece(p@, q)) <==> folded_piece(calls.take(i as int), q),
        decreases n - i,
    {
        let e = scored[i];
        proof {
            assert(e@ == calls[i as int]);
        }
        let ghost pre = p@;
        let res = p.aggregate(e.iv, e.val);
        proof {
            assert(calls.take(i as int + 1).drop_last() =~= calls.take(i as int));
            assert(calls.take(i as int + 1).last() == calls[i as int]);
        }
        match res {
            Ok(()) => {
                proof {
                    lemma_overflow_pointwise(
                        pre,
                        e@.lo,
                        e@.hi,
                        e@.v,
                        calls,
                        i as int,
                    );
                    assert forall|q: int| #[trigger] val_at(p@, q) == folded_val(
                        calls.take(i as int + 1),
                        q,
                    ) by {
                        assert(val_at(p@, q) == aggregate_target(pre, e@.lo, e@.hi, e@.v, q));
                        assert(val_at(pre, q) == folded_val(calls.take(i as int), q));
                    }
                    assert forall|q: int|
                        (#[trigger] same_piece(p@, q)) <==> folded_piece(
                        calls.take(i as int + 1),
                        q,
                    ) by {
                        assert(same_piece(p@, q) <==> split_target(pre, e@.lo, e@.hi, q));
                        assert(same_piece(pre, q) <==> folded_piece(calls.take(i as int), q));
                        assert(val_at(pre, q) == folded_val(calls.take(i as int), q));
                        assert(val_at(pre, q + 1) == folded_val(calls.take(i as int), q + 1));
                    }
                }
            },
            Err(err) => {
                proof {
                    if err == Error::Overflow {
                        assert(e.iv.wf());
                        assert(agg_overflow(pre, e@.lo, e@.hi, e@.v));
                        lemma_overflow_pointwise(
                            pre,
                            e@.lo,
                            e@.hi,
                            e@.v,
                            calls,
                            i as int,
                        );
                    }
                    assert(!fold_ok(calls, i as int + 1));
                    lemma_fold_ok_unfit(calls, i as int + 1, n as int);
                }
                return Err(err);
            },
        }
        i += 1;
    }
    proof {
        assert(calls.take(n as int) =~= calls);
    }
    Ok(p)
}

pub proof fn lemma_fold_ok_unfit(calls: Seq<EntryS>, i: int, n: int)
    requires
        0 < i <= n,
        !fold_ok(calls, i),
    ensures
        !fold_ok(calls, n),
    decreases n - i,
{
    if i < n {
        lemma_fold_ok_unfit(calls, i + 1, n);
    }
}

/// The values of the calls covering point `p`, in call order.
pub open spec fn covering_vals(calls: Seq<EntryS>, p: int) -> Seq<Frac>
    decreases calls.len(),
{
    if calls.len() == 0 {
        Seq::empty()
    } else {
        let rest = covering_vals(calls.drop_last(), p);
        if calls.last().lo <= p <= calls.last().hi {
            rest.push(calls.last().v)
        } else {
            rest
        }
    }
}

/// The exact sum of a value sequence, folded left to right.
pub open spec fn frac_sum(s: Seq<Frac>) -> Frac
    decreases s.len(),
{
    if s.len() == 0 {
        frac_zero()
    } else {
        frac_add(frac_sum(s.drop_last()), s.last())
    }
}

/// Additivity of aggregation: after folding any sequence of scored
/// intervals into an empty partition, the value recorded at a point is
/// exactly the sum of the values of the intervals that cover it; a point
/// covered by none stays absent.
pub proof fn lemma_aggregate_additivity(calls: Seq<EntryS>, p: int)
    ensures
        folded_val(calls, p) == (if covering_vals(calls, p).len() == 0 {
            None
        } else {
            Some(frac_sum(covering_vals(calls, p)))
        }),
    decreases calls.len(),
{
    if calls.len() > 0 {
        lemma_aggregate_additivity(calls.drop_last(), p);
        let c = calls.last();
        if c.lo <= p <= c.hi {
            let rest = covering_vals(calls.drop_last(), p);
            assert(covering_vals(calls, p) == rest.push(c.v));
            assert(covering_vals(calls, p).drop_last() =~= rest);
            if rest.len() == 0 {
                assert(rest =~= Seq::<Frac>::empty());
                assert(frac_sum(rest) == frac_zero());
                assert(covering_vals(calls, p).last() == c.v);
                assert(frac_sum(covering_vals(calls, p)) == frac_add(frac_zero(), c.v));
                assert(frac_add(frac_zero(), c.v) == c.v);
            }
        }
    }
}

} // verus!
