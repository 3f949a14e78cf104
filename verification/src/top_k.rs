use crate::binning::{all_bins_fit, bin_partition, bin_value, covered_len, AggregateOp};
use crate::error::Error;
use crate::partition::{
    entries_wf, ents, lemma_ents_push, lemma_wf_push, Entry, EntryS, Partition,
};
use crate::rat::{frac_le, lemma_frac_le_trans, Frac, Rat};
use crate::chrom_map::ChromMap;
use crate::refine::entries_cover;
use vstd::prelude::*;

verus! {

/// The characterization of `bin_partition`'s output: zero-aligned covered
/// bins in ascending order, each carrying its aggregate value.
pub open spec fn binned_of(src: Seq<EntryS>, bs: int, op: AggregateOp, bins: Seq<EntryS>) -> bool {
    &&& entries_wf(bins)
    &&& forall|j: int|
        0 <= j < bins.len() ==> (#[trigger] bins[j]).lo % bs == 0 && bins[j].hi == bins[j].lo + bs
            - 1
    &&& forall|j: int|
        0 <= j < bins.len() ==> (#[trigger] bins[j]).v == bin_value(src, bins[j].lo, bins[j].hi, op)
            && covered_len(src, bins[j].lo, bins[j].hi) >= 1
    &&& forall|q: int|
        entries_cover(src, q) ==> exists|j: int|
            0 <= j < bins.len() && (#[trigger] bins[j]).lo <= q <= bins[j].hi
}

/// The witnesses of a top-k selection: `origin` maps each output index to
/// the bin it came from, and `slot` maps each selected bin to its place in
/// the output. Every bin is either selected or carries a value no larger
/// than any selected one.
pub open spec fn top_k_witness(
    bins: Seq<EntryS>,
    k: int,
    out: Seq<EntryS>,
    origin: Seq<int>,
    slot: Seq<int>,
) -> bool {
    &&& out.len() == (if k <= bins.len() {
        k
    } else {
        bins.len() as int
    })
    &&& origin.len() == out.len()
    &&& slot.len() == bins.len()
    &&& forall|j: int|
        0 <= j < out.len() ==> 0 <= #[trigger] origin[j] < bins.len() && out[j] == bins[origin[j]]
    &&& forall|m: int|
        0 <= m < bins.len() ==> (0 <= #[trigger] slot[m] < out.len() && out[slot[m]] == bins[m]) || (
        forall|j: int| 0 <= j < out.len() ==> frac_le(bins[m].v, (#[trigger] out[j]).v))
}

/// The top-k selection relation: the output is a subset of the bins, its
/// size is `k` capped by the number of bins, and every bin left out carries
/// a value no larger than any selected one.
pub open spec fn top_k_of(bins: Seq<EntryS>, k: int, out: Seq<EntryS>) -> bool {
    exists|origin: Seq<int>, slot: Seq<int>|
        #[trigger] top_k_witness(bins, k, out, origin, slot)
}

/// How many marks are set.
pub open spec fn count_marked(s: Seq<bool>) -> int
    decreases s.len(),
{
    if s.len() == 0 {
        0
    } else {
        count_marked(s.drop_last()) + (if s.last() {
            1int
        } else {
            0int
        })
    }
}

pub proof fn lemma_count_marked_update(s: Seq<bool>, i: int)
    requires
        0 <= i < s.len(),
        !s[i],
    ensures
        count_marked(s.update(i, true)) == count_marked(s) + 1,
    decreases s.len(),
{
    if i == s.len() - 1 {
        assert(s.update(i, true).drop_last() =~= s.drop_last());
        assert(s.update(i, true).last());
    } else {
        assert(s.update(i, true).drop_last() =~= s.drop_last().update(i, true));
        assert(s.update(i, true).last() == s.last());
        lemma_count_marked_update(s.drop_last(), i);
    }
}

/// When every mark is set, the count is the length.
pub proof fn lemma_count_marked_full(s: Seq<bool>)
    requires
        forall|j: int| 0 <= j < s.len() ==> s[j],
    ensures
        count_marked(s) == s.len(),
    decreases s.len(),
{
    if s.len() > 0 {
        assert forall|j: int| 0 <= j < s.drop_last().len() implies s.drop_last()[j] by {
            assert(s.drop_last()[j] == s[j]);
        }
        lemma_count_marked_full(s.drop_last());
    }
}

pub proof fn lemma_count_marked_zero(s: Seq<bool>)
    requires
        forall|j: int| 0 <= j < s.len() ==> !(#[trigger] s[j]),
    ensures
        count_marked(s) == 0,
    decreases s.len(),
{
    if s.len() > 0 {
        assert forall|j: int| 0 <= j < s.drop_last().len() implies !(#[trigger] s.drop_last()[j]) by {
            assert(s.drop_last()[j] == s[j]);
        }
        lemma_count_marked_zero(s.drop_last());
    }
}

pub proof fn lemma_count_marked_step(s: Seq<bool>, i: int)
    requires
        0 <= i < s.len(),
    ensures
        count_marked(s.take(i + 1)) == count_marked(s.take(i)) + (if s[i] {
            1int
        } else {
            0int
        }),
{
    assert(s.take(i + 1).drop_last() =~= s.take(i));
    assert(s.take(i + 1).last() == s[i]);
}

/// Collects the marked entries of a partition, in their original order.
/// Besides the entries it returns two ghost witness maps: `origin` maps an
/// output index to the source index it came from, and `slot` maps a marked
/// source index to where it went.
#[verifier::rlimit(100)]
fn harvest_marked(src: &Partition, marks: &Vec<bool>) -> (res: (
    Vec<Entry>,
    Ghost<(Seq<int>, Seq<int>)>,
))
    requires
        src.wf(),
        marks@.len() == src@.len(),
    ensures
        ({
            let picked = res.0;
            let origin = res.1@.0;
            let slot = res.1@.1;
            &&& entries_wf(ents(picked@))
            &&& picked@.len() == count_marked(marks@)
            &&& origin.len() == picked@.len()
            &&& slot.len() == src@.len()
            &&& forall|j: int|
                0 <= j < origin.len() ==> 0 <= #[trigger] origin[j] < src@.len() && ents(
                    picked@,
                )[j] == src@[origin[j]] && marks@[origin[j]]
            &&& forall|m: int|
                0 <= m < src@.len() && #[trigger] marks@[m] ==> 0 <= slot[m] < picked@.len()
                    && ents(picked@)[slot[m]] == src@[m]
        }),
{
    let ghost s = src@;
    let n = src.len();
    proof {
        crate::partition::lemma_entries_ordered(s);
    }
    let mut picked: Vec<Entry> = Vec::new();
    let ghost mut origin: Seq<int> = Seq::empty();
    let ghost mut slot: Seq<int> = Seq::new(s.len(), |m: int| 0);
    let mut i2: usize = 0;
    while i2 < n
        invariant
            i2 <= n,
            n == s.len(),
            src.wf(),
            s == src@,
            marks@.len() == n,
            entries_wf(ents(picked@)),
            picked@.len() == count_marked(marks@.take(i2 as int)),
            origin.len() == picked@.len(),
            slot.len() == n,
            forall|j: int|
                0 <= j < origin.len() ==> 0 <= #[trigger] origin[j] < n && ents(picked@)[j]
                    == s[origin[j]] && marks@[origin[j]],
            forall|m: int|
                0 <= m < i2 as int && #[trigger] marks@[m] ==> 0 <= slot[m] < picked@.len() && ents(
                    picked@,
                )[slot[m]] == s[m],
            picked@.len() > 0 ==> origin.last() < i2 as int,
        decreases n - i2,
    {
        proof {
            lemma_count_marked_step(marks@, i2 as int);
        }
        if marks[i2] {
            let ghost ov = picked@;
            let e = *src.get(i2);
            proof {
                crate::partition::lemma_entries_ordered(s);
                if ents(picked@).len() > 0 {
                    let lj = origin.len() - 1;
                    assert(0 <= origin[lj] < n && ents(picked@)[lj] == s[origin[lj]]);
                    assert(ents(picked@).last() == s[origin[lj]]);
                    assert(s[origin[lj]].hi < s[i2 as int].lo);
                }
                lemma_wf_push(ents(picked@), e@);
            }
            picked.push(e);
            proof {
                lemma_ents_push(ov, e);
                origin = origin.push(i2 as int);
                slot = slot.update(i2 as int, ov.len() as int);
                assert forall|j: int|
                    0 <= j < origin.len() implies 0 <= #[trigger] origin[j] < n && ents(
                    picked@,
                )[j] == s[origin[j]] && marks@[origin[j]] by {
                    if j < ov.len() {
                        assert(ents(picked@)[j] == ents(ov)[j]);
                    } else {
                        assert(origin[j] == i2 as int);
                        assert(ents(picked@)[j] == e@);
                    }
                }
                assert forall|m: int|
                    0 <= m < i2 as int + 1 && #[trigger] marks@[m] implies 0 <= slot[m]
                    < picked@.len() && ents(picked@)[slot[m]] == s[m] by {
                    if m < i2 as int {
                        assert(ents(picked@)[slot[m]] == ents(ov)[slot[m]]);
                    } else {
                        assert(slot[m] == ov.len() as int);
                        assert(ents(picked@)[slot[m]] == e@);
                    }
                }
            }
        }
        i2 += 1;
    }
    proof {
        assert(marks@.take(n as int) =~= marks@);
    }
    (picked, Ghost((origin, slot)))
}

/// Selects the `k` highest-valued entries of a partition into a fresh
/// partition, keeping their order. Equal values are broken by position:
/// the earlier entry wins. (The tie-break is deliberately fixed and
/// documented here; upstream it was an accident of heap order.)
#[verifier::rlimit(100)]
pub fn select_top_k(src: &Partition, k: usize) -> (out: Partition)
    requires
        src.wf(),
    ensures
        out.wf(),
        top_k_of(src@, k as int, out@),
{
    let ghost s = src@;
    let n = src.len();
    proof {
        crate::partition::lemma_entries_ordered(s);
    }
    let kk: usize = if k <= n {
        k
    } else {
        n
    };
    let mut marks: Vec<bool> = Vec::new();
    let mut i: usize = 0;
    while i < n
        invariant
            i <= n,
            marks@.len() == i,
            forall|j: int| 0 <= j < i as int ==> !(#[trigger] marks@[j]),
        decreases n - i,
    {
        marks.push(false);
        i += 1;
    }
    proof {
        lemma_count_marked_zero(marks@);
    }
    // mark the kk best entries, one round at a time
    let mut round: usize = 0;
    while round < kk
        invariant
            round <= kk,
            kk <= n,
            n == s.len(),
            src.wf(),
            s == src@,
            marks@.len() == n,
            count_marked(marks@) == round as int,
            forall|a: int, b: int|
                0 <= a < n && 0 <= b < n && marks@[a] && !marks@[b] ==> frac_le(
                    (#[trigger] s[b]).v,
                    (#[trigger] s[a]).v,
                ),
        decreases kk - round,
    {
        // find the best unmarked entry
        let mut best: usize = 0;
        let mut found = false;
        let mut j: usize = 0;
        while j < n
            invariant
                j <= n,
                n == s.len(),
                src.wf(),
                s == src@,
                marks@.len() == n,
                found ==> best < n && !marks@[best as int],
                !found ==> forall|m: int| 0 <= m < j as int ==> #[trigger] marks@[m],
                found ==> forall|m: int|
                    0 <= m < j as int && !(#[trigger] marks@[m]) ==> frac_le(
                        s[m].v,
                        s[best as int].v,
                    ),
            decreases n - j,
        {
            if !marks[j] {
                if !found {
                    found = true;
                    best = j;
                } else {
                    let better = src.get(best).val.le(&src.get(j).val);
                    let ghost ob = best as int;
                    if better {
                        best = j;
                    }
                    proof {
                        assert(crate::partition::entry_wf(s[ob]));
                        assert(crate::partition::entry_wf(s[j as int]));
                        if better {
                            assert forall|m: int|
                                0 <= m < j as int + 1 && !(#[trigger] marks@[m]) implies frac_le(
                                s[m].v,
                                s[j as int].v,
                            ) by {
                                if m < j as int {
                                    assert(crate::partition::entry_wf(s[m]));
                                    lemma_frac_le_trans(s[m].v, s[ob].v, s[j as int].v);
                                }
                            }
                        }
                    }
                }
            }
            j += 1;
        }
        proof {
            if !found {
                lemma_count_marked_full(marks@);
            }
            assert(found);
        }
        let ghost om = marks@;
        marks.set(best, true);
        proof {
            lemma_count_marked_update(om, best as int);
        }
        round += 1;
    }
    let (picked, wit) = harvest_marked(src, &marks);
    let ghost origin = wit@.0;
    let ghost slot = wit@.1;
    let out = Partition::from_entries(picked);
    proof {
        // adjust the slot map: unselected bins get a dominance argument
        assert(top_k_witness(src@, k as int, out@, origin, slot)) by {
            assert(out@.len() == kk as int);
            assert forall|j: int|
                0 <= j < out@.len() implies 0 <= #[trigger] origin[j] < src@.len() && out@[j]
                == src@[origin[j]] by {
                assert(ents(picked@)[j] == src@[origin[j]]);
            }
            assert forall|m: int|
                0 <= m < src@.len() implies (0 <= #[trigger] slot[m] < out@.len() && out@[slot[m]]
                == src@[m]) || (forall|j: int|
                0 <= j < out@.len() ==> frac_le(src@[m].v, (#[trigger] out@[j]).v)) by {
                if marks@[m] {
                    assert(ents(picked@)[slot[m]] == src@[m]);
                } else {
                    assert forall|j: int| 0 <= j < out@.len() implies frac_le(
                        src@[m].v,
                        (#[trigger] out@[j]).v,
                    ) by {
                        assert(0 <= origin[j] < src@.len() && ents(picked@)[j] == src@[origin[j]]
                            && marks@[origin[j]]);
                        assert(frac_le(s[m].v, s[origin[j]].v));
                    }
                }
            }
        }
    }
    out
}

/// Bins the partition with the `Average` rule and keeps the `k`
/// highest-valued bins, as a fresh partition in ascending order.
pub fn get_top_k(interval_map: &Partition, k: usize, bin_size: i64) -> (r: Result<Partition, Error>)
    requires
        interval_map.wf(),
        bin_size >= 1 && interval_map@.len() > 0 ==> interval_map@[0].lo >= i64::MIN + bin_size
            && interval_map@.last().hi <= i64::MAX - bin_size,
    ensures
        r is Ok <==> (bin_size == 0 || (bin_size >= 1 && all_bins_fit(
            interval_map@,
            bin_size as int,
            AggregateOp::Average,
        ))),
        match r {
            Ok(p) => {
                &&& p.wf()
                &&& (bin_size >= 1 ==> exists|bins: Seq<EntryS>|
                    #[trigger] binned_of(interval_map@, bin_size as int, AggregateOp::Average, bins)
                        && top_k_of(bins, k as int, p@))
                &&& (bin_size == 0 ==> top_k_of(interval_map@, k as int, p@))
            },
            Err(e) => (e == Error::InvalidRange || e == Error::Overflow) && (e
                == Error::InvalidRange <==> bin_size < 0),
        },
{
    let binned = match bin_partition(interval_map, bin_size, AggregateOp::Average) {
        Ok(b) => b,
        Err(e) => {
            return Err(e);
        },
    };
    let picked = select_top_k(&binned, k);
    proof {
        if bin_size >= 1 {
            assert(binned_of(interval_map@, bin_size as int, AggregateOp::Average, binned@)
                && top_k_of(binned@, k as int, picked@));
        }
    }
    Ok(picked)
}

/// How many refined rows carry a value from both sides.
pub open spec fn count_both(s: Seq<crate::refine::RowS>, i: int) -> int
    decreases i,
{
    if i <= 0 {
        0
    } else {
        count_both(s, i - 1) + (if s[i - 1].vs[0] is Some && s[i - 1].vs[1] is Some {
            1int
        } else {
            0int
        })
    }
}

/// The characterization of one operand's top-k sub-partition.
pub open spec fn top_sel(src: Seq<EntryS>, bs: int, k: int, t: Seq<EntryS>) -> bool {
    &&& (bs >= 1 ==> exists|bins: Seq<EntryS>|
        #[trigger] binned_of(src, bs, AggregateOp::Average, bins) && top_k_of(bins, k, t))
    &&& (bs == 0 ==> top_k_of(src, k, t))
}

/// A row refined against the seeding of one source relates to that source
/// directly: the seeded rows are the source's entries one for one.
pub proof fn lemma_seeded_src_ok(seedv: Seq<crate::refine::RowS>, t1v: Seq<EntryS>, r: crate::refine::RowS)
    requires
        seedv.len() == t1v.len(),
        forall|m: int|
            0 <= m < seedv.len() ==> {
                let w = #[trigger] seedv[m];
                w.lo == t1v[m].lo && w.hi == t1v[m].hi && w.vs =~= seq![Some(t1v[m].v)]
            },
        crate::refine::row_acc_ok(r, 1, seedv),
        r.vs.len() == 2,
    ensures
        crate::refine::row_src_ok(r, 0, t1v),
{
    if exists|m: int|
        0 <= m < seedv.len() && (#[trigger] seedv[m]).lo <= r.lo && r.hi <= seedv[m].hi
            && r.vs.take(1) =~= seedv[m].vs {
        let m = choose|m: int|
            0 <= m < seedv.len() && (#[trigger] seedv[m]).lo <= r.lo && r.hi <= seedv[m].hi
                && r.vs.take(1) =~= seedv[m].vs;
        assert(r.vs[0] == r.vs.take(1)[0]);
        assert(r.vs[0] == Some(t1v[m].v));
        assert(t1v[m].lo <= r.lo && r.hi <= t1v[m].hi);
    } else {
        assert(forall|t: int| 0 <= t < 1 ==> (#[trigger] r.vs[t]) is None);
        assert(r.vs[0] is None);
        assert forall|m: int| 0 <= m < t1v.len() implies !((#[trigger] t1v[m]).lo <= r.hi && r.lo
            <= t1v[m].hi) by {
            assert(!((seedv[m]).lo <= r.hi && r.lo <= seedv[m].hi));
        }
    }
}

/// The binned form an operand enters the comparison with: its
/// `Average`-binned bins at a positive bin size, the operand itself at
/// bin size zero.
pub open spec fn binned_sel(src: Seq<EntryS>, bs: int, b: Seq<EntryS>) -> bool {
    &&& (bs >= 1 ==> binned_of(src, bs, AggregateOp::Average, b))
    &&& (bs == 0 ==> b == src)
}

/// The anchoring of a two-source refinement: well-formed rows of arity
/// two, value-correct against both sides, covering exactly the union of
/// the sides' spans, and cut only at the sides' entry edges.
pub open spec fn refined_pair(b1: Seq<EntryS>, b2: Seq<EntryS>, rws: Seq<crate::refine::RowS>) -> bool {
    &&& crate::refine::rows_wf(rws, 2)
    &&& forall|j: int|
        0 <= j < rws.len() ==> crate::refine::row_src_ok(#[trigger] rws[j], 0, b1)
            && crate::refine::row_src_ok(rws[j], 1, b2)
    &&& forall|p: int|
        #[trigger] crate::refine::rows_cover(rws, p) <==> (crate::refine::entries_cover(b1, p)
            || crate::refine::entries_cover(b2, p))
    &&& forall|j: int|
        0 <= j < rws.len() ==> (crate::refine::entry_edge_at(b1, (#[trigger] rws[j]).hi)
            || crate::refine::entry_edge_at(b2, rws[j].hi)) && (crate::refine::entry_edge_at(
            b1,
            rws[j].lo - 1,
        ) || crate::refine::entry_edge_at(b2, rws[j].lo - 1))
}

/// The overlap counts of the two operands' top-k selections: `o` rows of
/// their anchored refinement carry both sides, out of `t` rows in all.
pub open spec fn counts_of(m1: Seq<EntryS>, m2: Seq<EntryS>, bs: int, k: int, o: int, t: int) -> bool {
    exists|t1: Seq<EntryS>, t2: Seq<EntryS>, rws: Seq<crate::refine::RowS>|
        #![trigger top_sel(m1, bs, k, t1), top_sel(m2, bs, k, t2), refined_pair(t1, t2, rws)]
        top_sel(m1, bs, k, t1) && top_sel(m2, bs, k, t2) && refined_pair(t1, t2, rws) && rws.len()
            <= i64::MAX && o == count_both(rws, rws.len() as int) && t == rws.len()
}

/// The derived selection depth of the fraction-based comparison: the
/// fraction of the operands' anchored refined bin count, rounded down.
pub open spec fn k_of(m1: Seq<EntryS>, m2: Seq<EntryS>, bs: int, frac: Frac, k: int) -> bool {
    exists|b1: Seq<EntryS>, b2: Seq<EntryS>, rws: Seq<crate::refine::RowS>|
        #![trigger binned_sel(m1, bs, b1), binned_sel(m2, bs, b2), refined_pair(b1, b2, rws)]
        binned_sel(m1, bs, b1) && binned_sel(m2, bs, b2) && refined_pair(b1, b2, rws) && rws.len()
            <= i64::MAX && k == (frac.n * rws.len()) / frac.d
}

/// Common-refines two partitions into anchored rows of arity two.
#[verifier::rlimit(100)]
fn refine_pair(x: &Partition, y: &Partition) -> (out: Vec<crate::refine::Row>)
    requires
        x.wf(),
        y.wf(),
    ensures
        refined_pair(x@, y@, crate::refine::rows(out@)),
{
    let seeded = crate::refine::rows_from(x);
    let out = crate::refine::flat_zip(&seeded, 1, y);
    proof {
        let seedv = crate::refine::rows(seeded@);
        let rv = crate::refine::rows(out@);
        assert forall|j: int|
            0 <= j < rv.len() implies crate::refine::row_src_ok(#[trigger] rv[j], 0, x@)
            && crate::refine::row_src_ok(rv[j], 1, y@) by {
            assert(crate::refine::row_acc_ok(rv[j], 1, seedv));
            lemma_seeded_src_ok(seedv, x@, rv[j]);
        }
        assert forall|p: int|
            #[trigger] crate::refine::rows_cover(rv, p) <==> (crate::refine::entries_cover(x@, p)
                || crate::refine::entries_cover(y@, p)) by {
            crate::refine::lemma_covers_both_at(rv, seedv, y@, p);
            crate::refine::lemma_covers_same_at(seedv, x@, p);
        }
        assert forall|j: int|
            0 <= j < rv.len() implies (crate::refine::entry_edge_at(x@, (#[trigger] rv[j]).hi)
            || crate::refine::entry_edge_at(y@, rv[j].hi)) && (crate::refine::entry_edge_at(
            x@,
            rv[j].lo - 1,
        ) || crate::refine::entry_edge_at(y@, rv[j].lo - 1)) by {
            assert(crate::refine::bnd_at(seedv, y@, rv[j].hi));
            if crate::refine::row_edge_at(seedv, rv[j].hi) {
                lemma_seed_edge(seedv, x@, rv[j].hi);
            }
            assert(crate::refine::bnd_at(seedv, y@, rv[j].lo - 1));
            if crate::refine::row_edge_at(seedv, rv[j].lo - 1) {
                lemma_seed_edge(seedv, x@, rv[j].lo - 1);
            }
        }
    }
    out
}

/// An edge of the seeded rows is an edge of the seeding entries.
proof fn lemma_seed_edge(seedv: Seq<crate::refine::RowS>, es: Seq<EntryS>, p: int)
    requires
        seedv.len() == es.len(),
        forall|m: int|
            0 <= m < seedv.len() ==> {
                let w = #[trigger] seedv[m];
                w.lo == es[m].lo && w.hi == es[m].hi && w.vs =~= seq![Some(es[m].v)]
            },
        crate::refine::row_edge_at(seedv, p),
    ensures
        crate::refine::entry_edge_at(es, p),
{
    let m = choose|m: int|
        0 <= m < seedv.len() && ((#[trigger] seedv[m]).hi == p || seedv[m].lo == p + 1);
    assert(es[m].hi == p || es[m].lo == p + 1);
}

/// A nonempty well-formed entry list covers a point; an anchored
/// refinement is therefore empty exactly when both sides are.
proof fn lemma_refined_pair_empty(b1: Seq<EntryS>, b2: Seq<EntryS>, rws: Seq<crate::refine::RowS>)
    requires
        entries_wf(b1),
        entries_wf(b2),
        refined_pair(b1, b2, rws),
    ensures
        rws.len() == 0 <==> (b1.len() == 0 && b2.len() == 0),
{
    if rws.len() == 0 {
        assert(!crate::refine::rows_cover(rws, 0)) by {
            if crate::refine::rows_cover(rws, 0) {
                let j = choose|j: int|
                    0 <= j < rws.len() && (#[trigger] rws[j]).lo <= 0 <= rws[j].hi;
            }
        }
        if b1.len() > 0 {
            assert(crate::partition::entry_wf(b1[0]));
            assert(crate::refine::entries_cover(b1, b1[0].lo));
            assert(crate::refine::rows_cover(rws, b1[0].lo));
            let j = choose|j: int|
                0 <= j < rws.len() && (#[trigger] rws[j]).lo <= b1[0].lo <= rws[j].hi;
            assert(false);
        }
        if b2.len() > 0 {
            assert(crate::partition::entry_wf(b2[0]));
            assert(crate::refine::entries_cover(b2, b2[0].lo));
            assert(crate::refine::rows_cover(rws, b2[0].lo));
            let j = choose|j: int|
                0 <= j < rws.len() && (#[trigger] rws[j]).lo <= b2[0].lo <= rws[j].hi;
            assert(false);
        }
    } else {
        assert(crate::partition::entry_wf(b1[0]) || true);
        let r0 = rws[0];
        assert(crate::refine::rows_cover(rws, r0.lo)) by {
            assert(crate::refine::rows_wf(rws, 2));
            assert(rws[0].lo <= r0.lo <= rws[0].hi);
        }
        assert(crate::refine::entries_cover(b1, r0.lo) || crate::refine::entries_cover(b2, r0.lo));
        if crate::refine::entries_cover(b1, r0.lo) {
            let m = choose|m: int| 0 <= m < b1.len() && (#[trigger] b1[m]).lo <= r0.lo <= b1[m].hi;
        } else {
            let m = choose|m: int| 0 <= m < b2.len() && (#[trigger] b2[m]).lo <= r0.lo <= b2[m].hi;
        }
    }
}

/// Binning an empty partition gives no bins; a nonempty one gives some.
proof fn lemma_binned_empty(src: Seq<EntryS>, bs: int, b: Seq<EntryS>)
    requires
        entries_wf(src),
        binned_sel(src, bs, b),
        bs >= 0,
    ensures
        b.len() == 0 <==> src.len() == 0,
{
    if bs == 0 {
    } else {
        if b.len() == 0 && src.len() > 0 {
            assert(crate::partition::entry_wf(src[0]));
            assert(crate::refine::entries_cover(src, src[0].lo));
            assert(exists|j: int| 0 <= j < b.len() && (#[trigger] b[j]).lo <= src[0].lo <= b[j].hi);
            assert(false);
        }
        if src.len() == 0 && b.len() > 0 {
            assert(covered_len(src, b[0].lo, b[0].hi) >= 1);
            assert(covered_len(src, b[0].lo, b[0].hi) == 0);
            assert(false);
        }
    }
}

/// Counts the refined rows of the two operands' top-k selections and how
/// many of them are present in both.
#[verifier::rlimit(100)]
fn top_k_overlap_counts(map1: &Partition, map2: &Partition, k: usize, bin_size: i64) -> (r: Result<
    (i64, i64),
    Error,
>)
    requires
        map1.wf(),
        map2.wf(),
        bin_size >= 1 && map1@.len() > 0 ==> map1@[0].lo >= i64::MIN + bin_size
            && map1@.last().hi <= i64::MAX - bin_size,
        bin_size >= 1 && map2@.len() > 0 ==> map2@[0].lo >= i64::MIN + bin_size
            && map2@.last().hi <= i64::MAX - bin_size,
    ensures
        match r {
            Ok((o, t)) => counts_of(map1@, map2@, bin_size as int, k as int, o as int, t as int)
                && 0 <= o <= t && (t == 0 <==> (k == 0 || (map1@.len() == 0 && map2@.len() == 0))),
            Err(e) => (e == Error::InvalidRange || e == Error::Overflow) && (e
                == Error::InvalidRange <==> bin_size < 0),
        },
        r is Ok ==> (bin_size == 0 || (bin_size >= 1 && all_bins_fit(
            map1@,
            bin_size as int,
            AggregateOp::Average,
        ) && all_bins_fit(map2@, bin_size as int, AggregateOp::Average))),
        (bin_size == 0 || (bin_size >= 1 && all_bins_fit(map1@, bin_size as int, AggregateOp::Average)
            && all_bins_fit(map2@, bin_size as int, AggregateOp::Average))) ==> (r is Ok || r
            == Err::<(i64, i64), Error>(Error::Overflow)),
        ((bin_size == 0 || (bin_size >= 1 && all_bins_fit(
            map1@,
            bin_size as int,
            AggregateOp::Average,
        ) && all_bins_fit(map2@, bin_size as int, AggregateOp::Average))) && (k == 0 || (
        map1@.len() == 0 && map2@.len() == 0))) ==> r is Ok,
{
    let ghost bs = bin_size as int;
    let t1 = match get_top_k(map1, k, bin_size) {
        Ok(t) => t,
        Err(e) => {
            return Err(e);
        },
    };
    let t2 = match get_top_k(map2, k, bin_size) {
        Ok(t) => t,
        Err(e) => {
            return Err(e);
        },
    };
    let rws = refine_pair(&t1, &t2);
    let n = rws.len();
    let ghost rv = crate::refine::rows(rws@);
    proof {
        assert(top_sel(map1@, bs, k as int, t1@));
        assert(top_sel(map2@, bs, k as int, t2@));
        assert(refined_pair(t1@, t2@, rv));
        lemma_refined_pair_empty(t1@, t2@, rv);
        let bins1: Seq<EntryS> = if bs >= 1 {
            choose|bins: Seq<EntryS>|
                #[trigger] binned_of(map1@, bs, AggregateOp::Average, bins) && top_k_of(
                    bins,
                    k as int,
                    t1@,
                )
        } else {
            map1@
        };
        assert(binned_sel(map1@, bs, bins1));
        assert(top_k_of(bins1, k as int, t1@));
        let wit1 = choose|og: Seq<int>, sl: Seq<int>|
            #[trigger] top_k_witness(bins1, k as int, t1@, og, sl);
        assert(t1@.len() == (if k as int <= bins1.len() {
            k as int
        } else {
            bins1.len() as int
        }));
        lemma_binned_empty(map1@, bs, bins1);
        let bins2: Seq<EntryS> = if bs >= 1 {
            choose|bins: Seq<EntryS>|
                #[trigger] binned_of(map2@, bs, AggregateOp::Average, bins) && top_k_of(
                    bins,
                    k as int,
                    t2@,
                )
        } else {
            map2@
        };
        assert(binned_sel(map2@, bs, bins2));
        assert(top_k_of(bins2, k as int, t2@));
        let wit2 = choose|og: Seq<int>, sl: Seq<int>|
            #[trigger] top_k_witness(bins2, k as int, t2@, og, sl);
        assert(t2@.len() == (if k as int <= bins2.len() {
            k as int
        } else {
            bins2.len() as int
        }));
        lemma_binned_empty(map2@, bs, bins2);
        assert(rv.len() == 0 <==> (k == 0 || (map1@.len() == 0 && map2@.len() == 0)));
    }
    if n > (i64::MAX as usize) {
        // more refined rows than any count can carry; unreachable for any
        // input that fits in memory, but the type admits it
        return Err(Error::Overflow);
    }
    let mut both: i64 = 0;
    let mut i: usize = 0;
    while i < n
        invariant
            i <= n,
            n == rws@.len(),
            n <= i64::MAX as usize,
            rv == crate::refine::rows(rws@),
            crate::refine::rows_wf(rv, 2),
            0 <= both as int <= i as int,
            both as int == count_both(rv, i as int),
        decreases n - i,
    {
        proof {
            assert(rv[i as int] == rws@[i as int]@);
            assert(rv[i as int].vs.len() == 2);
        }
        let row = &rws[i];
        let mut hit = false;
        if row.vals.len() == 2 {
            hit = row.vals[0].is_some() && row.vals[1].is_some();
        }
        proof {
            assert(rv[i as int].vs[0] == crate::refine::o2f(rws@[i as int].vals@[0]));
            assert(rv[i as int].vs[1] == crate::refine::o2f(rws@[i as int].vals@[1]));
        }
        if hit {
            both = both + 1;
        }
        i += 1;
    }
    proof {
        assert(counts_of(map1@, map2@, bs, k as int, both as int, n as int));
    }
    Ok((both, n as i64))
}

/// The top-k overlap ratio of two partitions: each operand's k
/// highest-valued bins are selected, the two selections are common-refined,
/// and the ratio is the number of refined rows present in both over the
/// number of refined rows in either. A refinement with no rows at all has
/// no ratio; spec-wise the division would be by a zero total, so it is
/// rejected with `NormalizationFailure`.
pub fn get_top_k_overlap_ratio(
    map1: &Partition,
    map2: &Partition,
    k: usize,
    bin_size: i64,
) -> (r: Result<Rat, Error>)
    requires
        map1.wf(),
        map2.wf(),
        bin_size >= 1 && map1@.len() > 0 ==> map1@[0].lo >= i64::MIN + bin_size
            && map1@.last().hi <= i64::MAX - bin_size,
        bin_size >= 1 && map2@.len() > 0 ==> map2@[0].lo >= i64::MIN + bin_size
            && map2@.last().hi <= i64::MAX - bin_size,
    ensures
        match r {
            Ok(x) => x.wf() && exists|o: int, t: int|
                #[trigger] counts_of(map1@, map2@, bin_size as int, k as int, o, t) && t >= 1 && x@
                    == (crate::rat::Frac { n: o, d: t }),
            Err(e) => e == Error::InvalidRange || e == Error::Overflow
                || e == Error::NormalizationFailure,
        },
        r == Err::<Rat, Error>(Error::InvalidRange) <==> bin_size < 0,
        r == Err::<Rat, Error>(Error::NormalizationFailure) <==> (bin_size >= 0 && (bin_size == 0
            || (all_bins_fit(map1@, bin_size as int, AggregateOp::Average) && all_bins_fit(
            map2@,
            bin_size as int,
            AggregateOp::Average,
        ))) && (k == 0 || (map1@.len() == 0 && map2@.len() == 0)) && (exists|o: int, t: int|
            #[trigger] counts_of(map1@, map2@, bin_size as int, k as int, o, t))),
{
    let (both, total) = match top_k_overlap_counts(map1, map2, k, bin_size) {
        Ok(c) => c,
        Err(e) => {
            return Err(e);
        },
    };
    if total == 0 {
        return Err(Error::NormalizationFailure);
    }
    let ratio = match Rat::new(both, total) {
        Some(x) => x,
        None => {
            proof {
                assert(false);
            }
            return Err(Error::Overflow);
        },
    };
    Ok(ratio)
}

/// Derives `k` for the fraction-based overlap ratio: the number of
/// common-refinement rows of the two operands' binned forms, scaled by the
/// fraction and rounded down.
#[verifier::rlimit(100)]
pub fn get_k(map1: &Partition, map2: &Partition, top_k_fraction: Rat, bin_size: i64) -> (r: Result<
    usize,
    Error,
>)
    requires
        map1.wf(),
        map2.wf(),
        top_k_fraction.wf(),
        top_k_fraction@.n >= 0,
        bin_size >= 1 && map1@.len() > 0 ==> map1@[0].lo >= i64::MIN + bin_size
            && map1@.last().hi <= i64::MAX - bin_size,
        bin_size >= 1 && map2@.len() > 0 ==> map2@[0].lo >= i64::MIN + bin_size
            && map2@.last().hi <= i64::MAX - bin_size,
    ensures
        match r {
            Ok(kk) => kk as int >= 0 && k_of(
                map1@,
                map2@,
                bin_size as int,
                top_k_fraction@,
                kk as int,
            ),
            Err(e) => (e == Error::InvalidRange || e == Error::Overflow) && (e
                == Error::InvalidRange <==> bin_size < 0),
        },
{
    let ghost bs = bin_size as int;
    let b1 = match bin_partition(map1, bin_size, AggregateOp::Average) {
        Ok(b) => b,
        Err(e) => {
            return Err(e);
        },
    };
    let b2 = match bin_partition(map2, bin_size, AggregateOp::Average) {
        Ok(b) => b,
        Err(e) => {
            return Err(e);
        },
    };
    let rws = refine_pair(&b1, &b2);
    let n = rws.len();
    if n > (i64::MAX as usize) {
        return Err(Error::Overflow);
    }
    let scaled = match top_k_fraction.checked_scale(n as i64) {
        Some(s) => s,
        None => {
            return Err(Error::Overflow);
        },
    };
    proof {
        crate::rat::lemma_rat_fits(top_k_fraction);
        crate::rat::lemma_rat_fits(scaled);
        crate::binning::lemma_div_bounds(scaled@.n, scaled@.d);
        crate::rat::lemma_mul_range(
            top_k_fraction@.n,
            n as int,
            0x7fff_ffff_ffff_ffff,
            0x7fff_ffff_ffff_ffff,
        );
        assert(scaled@.n >= 0) by (nonlinear_arith)
            requires
                scaled@.n == top_k_fraction@.n * (n as int),
                top_k_fraction@.n >= 0,
                n as int >= 0,
        ;
    }
    let num = scaled.num();
    let den = scaled.den();
    proof {
        assert(num as int == scaled@.n >= 0);
        assert(den as int == scaled@.d >= 1);
    }
    let kk = crate::binning::floor_div(num, den);
    proof {
        assert(0 <= kk as int <= scaled@.n);
        assert((kk as int) == (top_k_fraction@.n * (n as int)) / top_k_fraction@.d)
            by (nonlinear_arith)
            requires
                kk as int == scaled@.n / scaled@.d,
                scaled@.n == top_k_fraction@.n * (n as int),
                scaled@.d == top_k_fraction@.d,
        ;
    }
    if (kk as u128) > (usize::MAX as u128) {
        return Err(Error::Overflow);
    }
    proof {
        assert(binned_sel(map1@, bs, b1@));
        assert(binned_sel(map2@, bs, b2@));
        assert(refined_pair(b1@, b2@, crate::refine::rows(rws@)));
        assert((kk as usize) as int == kk as int);
        assert(k_of(map1@, map2@, bs, top_k_fraction@, kk as int));
    }
    Ok(kk as usize)
}

/// The overlap ratio of the two operands' top fraction: `k` is the
/// fraction of the operands' common refined bin count, rounded down, and
/// the ratio is the one `get_top_k_overlap_ratio` computes at that `k`.
pub fn get_top_k_fraction_overlap_ratio(
    map1: &Partition,
    map2: &Partition,
    top_k_fraction: Rat,
    bin_size: i64,
) -> (r: Result<Rat, Error>)
    requires
        map1.wf(),
        map2.wf(),
        top_k_fraction.wf(),
        top_k_fraction@.n >= 0,
        bin_size >= 1 && map1@.len() > 0 ==> map1@[0].lo >= i64::MIN + bin_size
            && map1@.last().hi <= i64::MAX - bin_size,
        bin_size >= 1 && map2@.len() > 0 ==> map2@[0].lo >= i64::MIN + bin_size
            && map2@.last().hi <= i64::MAX - bin_size,
    ensures
        match r {
            Ok(x) => x.wf() && exists|k: int|
                #![trigger k_of(map1@, map2@, bin_size as int, top_k_fraction@, k)]
                k >= 0 && k_of(map1@, map2@, bin_size as int, top_k_fraction@, k) && exists|
                    o: int,
                    t: int,
                |
                    #[trigger] counts_of(map1@, map2@, bin_size as int, k, o, t) && t >= 1 && x@
                        == (crate::rat::Frac { n: o, d: t }),
            Err(e) => e == Error::InvalidRange || e == Error::Overflow
                || e == Error::NormalizationFailure,
        },
        r == Err::<Rat, Error>(Error::InvalidRange) <==> bin_size < 0,
{
    let k = match get_k(map1, map2, top_k_fraction, bin_size) {
        Ok(k) => k,
        Err(e) => {
            return Err(e);
        },
    };
    let out = get_top_k_overlap_ratio(map1, map2, k, bin_size);
    proof {
        if out is Ok {
            assert(k_of(map1@, map2@, bin_size as int, top_k_fraction@, k as int));
        }
    }
    out
}

/// The sum of an integer sequence's prefix.
pub open spec fn int_sum(s: Seq<int>, i: int) -> int
    decreases i,
{
    if i <= 0 {
        0
    } else {
        int_sum(s, i - 1) + s[i - 1]
    }
}

/// A pushed element does not change a prefix sum.
pub proof fn lemma_int_sum_push(s: Seq<int>, v: int, i: int)
    requires
        0 <= i <= s.len(),
    ensures
        int_sum(s.push(v), i) == int_sum(s, i),
    decreases i,
{
    if i > 0 {
        lemma_int_sum_push(s, v, i - 1);
    }
}

/// One operand's partition for a union chromosome: the partition the map
/// carries under that name, or the empty partition where it carries none.
pub open spec fn chrom_slot(m: ChromMap, c: Seq<u8>, part: Seq<EntryS>) -> bool {
    ||| exists|x: int| 0 <= x < m.keys().len() && #[trigger] m.keys()[x] == c && part == m.parts()[x]
    ||| (part.len() == 0 && forall|y: int| 0 <= y < m.keys().len() ==> #[trigger] m.keys()[y] != c)
}

/// The per-chromosome accumulation behind the cross-chromosome ratio: for
/// every chromosome in the union of the two maps' key sets, in ascending
/// order, the fraction-derived depth and the overlap counts of that
/// chromosome's pair of partitions.
pub open spec fn across_bundle(
    m1: ChromMap,
    m2: ChromMap,
    bs: int,
    frac: Frac,
    kseq: Seq<Seq<u8>>,
    parts1: Seq<Seq<EntryS>>,
    parts2: Seq<Seq<EntryS>>,
    ks: Seq<int>,
    os: Seq<int>,
    ts: Seq<int>,
) -> bool {
    &&& crate::chrom_map::keys_sorted(kseq)
    &&& (forall|c: Seq<u8>|
        #[trigger] crate::chrom_map::has_key(kseq, c) <==> (crate::chrom_map::has_key(
            m1.keys(),
            c,
        ) || crate::chrom_map::has_key(m2.keys(), c)))
    &&& parts1.len() == kseq.len()
    &&& parts2.len() == kseq.len()
    &&& ks.len() == kseq.len()
    &&& os.len() == kseq.len()
    &&& ts.len() == kseq.len()
    &&& (forall|j: int|
        0 <= j < kseq.len() ==> chrom_slot(m1, #[trigger] kseq[j], parts1[j]) && chrom_slot(
            m2,
            kseq[j],
            parts2[j],
        ))
    &&& (forall|j: int|
        0 <= j < kseq.len() ==> k_of(#[trigger] parts1[j], parts2[j], bs, frac, ks[j]) && counts_of(
            parts1[j],
            parts2[j],
            bs,
            ks[j],
            os[j],
            ts[j],
        ))
}

/// The cross-chromosome overlap ratio: numerator and denominator are
/// accumulated over every chromosome of the union before dividing, each
/// chromosome comparing its own top fraction; a missing partition stands
/// for the empty one.
#[verifier::rlimit(100)]
pub fn get_top_k_fraction_overlap_ratio_across_chroms(
    m1: &ChromMap,
    m2: &ChromMap,
    top_k_fraction: Rat,
    bin_size: i64,
) -> (r: Result<Rat, Error>)
    requires
        m1.wf(),
        m2.wf(),
        top_k_fraction.wf(),
        top_k_fraction@.n >= 0,
        forall|i: int|
            0 <= i < m1.parts().len() && bin_size >= 1 && (#[trigger] m1.parts()[i]).len() > 0
                ==> m1.parts()[i][0].lo >= i64::MIN + bin_size && m1.parts()[i].last().hi
                <= i64::MAX - bin_size,
        forall|i: int|
            0 <= i < m2.parts().len() && bin_size >= 1 && (#[trigger] m2.parts()[i]).len() > 0
                ==> m2.parts()[i][0].lo >= i64::MIN + bin_size && m2.parts()[i].last().hi
                <= i64::MAX - bin_size,
    ensures
        match r {
            Ok(x) => x.wf() && exists|
                kseq: Seq<Seq<u8>>,
                parts1: Seq<Seq<EntryS>>,
                parts2: Seq<Seq<EntryS>>,
                ks: Seq<int>,
                os: Seq<int>,
                ts: Seq<int>,
            |
                #[trigger] across_bundle(
                    *m1,
                    *m2,
                    bin_size as int,
                    top_k_fraction@,
                    kseq,
                    parts1,
                    parts2,
                    ks,
                    os,
                    ts,
                ) && int_sum(ts, ts.len() as int) >= 1 && x@ == (Frac {
                    n: int_sum(os, os.len() as int),
                    d: int_sum(ts, ts.len() as int),
                }),
            Err(e) => e == Error::InvalidRange || e == Error::Overflow
                || e == Error::NormalizationFailure,
        },
        r == Err::<Rat, Error>(Error::InvalidRange) <==> bin_size < 0,
{
    if bin_size < 0 {
        return Err(Error::InvalidRange);
    }
    let empty1 = Partition::new();
    let empty2 = Partition::new();
    let k1 = crate::chrom_map::get_sorted_keys(m1);
    let k2 = crate::chrom_map::get_sorted_keys(m2);
    let keys = crate::chrom_map::merge_keys(&k1, &k2);
    let nk = keys.len();
    let mut num: i64 = 0;
    let mut den: i64 = 0;
    let ghost mut kseq: Seq<Seq<u8>> = Seq::empty();
    let ghost mut parts1: Seq<Seq<EntryS>> = Seq::empty();
    let ghost mut parts2: Seq<Seq<EntryS>> = Seq::empty();
    let ghost mut ks: Seq<int> = Seq::empty();
    let ghost mut os: Seq<int> = Seq::empty();
    let ghost mut ts: Seq<int> = Seq::empty();
    let mut j: usize = 0;
    while j < nk
        invariant
            j <= nk,
            nk == keys@.len(),
            m1.wf(),
            m2.wf(),
            top_k_fraction.wf(),
            top_k_fraction@.n >= 0,
            bin_size >= 0,
            empty1.wf(),
            empty1@.len() == 0,
            empty2.wf(),
            empty2@.len() == 0,
            forall|i: int|
                0 <= i < m1.parts().len() && bin_size >= 1 && (#[trigger] m1.parts()[i]).len() > 0
                    ==> m1.parts()[i][0].lo >= i64::MIN + bin_size && m1.parts()[i].last().hi
                    <= i64::MAX - bin_size,
            forall|i: int|
                0 <= i < m2.parts().len() && bin_size >= 1 && (#[trigger] m2.parts()[i]).len() > 0
                    ==> m2.parts()[i][0].lo >= i64::MIN + bin_size && m2.parts()[i].last().hi
                    <= i64::MAX - bin_size,
            kseq =~= crate::chrom_map::keys_view(keys@).take(j as int),
            parts1.len() == j,
            parts2.len() == j,
            ks.len() == j,
            os.len() == j,
            ts.len() == j,
            forall|q: int|
                0 <= q < j as int ==> chrom_slot(*m1, #[trigger] kseq[q], parts1[q]) && chrom_slot(
                    *m2,
                    kseq[q],
                    parts2[q],
                ),
            forall|q: int|
                0 <= q < j as int ==> k_of(
                    #[trigger] parts1[q],
                    parts2[q],
                    bin_size as int,
                    top_k_fraction@,
                    ks[q],
                ) && counts_of(parts1[q], parts2[q], bin_size as int, ks[q], os[q], ts[q]),
            forall|q: int| 0 <= q < j as int ==> 0 <= #[trigger] os[q] <= ts[q],
            0 <= num <= den,
            num as int == int_sum(os, j as int),
            den as int == int_sum(ts, j as int),
        decreases nk - j,
    {
        let p1: &Partition = match m1.find(&keys[j]) {
            Some(x) => m1.part_at(x),
            None => &empty1,
        };
        let p2: &Partition = match m2.find(&keys[j]) {
            Some(x) => m2.part_at(x),
            None => &empty2,
        };
        let kk = match get_k(p1, p2, top_k_fraction, bin_size) {
            Ok(k) => k,
            Err(e) => {
                return Err(e);
            },
        };
        let (o, t) = match top_k_overlap_counts(p1, p2, kk, bin_size) {
            Ok(c) => c,
            Err(e) => {
                return Err(e);
            },
        };
        let num2 = match num.checked_add(o) {
            Some(v) => v,
            None => {
                return Err(Error::Overflow);
            },
        };
        let den2 = match den.checked_add(t) {
            Some(v) => v,
            None => {
                return Err(Error::Overflow);
            },
        };
        num = num2;
        den = den2;
        proof {
            kseq = kseq.push(keys@[j as int]@);
            parts1 = parts1.push(p1@);
            parts2 = parts2.push(p2@);
            ks = ks.push(kk as int);
            lemma_int_sum_push(os, o as int, j as int);
            lemma_int_sum_push(ts, t as int, j as int);
            os = os.push(o as int);
            ts = ts.push(t as int);
            assert(kseq =~= crate::chrom_map::keys_view(keys@).take(j as int + 1));
            assert(int_sum(os, j as int + 1) == int_sum(os, j as int) + os[j as int]);
            assert(int_sum(ts, j as int + 1) == int_sum(ts, j as int) + ts[j as int]);
        }
        j += 1;
    }
    if den == 0 {
        return Err(Error::NormalizationFailure);
    }
    let ratio = match Rat::new(num, den) {
        Some(x) => x,
        None => {
            proof {
                assert(false);
            }
            return Err(Error::Overflow);
        },
    };
    proof {
        assert(kseq =~= crate::chrom_map::keys_view(keys@));
        assert(across_bundle(
            *m1,
            *m2,
            bin_size as int,
            top_k_fraction@,
            kseq,
            parts1,
            parts2,
            ks,
            os,
            ts,
        )) by {
            assert forall|c: Seq<u8>|
                #[trigger] crate::chrom_map::has_key(kseq, c) <==> (crate::chrom_map::has_key(
                m1.keys(),
                c,
            ) || crate::chrom_map::has_key(m2.keys(), c)) by {
                assert(crate::chrom_map::has_key(crate::chrom_map::keys_view(keys@), c) <==> (
                crate::chrom_map::has_key(crate::chrom_map::keys_view(k1@), c)
                    || crate::chrom_map::has_key(crate::chrom_map::keys_view(k2@), c)));
                assert(crate::chrom_map::keys_view(k1@) =~= m1.keys());
                assert(crate::chrom_map::keys_view(k2@) =~= m2.keys());
            }
        }
    }
    Ok(ratio)
}

} // verus!
