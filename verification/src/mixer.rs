use crate::binning::{bin_partition, AggregateOp};
use crate::error::Error;
use crate::partition::{ents, entries_wf, lemma_ents_push, lemma_wf_push, Entry, EntryS, Partition};
use crate::rat::{
    frac_add, frac_fits, frac_lt, frac_mul, frac_neg, frac_scale, frac_wf, frac_zero,
    lemma_rat_fits, Frac, Rat,
};
use crate::refine::{common_refinement, rows, rows_wf, Row, RowS};
use crate::top_k::binned_of;
use vstd::prelude::*;

verus! {

/// The weighted combination of one refined row's values: the sum of
/// coefficient times value, an absent value counting as zero.
pub open spec fn mix_val(ws: Seq<Frac>, vs: Seq<Option<Frac>>, i: int) -> Frac
    decreases i,
{
    if i <= 0 {
        frac_zero()
    } else {
        let prev = mix_val(ws, vs, i - 1);
        match vs[i - 1] {
            Some(v) => frac_add(prev, frac_mul(ws[i - 1], v)),
            None => prev,
        }
    }
}

/// Whether the combination chain stays representable.
pub open spec fn mix_fits(ws: Seq<Frac>, vs: Seq<Option<Frac>>, i: int) -> bool
    decreases i,
{
    if i <= 0 {
        true
    } else {
        &&& mix_fits(ws, vs, i - 1)
        &&& (vs[i - 1] is Some ==> frac_fits(frac_mul(ws[i - 1], vs[i - 1]->0)) && frac_fits(
            frac_add(mix_val(ws, vs, i - 1), frac_mul(ws[i - 1], vs[i - 1]->0)),
        ))
    }
}

/// The view of a weight vector.
pub open spec fn weights_view(ws: Seq<Rat>) -> Seq<Frac> {
    ws.map_values(|w: Rat| w@)
}

/// Combines one refined row's optional values with the given coefficients:
/// the row's mixed value is the sum of coefficient times value, an absent
/// value contributing zero.
pub fn mix_row_values(weights: &Vec<Rat>, vals: &Vec<Option<Rat>>) -> (r: Result<Rat, Error>)
    requires
        weights@.len() == vals@.len(),
        forall|i: int| 0 <= i < weights@.len() ==> (#[trigger] weights@[i]).wf(),
        forall|i: int|
            0 <= i < vals@.len() ==> ((#[trigger] vals@[i]) is Some ==> frac_wf(
                crate::refine::o2f(vals@[i])->0,
            )),
    ensures
        ({
            let ws = weights_view(weights@);
            let vs = vals@.map_values(|o: Option<Rat>| crate::refine::o2f(o));
            match r {
                Ok(x) => x.wf() && x@ == mix_val(ws, vs, vs.len() as int) && mix_fits(
                    ws,
                    vs,
                    vs.len() as int,
                ),
                Err(e) => e == Error::Overflow && !mix_fits(ws, vs, vs.len() as int),
            }
        }),
{
    let ghost ws = weights_view(weights@);
    let ghost vs = vals@.map_values(|o: Option<Rat>| crate::refine::o2f(o));
    let n = vals.len();
    let mut acc = Rat::zero();
    let mut i: usize = 0;
    while i < n
        invariant
            i <= n,
            n == vals@.len(),
            n == weights@.len(),
            ws == weights_view(weights@),
            vs == vals@.map_values(|o: Option<Rat>| crate::refine::o2f(o)),
            forall|j: int| 0 <= j < weights@.len() ==> (#[trigger] weights@[j]).wf(),
            forall|j: int|
                0 <= j < vals@.len() ==> ((#[trigger] vals@[j]) is Some ==> frac_wf(
                    crate::refine::o2f(vals@[j])->0,
                )),
            acc.wf(),
            acc@ == mix_val(ws, vs, i as int),
            mix_fits(ws, vs, i as int),
        decreases n - i,
    {
        proof {
            assert(vs[i as int] == crate::refine::o2f(vals@[i as int]));
            assert(ws[i as int] == weights@[i as int]@);
        }
        match vals[i] {
            Some(v) => {
                let term = match weights[i].checked_mul(v) {
                    Some(t) => t,
                    None => {
                        proof {
                            lemma_mix_unfit(ws, vs, i as int + 1, n as int);
                        }
                        return Err(Error::Overflow);
                    },
                };
                let acc2 = match acc.checked_add(term) {
                    Some(a) => a,
                    None => {
                        proof {
                            lemma_mix_unfit(ws, vs, i as int + 1, n as int);
                        }
                        return Err(Error::Overflow);
                    },
                };
                proof {
                    lemma_rat_fits(term);
                    lemma_rat_fits(acc2);
                }
                acc = acc2;
            },
            None => {},
        }
        i += 1;
    }
    Ok(acc)
}

/// A chain that fails at some prefix fails as a whole.
pub proof fn lemma_mix_unfit(ws: Seq<Frac>, vs: Seq<Option<Frac>>, i: int, n: int)
    requires
        0 < i <= n,
        !mix_fits(ws, vs, i),
    ensures
        !mix_fits(ws, vs, n),
    decreases n - i,
{
    if i < n {
        lemma_mix_unfit(ws, vs, i + 1, n);
    }
}

/// The optional symmetric clamp applied to every value before it enters a
/// correlation: `Identity` keeps the value; `Thresholding(t)` restricts it
/// to `[-t, t]`.
#[derive(Clone, Copy, Debug)]
pub enum ValueTransform {
    Identity,
    Thresholding(Rat),
}

pub open spec fn transform_wf(t: ValueTransform) -> bool {
    match t {
        ValueTransform::Identity => true,
        ValueTransform::Thresholding(th) => th.wf() && th@.n >= 0,
    }
}

/// The clamp in specification space.
pub open spec fn transform_spec(t: ValueTransform, v: Frac) -> Frac {
    match t {
        ValueTransform::Identity => v,
        ValueTransform::Thresholding(th) => if frac_lt(th@, v) {
            th@
        } else if frac_lt(v, frac_neg(th@)) {
            frac_neg(th@)
        } else {
            v
        },
    }
}

pub fn apply_transform(value: Rat, transform: ValueTransform) -> (r: Rat)
    requires
        value.wf(),
        transform_wf(transform),
    ensures
        r.wf(),
        r@ == transform_spec(transform, value@),
{
    match transform {
        ValueTransform::Identity => value,
        ValueTransform::Thresholding(th) => {
            let neg_th = th.neg();
            if th.lt(&value) {
                th
            } else if value.lt(&neg_th) {
                neg_th
            } else {
                value
            }
        },
    }
}

/// The length-weighted sum of a partition's values.
pub open spec fn wsum(s: Seq<EntryS>, i: int) -> Frac
    decreases i,
{
    if i <= 0 {
        frac_zero()
    } else {
        frac_add(wsum(s, i - 1), frac_scale(s[i - 1].v, s[i - 1].hi - s[i - 1].lo + 1))
    }
}

pub open spec fn wsum_fits(s: Seq<EntryS>, i: int) -> bool
    decreases i,
{
    if i <= 0 {
        true
    } else {
        &&& wsum_fits(s, i - 1)
        &&& frac_fits(frac_scale(s[i - 1].v, s[i - 1].hi - s[i - 1].lo + 1))
        &&& frac_fits(frac_add(wsum(s, i - 1), frac_scale(s[i - 1].v, s[i - 1].hi - s[i - 1].lo + 1)))
    }
}

pub proof fn lemma_wsum_unfit(s: Seq<EntryS>, i: int, n: int)
    requires
        0 < i <= n,
        !wsum_fits(s, i),
    ensures
        !wsum_fits(s, n),
    decreases n - i,
{
    if i < n {
        lemma_wsum_unfit(s, i + 1, n);
    }
}

/// Sums value times interval size over the whole partition: the weighted
/// sum that normalization divides by.
pub fn weighted_sum(p: &Partition) -> (r: Result<Rat, Error>)
    requires
        p.wf(),
        forall|j: int| 0 <= j < p@.len() ==> (#[trigger] p@[j]).hi - p@[j].lo < i64::MAX,
    ensures
        match r {
            Ok(x) => x.wf() && x@ == wsum(p@, p@.len() as int) && wsum_fits(p@, p@.len() as int),
            Err(e) => e == Error::Overflow && !wsum_fits(p@, p@.len() as int),
        },
{
    let ghost s = p@;
    let n = p.len();
    let mut acc = Rat::zero();
    let mut i: usize = 0;
    while i < n
        invariant
            i <= n,
            n == p@.len(),
            s == p@,
            p.wf(),
            forall|j: int| 0 <= j < p@.len() ==> (#[trigger] p@[j]).hi - p@[j].lo < i64::MAX,
            acc.wf(),
            acc@ == wsum(s, i as int),
            wsum_fits(s, i as int),
        decreases n - i,
    {
        let e = *p.get(i);
        proof {
            assert(e@ == s[i as int]);
            assert(crate::partition::entry_wf(s[i as int]));
        }
        let size: i64 = e.iv.end - e.iv.start + 1;
        let term = match e.val.checked_scale(size) {
            Some(t) => t,
            None => {
                proof {
                    lemma_wsum_unfit(s, i as int + 1, n as int);
                }
                return Err(Error::Overflow);
            },
        };
        let acc2 = match acc.checked_add(term) {
            Some(a) => a,
            None => {
                proof {
                    lemma_wsum_unfit(s, i as int + 1, n as int);
                }
                return Err(Error::Overflow);
            },
        };
        proof {
            lemma_rat_fits(term);
            lemma_rat_fits(acc2);
        }
        acc = acc2;
        i += 1;
    }
    Ok(acc)
}

/// Multiplies every value of a partition by a fixed scaling factor,
/// keeping the intervals.
pub fn scale_partition(p: &Partition, scaling: Rat) -> (r: Result<Partition, Error>)
    requires
        p.wf(),
        scaling.wf(),
    ensures
        match r {
            Ok(q) => {
                &&& q.wf()
                &&& q@.len() == p@.len()
                &&& forall|j: int|
                    0 <= j < p@.len() ==> (#[trigger] q@[j]).lo == p@[j].lo && q@[j].hi == p@[j].hi
                        && q@[j].v == frac_mul(p@[j].v, scaling@)
            },
            Err(e) => e == Error::Overflow && exists|j: int|
                0 <= j < p@.len() && !frac_fits(frac_mul((#[trigger] p@[j]).v, scaling@)),
        },
{
    let ghost s = p@;
    let n = p.len();
    let mut out: Vec<Entry> = Vec::new();
    let mut i: usize = 0;
    while i < n
        invariant
            i <= n,
            n == p@.len(),
            s == p@,
            p.wf(),
            scaling.wf(),
            ents(out@).len() == i,
            entries_wf(ents(out@)),
            forall|j: int|
                0 <= j < i as int ==> (#[trigger] ents(out@)[j]).lo == s[j].lo && ents(
                    out@,
                )[j].hi == s[j].hi && ents(out@)[j].v == frac_mul(s[j].v, scaling@),
        decreases n - i,
    {
        let e = *p.get(i);
        proof {
            assert(e@ == s[i as int]);
            assert(crate::partition::entry_wf(s[i as int]));
        }
        let v2 = match e.val.checked_mul(scaling) {
            Some(v) => v,
            None => {
                proof {
                    assert(!frac_fits(frac_mul(s[i as int].v, scaling@)));
                }
                return Err(Error::Overflow);
            },
        };
        let ghost ov = out@;
        let piece = Entry { iv: e.iv, val: v2 };
        proof {
            if i > 0 {
                assert(ents(out@).last().hi == s[i as int - 1].hi);
                assert(s[i as int - 1].hi < s[i as int].lo);
            }
            lemma_rat_fits(v2);
            lemma_wf_push(ents(out@), piece@);
        }
        out.push(piece);
        proof {
            lemma_ents_push(ov, piece);
        }
        i += 1;
    }
    Ok(Partition::from_entries(out))
}

/// Bins every source with the `Average` rule and produces their common
/// refinement: one row per refined interval, one optional value per
/// source. The rows cover exactly the union of the binned sources' spans
/// and cut only at their bin edges.
pub fn zip_binned(sources: &Vec<Partition>, bin_size: i64) -> (r: Result<Vec<Row>, Error>)
    requires
        forall|s: int| 0 <= s < sources@.len() ==> (#[trigger] sources@[s]).wf(),
        forall|s: int|
            0 <= s < sources@.len() ==> (bin_size >= 1 && (#[trigger] sources@[s])@.len() > 0
                ==> sources@[s]@[0].lo >= i64::MIN + bin_size && sources@[s]@.last().hi <= i64::MAX
                - bin_size),
    ensures
        r is Ok <==> (sources@.len() >= 1 && (bin_size == 0 || (bin_size >= 1 && forall|s: int|
            0 <= s < sources@.len() ==> crate::binning::all_bins_fit(
                (#[trigger] sources@[s])@,
                bin_size as int,
                AggregateOp::Average,
            )))),
        match r {
            Ok(rws) => sources@.len() >= 1 && rows_wf(rows(rws@), sources@.len() as nat) && exists|
                binned: Seq<Seq<EntryS>>,
            |
                #[trigger] binned.len() == sources@.len() && (forall|s: int|
                    0 <= s < sources@.len() ==> (bin_size >= 1 ==> binned_of(
                        (#[trigger] sources@[s])@,
                        bin_size as int,
                        AggregateOp::Average,
                        binned[s],
                    )) && (bin_size == 0 ==> binned[s] == sources@[s]@) && (forall|j: int|
                        0 <= j < rws@.len() ==> crate::refine::row_src_ok(
                            #[trigger] rows(rws@)[j],
                            s,
                            binned[s],
                        ))) && (forall|p: int|
                    crate::refine::rows_cover(rows(rws@), p) <==> exists|s: int|
                        0 <= s < binned.len() && crate::refine::entries_cover(
                            #[trigger] binned[s],
                            p,
                        )) && (forall|j: int|
                    0 <= j < rws@.len() ==> crate::refine::edge_upto(
                        binned,
                        binned.len() as int,
                        (#[trigger] rows(rws@)[j]).hi,
                    ) && crate::refine::edge_upto(binned, binned.len() as int, rows(rws@)[j].lo - 1)),
            Err(e) => e == Error::SourceEmpty || e == Error::InvalidRange || e == Error::Overflow,
        },
        sources@.len() == 0 ==> r == Err::<Vec<Row>, Error>(Error::SourceEmpty),
        bin_size < 0 && sources@.len() > 0 ==> r == Err::<Vec<Row>, Error>(Error::InvalidRange),
{
    if sources.len() == 0 {
        return Err(Error::SourceEmpty);
    }
    let n = sources.len();
    let mut binned: Vec<Partition> = Vec::new();
    let mut i: usize = 0;
    while i < n
        invariant
            i <= n,
            n == sources@.len(),
            forall|s: int| 0 <= s < sources@.len() ==> (#[trigger] sources@[s]).wf(),
            forall|s: int|
                0 <= s < sources@.len() ==> (bin_size >= 1 && (#[trigger] sources@[s])@.len() > 0
                    ==> sources@[s]@[0].lo >= i64::MIN + bin_size && sources@[s]@.last().hi
                    <= i64::MAX - bin_size),
            binned@.len() == i,
            forall|s: int| 0 <= s < i as int ==> (#[trigger] binned@[s]).wf(),
            forall|s: int|
                0 <= s < i as int ==> (bin_size >= 1 ==> binned_of(
                    sources@[s]@,
                    bin_size as int,
                    AggregateOp::Average,
                    (#[trigger] binned@[s])@,
                )) && (bin_size == 0 ==> binned@[s]@ == sources@[s]@),
            forall|s: int|
                0 <= s < i as int && bin_size >= 1 ==> crate::binning::all_bins_fit(
                    (#[trigger] sources@[s])@,
                    bin_size as int,
                    AggregateOp::Average,
                ),
            i > 0 ==> bin_size >= 0,
        decreases n - i,
    {
        let b = match bin_partition(&sources[i], bin_size, AggregateOp::Average) {
            Ok(b) => b,
            Err(e) => {
                return Err(e);
            },
        };
        binned.push(b);
        i += 1;
    }
    let rws = match common_refinement(&binned) {
        Ok(r) => r,
        Err(e) => {
            return Err(e);
        },
    };
    proof {
        let bseq = Seq::new(n as nat, |s: int| binned@[s]@);
        assert(bseq.len() == sources@.len());
        assert forall|s: int|
            0 <= s < sources@.len() implies (bin_size >= 1 ==> binned_of(
            (#[trigger] sources@[s])@,
            bin_size as int,
            AggregateOp::Average,
            bseq[s],
        )) && (bin_size == 0 ==> bseq[s] == sources@[s]@) && (forall|j: int|
            0 <= j < rws@.len() ==> crate::refine::row_src_ok(
                #[trigger] rows(rws@)[j],
                s,
                bseq[s],
            )) by {
            assert(bseq[s] == binned@[s]@);
        }
        assert(bseq =~= crate::refine::parts_view(binned@));
        assert forall|p: int|
            crate::refine::rows_cover(rows(rws@), p) <==> exists|s: int|
                0 <= s < bseq.len() && crate::refine::entries_cover(#[trigger] bseq[s], p) by {
            if crate::refine::rows_cover(rows(rws@), p) {
                let s = choose|s: int|
                    0 <= s < binned@.len() && crate::refine::entries_cover(
                        (#[trigger] binned@[s])@,
                        p,
                    );
                assert(crate::refine::entries_cover(bseq[s], p));
            }
            if exists|s: int|
                0 <= s < bseq.len() && crate::refine::entries_cover(#[trigger] bseq[s], p) {
                let s = choose|s: int|
                    0 <= s < bseq.len() && crate::refine::entries_cover(#[trigger] bseq[s], p);
                assert(crate::refine::entries_cover(binned@[s]@, p));
            }
        }
        assert forall|j: int|
            0 <= j < rws@.len() implies crate::refine::edge_upto(
            bseq,
            bseq.len() as int,
            (#[trigger] rows(rws@)[j]).hi,
        ) && crate::refine::edge_upto(bseq, bseq.len() as int, rows(rws@)[j].lo - 1) by {
            assert(crate::refine::edge_upto(
                crate::refine::parts_view(binned@),
                binned@.len() as int,
                rows(rws@)[j].hi,
            ));
            assert(crate::refine::edge_upto(
                crate::refine::parts_view(binned@),
                binned@.len() as int,
                rows(rws@)[j].lo - 1,
            ));
        }
    }
    Ok(rws)
}

/// The anchoring of refined rows to their weighted sources: `binned` is
/// the Average-binned form of each source (the source itself at bin size
/// zero) and `rws` is their common refinement — well formed, value-correct
/// per source, covering exactly the union of the binned spans, and cut
/// only at bin edges.
pub open spec fn mixed_rows_of(
    srcs: Seq<Partition>,
    bs: int,
    binned: Seq<Seq<EntryS>>,
    rws: Seq<RowS>,
) -> bool {
    &&& binned.len() == srcs.len()
    &&& forall|s: int|
        0 <= s < srcs.len() ==> (bs >= 1 ==> binned_of(
            (#[trigger] srcs[s])@,
            bs,
            AggregateOp::Average,
            binned[s],
        )) && (bs == 0 ==> binned[s] == srcs[s]@)
    &&& rows_wf(rws, srcs.len() as nat)
    &&& forall|j: int, s: int|
        0 <= j < rws.len() && 0 <= s < srcs.len() ==> crate::refine::row_src_ok(
            #[trigger] rws[j],
            s,
            #[trigger] binned[s],
        )
    &&& forall|p: int|
        crate::refine::rows_cover(rws, p) <==> exists|s: int|
            0 <= s < binned.len() && crate::refine::entries_cover(#[trigger] binned[s], p)
    &&& forall|j: int|
        0 <= j < rws.len() ==> crate::refine::edge_upto(
            binned,
            binned.len() as int,
            (#[trigger] rws[j]).hi,
        ) && crate::refine::edge_upto(binned, binned.len() as int, rws[j].lo - 1)
}

/// The linear mixture of one chromosome: bins every weighted source with
/// the `Average` rule, common-refines the binned sources, and gives each
/// refined interval the weighted sum of its values (absent values count as
/// zero). This folds the sources into one partition exactly.
#[verifier::rlimit(100)]
pub fn mix_binned_sources(weights: &Vec<Rat>, sources: &Vec<Partition>, bin_size: i64) -> (r:
    Result<Partition, Error>)
    requires
        weights@.len() == sources@.len(),
        forall|i: int| 0 <= i < weights@.len() ==> (#[trigger] weights@[i]).wf(),
        forall|s: int| 0 <= s < sources@.len() ==> (#[trigger] sources@[s]).wf(),
        forall|s: int|
            0 <= s < sources@.len() ==> (bin_size >= 1 && (#[trigger] sources@[s])@.len() > 0
                ==> sources@[s]@[0].lo >= i64::MIN + bin_size && sources@[s]@.last().hi <= i64::MAX
                - bin_size),
    ensures
        r is Ok ==> (sources@.len() >= 1 && (bin_size == 0 || (bin_size >= 1 && forall|s: int|
            0 <= s < sources@.len() ==> crate::binning::all_bins_fit(
                (#[trigger] sources@[s])@,
                bin_size as int,
                AggregateOp::Average,
            )))),
        match r {
            Ok(p) => p.wf() && exists|binned: Seq<Seq<EntryS>>, rws: Seq<RowS>|
                #[trigger] mixed_rows_of(sources@, bin_size as int, binned, rws) && p@.len()
                    == rws.len() && (forall|j: int|
                    0 <= j < rws.len() ==> (#[trigger] p@[j]).lo == rws[j].lo && p@[j].hi
                        == rws[j].hi && p@[j].v == mix_val(
                        weights_view(weights@),
                        rws[j].vs,
                        sources@.len() as int,
                    )),
            Err(e) => e == Error::SourceEmpty || e == Error::InvalidRange || e == Error::Overflow,
        },
        r == Err::<Partition, Error>(Error::Overflow) ==> ((bin_size >= 1 && exists|s: int|
            0 <= s < sources@.len() && !crate::binning::all_bins_fit(
                (#[trigger] sources@[s])@,
                bin_size as int,
                AggregateOp::Average,
            )) || exists|binned: Seq<Seq<EntryS>>, rws: Seq<RowS>|
            #[trigger] mixed_rows_of(sources@, bin_size as int, binned, rws) && exists|j: int|
                0 <= j < rws.len() && !mix_fits(
                    weights_view(weights@),
                    (#[trigger] rws[j]).vs,
                    sources@.len() as int,
                )),
        sources@.len() == 0 ==> r == Err::<Partition, Error>(Error::SourceEmpty),
{
    let rws = match zip_binned(sources, bin_size) {
        Ok(r) => r,
        Err(e) => {
            return Err(e);
        },
    };
    let ghost rv = crate::refine::rows(rws@);
    let ghost bnd = choose|binned: Seq<Seq<EntryS>>|
        #[trigger] binned.len() == sources@.len() && (forall|s: int|
            0 <= s < sources@.len() ==> (bin_size >= 1 ==> binned_of(
                (#[trigger] sources@[s])@,
                bin_size as int,
                AggregateOp::Average,
                binned[s],
            )) && (bin_size == 0 ==> binned[s] == sources@[s]@) && (forall|j: int|
                0 <= j < rws@.len() ==> crate::refine::row_src_ok(
                    #[trigger] rows(rws@)[j],
                    s,
                    binned[s],
                ))) && (forall|p: int|
            crate::refine::rows_cover(rows(rws@), p) <==> exists|s: int|
                0 <= s < binned.len() && crate::refine::entries_cover(#[trigger] binned[s], p))
            && (forall|j: int|
            0 <= j < rws@.len() ==> crate::refine::edge_upto(
                binned,
                binned.len() as int,
                (#[trigger] rows(rws@)[j]).hi,
            ) && crate::refine::edge_upto(binned, binned.len() as int, rows(rws@)[j].lo - 1));
    proof {
        assert(mixed_rows_of(sources@, bin_size as int, bnd, rv)) by {
            assert forall|j: int, s: int|
                0 <= j < rv.len() && 0 <= s < sources@.len() implies crate::refine::row_src_ok(
                #[trigger] rv[j],
                s,
                #[trigger] bnd[s],
            ) by {
                assert((sources@[s]).wf());
                assert(crate::refine::row_src_ok(rows(rws@)[j], s, bnd[s]));
            }
        }
    }
    let n = rws.len();
    let nsrc = sources.len();
    let mut out: Vec<Entry> = Vec::new();
    let mut i: usize = 0;
    while i < n
        invariant
            i <= n,
            n == rws@.len(),
            nsrc == sources@.len(),
            nsrc == weights@.len(),
            forall|j: int| 0 <= j < weights@.len() ==> (#[trigger] weights@[j]).wf(),
            rv == crate::refine::rows(rws@),
            rows_wf(rv, nsrc as nat),
            mixed_rows_of(sources@, bin_size as int, bnd, rv),
            ents(out@).len() == i,
            entries_wf(ents(out@)),
            forall|j: int|
                0 <= j < i as int ==> (#[trigger] ents(out@)[j]).lo == rv[j].lo && ents(
                    out@,
                )[j].hi == rv[j].hi && ents(out@)[j].v == mix_val(
                    weights_view(weights@),
                    rv[j].vs,
                    nsrc as int,
                ),
        decreases n - i,
    {
        proof {
            assert(rv[i as int] == rws@[i as int]@);
            assert(rv[i as int].vs.len() == nsrc);
            assert forall|t: int|
                0 <= t < rws@[i as int].vals@.len() implies ((#[trigger] rws@[i as
                int].vals@[t]) is Some ==> frac_wf(crate::refine::o2f(rws@[i as int].vals@[t])->0)) by {
                assert(rv[i as int].vs[t] == crate::refine::o2f(rws@[i as int].vals@[t]));
            }
        }
        let value = match mix_row_values(weights, &rws[i].vals) {
            Ok(v) => v,
            Err(e) => {
                proof {
                    assert(rws@[i as int].vals@.map_values(|o: Option<Rat>| crate::refine::o2f(o))
                        == rv[i as int].vs);
                    assert(!mix_fits(weights_view(weights@), rv[i as int].vs, nsrc as int));
                }
                return Err(e);
            },
        };
        proof {
            assert(rws@[i as int].vals@.map_values(|o: Option<Rat>| crate::refine::o2f(o)) == rv[i
                as int].vs);
            lemma_rat_fits(value);
            if i > 0 {
                assert(ents(out@).last().hi == rv[i as int - 1].hi);
                crate::refine::lemma_rows_ordered(rv, nsrc as nat);
            }
        }
        let ghost ov = out@;
        let piece = Entry { iv: rws[i].iv, val: value };
        proof {
            lemma_wf_push(ents(out@), piece@);
        }
        out.push(piece);
        proof {
            lemma_ents_push(ov, piece);
        }
        i += 1;
    }
    let p = Partition::from_entries(out);
    proof {
        assert(mixed_rows_of(sources@, bin_size as int, bnd, rv) && p@.len() == rv.len() && (forall|
            j: int,
        |
            0 <= j < rv.len() ==> (#[trigger] p@[j]).lo == rv[j].lo && p@[j].hi == rv[j].hi
                && p@[j].v == mix_val(weights_view(weights@), rv[j].vs, sources@.len() as int)));
    }
    Ok(p)
}


/// One weighted correlation observation of a two-source refined row: both
/// transformed values (absent counting as zero) and the row's weight.
pub open spec fn observation_of(t: ValueTransform, r: RowS, binned: bool, v1: Frac, v2: Frac, w: int) -> bool {
    &&& v1 == transform_spec(t, match r.vs[0] {
        Some(x) => x,
        None => frac_zero(),
    })
    &&& v2 == transform_spec(t, match r.vs[1] {
        Some(x) => x,
        None => frac_zero(),
    })
    &&& w == (if binned {
        1int
    } else {
        r.hi - r.lo + 1
    })
}

/// Turns common-refined two-source rows into weighted observations
/// `(v1, v2, weight)` for the correlation: missing values default to zero
/// and the clamp is applied to each value. Un-binned rows weigh by
/// interval length, so every base pair counts once; binned rows weigh
/// uniformly, each bin counting once as it already stands for an average.
pub fn correlation_observations(rows_in: &Vec<Row>, transform: ValueTransform, binned: bool) -> (r:
    Vec<(Rat, Rat, i64)>)
    requires
        rows_wf(crate::refine::rows(rows_in@), 2),
        transform_wf(transform),
        forall|j: int|
            0 <= j < rows_in@.len() ==> (#[trigger] crate::refine::rows(rows_in@)[j]).hi
                - crate::refine::rows(rows_in@)[j].lo < i64::MAX,
    ensures
        r@.len() == rows_in@.len(),
        forall|j: int|
            0 <= j < r@.len() ==> observation_of(
                transform,
                #[trigger] crate::refine::rows(rows_in@)[j],
                binned,
                (#[trigger] r@[j]).0@,
                r@[j].1@,
                r@[j].2 as int,
            ),
{
    let ghost rv = crate::refine::rows(rows_in@);
    let n = rows_in.len();
    let mut out: Vec<(Rat, Rat, i64)> = Vec::new();
    let mut i: usize = 0;
    while i < n
        invariant
            i <= n,
            n == rows_in@.len(),
            rv == crate::refine::rows(rows_in@),
            rows_wf(rv, 2),
            transform_wf(transform),
            forall|j: int| 0 <= j < rv.len() ==> (#[trigger] rv[j]).hi - rv[j].lo < i64::MAX,
            out@.len() == i,
            forall|j: int|
                0 <= j < i as int ==> observation_of(
                    transform,
                    #[trigger] rv[j],
                    binned,
                    (#[trigger] out@[j]).0@,
                    out@[j].1@,
                    out@[j].2 as int,
                ),
        decreases n - i,
    {
        proof {
            assert(rv[i as int] == rows_in@[i as int]@);
            assert(rv[i as int].vs.len() == 2);
            assert(rv[i as int].vs[0] == crate::refine::o2f(rows_in@[i as int].vals@[0]));
            assert(rv[i as int].vs[1] == crate::refine::o2f(rows_in@[i as int].vals@[1]));
        }
        let row = &rows_in[i];
        let raw1 = match row.vals[0] {
            Some(v) => v,
            None => Rat::zero(),
        };
        let raw2 = match row.vals[1] {
            Some(v) => v,
            None => Rat::zero(),
        };
        let v1 = apply_transform(raw1, transform);
        let v2 = apply_transform(raw2, transform);
        let w: i64 = if binned {
            1
        } else {
            row.iv.size()
        };
        let ghost ov = out@;
        out.push((v1, v2, w));
        proof {
            assert forall|j: int|
                0 <= j < out@.len() implies observation_of(
                transform,
                #[trigger] rv[j],
                binned,
                (#[trigger] out@[j]).0@,
                out@[j].1@,
                out@[j].2 as int,
            ) by {
                if j < ov.len() {
                    assert(out@[j] == ov[j]);
                } else {
                    assert(out@[j] == (v1, v2, w));
                }
            }
        }
        i += 1;
    }
    out
}

} // verus!
