use crate::error::Error;
use crate::interval::Interval;
use crate::partition::{
    entries_wf, entry_wf, ents, lemma_entries_ordered, lemma_ents_push, lemma_wf_push, Entry,
    EntryS, Partition,
};
use crate::rat::{
    frac_add, frac_div, frac_fits, frac_scale, frac_wf, frac_zero, lemma_rat_fits, Frac, Rat,
};
use crate::refine::entries_cover;
use vstd::arithmetic::div_mod::{
    lemma_div_is_ordered, lemma_mod_multiples_basic,
    lemma_fundamental_div_mod, lemma_fundamental_div_mod_converse, lemma_mod_bound,
};
use vstd::prelude::*;

verus! {

/// The aggregation rule of the binning transform: per bin, `Sum`
/// accumulates value times overlap length; `Average` divides that
/// accumulation by the bin's total covered length.
#[derive(Clone, Copy, Debug, PartialEq, Eq, Structural)]
pub enum AggregateOp {
    Sum,
    Average,
}

/// The number of points that entry `e` shares with `[lo, hi]`.
pub open spec fn overlap_len(e: EntryS, lo: int, hi: int) -> int {
    let a: int = if e.lo >= lo {
        e.lo
    } else {
        lo
    };
    let b: int = if e.hi <= hi {
        e.hi
    } else {
        hi
    };
    if b >= a {
        b - a + 1
    } else {
        0
    }
}

/// The accumulated value of the bin `[lo, hi]`: the sum over all entries of
/// value times overlap length, in entry order.
pub open spec fn bin_sum(s: Seq<EntryS>, lo: int, hi: int) -> Frac
    decreases s.len(),
{
    if s.len() == 0 {
        frac_zero()
    } else {
        let ol = overlap_len(s.last(), lo, hi);
        if ol > 0 {
            frac_add(bin_sum(s.drop_last(), lo, hi), frac_scale(s.last().v, ol))
        } else {
            bin_sum(s.drop_last(), lo, hi)
        }
    }
}

/// The number of points of `[lo, hi]` covered by the entries.
pub open spec fn covered_len(s: Seq<EntryS>, lo: int, hi: int) -> int
    decreases s.len(),
{
    if s.len() == 0 {
        0
    } else {
        covered_len(s.drop_last(), lo, hi) + overlap_len(s.last(), lo, hi)
    }
}

/// Whether every intermediate value of the bin's accumulation chain fits
/// the executable representation.
pub open spec fn bin_chain_fits(s: Seq<EntryS>, lo: int, hi: int) -> bool
    decreases s.len(),
{
    if s.len() == 0 {
        true
    } else {
        let ol = overlap_len(s.last(), lo, hi);
        &&& bin_chain_fits(s.drop_last(), lo, hi)
        &&& (ol > 0 ==> frac_fits(frac_scale(s.last().v, ol)) && frac_fits(
            frac_add(bin_sum(s.drop_last(), lo, hi), frac_scale(s.last().v, ol)),
        ))
    }
}

/// The value the bin `[lo, hi]` carries under the aggregation rule.
pub open spec fn bin_value(s: Seq<EntryS>, lo: int, hi: int, op: AggregateOp) -> Frac {
    match op {
        AggregateOp::Sum => bin_sum(s, lo, hi),
        AggregateOp::Average => frac_div(bin_sum(s, lo, hi), covered_len(s, lo, hi)),
    }
}

/// Whether the bin `[lo, hi]` can be computed exactly in the executable
/// representation.
pub open spec fn bin_fits(s: Seq<EntryS>, lo: int, hi: int, op: AggregateOp) -> bool {
    &&& bin_chain_fits(s, lo, hi)
    &&& (op is Average && covered_len(s, lo, hi) >= 1 ==> frac_fits(
        frac_div(bin_sum(s, lo, hi), covered_len(s, lo, hi)),
    ))
}

/// Whether every aligned bin can be computed exactly.
pub open spec fn all_bins_fit(s: Seq<EntryS>, bs: int, op: AggregateOp) -> bool {
    forall|lo: int| lo % bs == 0 ==> #[trigger] bin_fits(s, lo, lo + bs - 1, op)
}

pub proof fn lemma_take_wf(s: Seq<EntryS>, i: int)
    requires
        entries_wf(s),
        0 <= i <= s.len(),
    ensures
        entries_wf(s.take(i)),
{
    assert forall|j: int| 0 <= j < s.take(i).len() implies entry_wf(#[trigger] s.take(i)[j]) by {
        assert(s.take(i)[j] == s[j]);
    }
    assert forall|j: int|
        0 <= j && j + 1 < s.take(i).len() implies (#[trigger] s.take(i)[j].hi) < s.take(i)[j
        + 1].lo by {
        assert(s.take(i)[j] == s[j]);
        assert(s.take(i)[j + 1] == s[j + 1]);
    }
}

/// Unfolds one accumulation step over the prefix of length `i + 1`.
pub proof fn lemma_bin_step(s: Seq<EntryS>, i: int, lo: int, hi: int)
    requires
        0 <= i < s.len(),
    ensures
        bin_sum(s.take(i + 1), lo, hi) == (if overlap_len(s[i], lo, hi) > 0 {
            frac_add(bin_sum(s.take(i), lo, hi), frac_scale(s[i].v, overlap_len(s[i], lo, hi)))
        } else {
            bin_sum(s.take(i), lo, hi)
        }),
        covered_len(s.take(i + 1), lo, hi) == covered_len(s.take(i), lo, hi) + overlap_len(
            s[i],
            lo,
            hi,
        ),
        bin_chain_fits(s.take(i + 1), lo, hi) == (bin_chain_fits(s.take(i), lo, hi) && (overlap_len(
            s[i],
            lo,
            hi,
        ) > 0 ==> frac_fits(frac_scale(s[i].v, overlap_len(s[i], lo, hi))) && frac_fits(
            frac_add(bin_sum(s.take(i), lo, hi), frac_scale(s[i].v, overlap_len(s[i], lo, hi))),
        ))),
{
    assert(s.take(i + 1).drop_last() =~= s.take(i));
    assert(s.take(i + 1).last() == s[i]);
}

/// A prefix of entries that all miss the bin contributes nothing.
pub proof fn lemma_bin_zero_prefix(s: Seq<EntryS>, i: int, lo: int, hi: int)
    requires
        0 <= i <= s.len(),
        forall|j: int| 0 <= j < i ==> overlap_len(#[trigger] s[j], lo, hi) == 0,
    ensures
        bin_sum(s.take(i), lo, hi) == frac_zero(),
        covered_len(s.take(i), lo, hi) == 0,
        bin_chain_fits(s.take(i), lo, hi),
    decreases i,
{
    if i > 0 {
        lemma_bin_zero_prefix(s, i - 1, lo, hi);
        lemma_bin_step(s, i - 1, lo, hi);
    }
}

/// Entries beyond the prefix that all miss the bin change nothing.
pub proof fn lemma_bin_tail_zero(s: Seq<EntryS>, i: int, lo: int, hi: int)
    requires
        0 <= i <= s.len(),
        forall|j: int| i <= j < s.len() ==> overlap_len(#[trigger] s[j], lo, hi) == 0,
    ensures
        bin_sum(s, lo, hi) == bin_sum(s.take(i), lo, hi),
        covered_len(s, lo, hi) == covered_len(s.take(i), lo, hi),
        bin_chain_fits(s, lo, hi) == bin_chain_fits(s.take(i), lo, hi),
    decreases s.len() - i,
{
    if i < s.len() {
        lemma_bin_step(s, s.len() - 1, lo, hi);
        assert(s.take(s.len() as int) =~= s);
        lemma_bin_tail_zero(s.take(s.len() - 1), i, lo, hi);
        assert(s.take(s.len() - 1).take(i) =~= s.take(i));
        assert(overlap_len(s[s.len() - 1], lo, hi) == 0);
    } else {
        assert(s.take(i) =~= s);
    }
}

/// A fitting chain fits on every prefix.
pub proof fn lemma_chain_fits_prefix(s: Seq<EntryS>, i: int, lo: int, hi: int)
    requires
        0 <= i <= s.len(),
        bin_chain_fits(s, lo, hi),
    ensures
        bin_chain_fits(s.take(i), lo, hi),
    decreases s.len() - i,
{
    if i < s.len() {
        lemma_bin_step(s, s.len() - 1, lo, hi);
        assert(s.take(s.len() as int) =~= s);
        assert(bin_chain_fits(s.take(s.len() - 1), lo, hi));
        lemma_chain_fits_prefix(s.take(s.len() - 1), i, lo, hi);
        assert(s.take(s.len() - 1).take(i) =~= s.take(i));
    } else {
        assert(s.take(i) =~= s);
    }
}

/// A bin that no entry touches can always be computed.
pub proof fn lemma_bin_vacuous_fits(s: Seq<EntryS>, lo: int, hi: int, op: AggregateOp)
    requires
        forall|j: int| 0 <= j < s.len() ==> overlap_len(#[trigger] s[j], lo, hi) == 0,
    ensures
        bin_fits(s, lo, hi, op),
{
    lemma_bin_zero_prefix(s, s.len() as int, lo, hi);
    assert(s.take(s.len() as int) =~= s);
}

/// The covered length of a bin is between zero and the bin's size.
pub proof fn lemma_covered_len_bound(s: Seq<EntryS>, lo: int, hi: int)
    requires
        entries_wf(s),
        lo <= hi,
    ensures
        0 <= covered_len(s, lo, hi) <= hi - lo + 1,
        s.len() > 0 ==> covered_len(s, lo, hi) <= ({
            let b: int = if s.last().hi <= hi {
                s.last().hi
            } else {
                hi
            };
            if b - lo + 1 >= 0 {
                b - lo + 1
            } else {
                0
            }
        }),
    decreases s.len(),
{
    if s.len() > 0 {
        crate::partition::lemma_entries_wf_drop_last(s);
        lemma_covered_len_bound(s.drop_last(), lo, hi);
        if s.len() > 1 {
            assert(s.drop_last().last() == s[s.len() - 2]);
            assert(s[s.len() - 2].hi < s.last().lo);
        }
    }
}

/// A covered point lies in some overlapping entry, and conversely.
pub proof fn lemma_covered_len_pos(s: Seq<EntryS>, i: int, lo: int, hi: int)
    requires
        0 <= i < s.len(),
        overlap_len(s[i], lo, hi) > 0,
        forall|j: int| 0 <= j < s.len() ==> overlap_len(#[trigger] s[j], lo, hi) >= 0,
    ensures
        covered_len(s, lo, hi) >= overlap_len(s[i], lo, hi),
    decreases s.len(),
{
    if i == s.len() - 1 {
        lemma_covered_nonneg(s.drop_last(), lo, hi);
    } else {
        assert forall|j: int|
            0 <= j < s.drop_last().len() implies overlap_len(
            #[trigger] s.drop_last()[j],
            lo,
            hi,
        ) >= 0 by {
            assert(s.drop_last()[j] == s[j]);
        }
        assert(s.drop_last()[i] == s[i]);
        lemma_covered_len_pos(s.drop_last(), i, lo, hi);
    }
}

pub proof fn lemma_covered_nonneg(s: Seq<EntryS>, lo: int, hi: int)
    requires
        forall|j: int| 0 <= j < s.len() ==> overlap_len(#[trigger] s[j], lo, hi) >= 0,
    ensures
        covered_len(s, lo, hi) >= 0,
    decreases s.len(),
{
    if s.len() > 0 {
        assert forall|j: int|
            0 <= j < s.drop_last().len() implies overlap_len(
            #[trigger] s.drop_last()[j],
            lo,
            hi,
        ) >= 0 by {
            assert(s.drop_last()[j] == s[j]);
        }
        lemma_covered_nonneg(s.drop_last(), lo, hi);
    }
}

/// Integer division by a positive divisor moves toward zero and stays in
/// the dividend's range.
pub proof fn lemma_div_bounds(x: int, d: int)
    requires
        d >= 1,
    ensures
        x >= 0 ==> 0 <= x / d <= x,
        x <= 0 ==> x <= x / d <= 0,
        d * (x / d) <= x < d * (x / d) + d,
{
    lemma_fundamental_div_mod(x, d);
    lemma_mod_bound(x, d);
    let q = x / d;
    let r = x % d;
    if x >= 0 {
        assert(0 <= q <= x) by (nonlinear_arith)
            requires
                x == d * q + r,
                0 <= r < d,
                d >= 1,
                x >= 0,
        ;
    } else {
        assert(x <= q <= 0) by (nonlinear_arith)
            requires
                x == d * q + r,
                0 <= r < d,
                d >= 1,
                x <= 0,
        ;
    }
}

/// Floor division by a positive divisor.
pub fn floor_div(x: i64, d: i64) -> (q: i64)
    requires
        d >= 1,
        x > i64::MIN,
    ensures
        q as int == x as int / d as int,
{
    if x >= 0 {
        let xu: u64 = x as u64;
        let du: u64 = d as u64;
        let qu: u64 = xu / du;
        proof {
            lemma_div_bounds(x as int, d as int);
        }
        qu as i64
    } else {
        let neg: u64 = (-x) as u64;
        let du: u64 = d as u64;
        let qu: u64 = (neg + (du - 1)) / du;
        proof {
            lemma_div_bounds((neg + (du - 1)) as int, du as int);
            assert(qu as int <= neg as int) by (nonlinear_arith)
                requires
                    qu as int == (neg as int + du as int - 1) / (du as int),
                    du as int * (qu as int) <= neg as int + du as int - 1,
                    du as int >= 1,
                    neg as int >= 1,
            ;
            lemma_fundamental_div_mod(neg as int + d as int - 1, d as int);
            lemma_mod_bound(neg as int + d as int - 1, d as int);
            lemma_div_bounds(neg as int + d as int - 1, d as int);
            let r: int = x as int - d as int * (-(qu as int));
            assert(0 <= r < d as int) by (nonlinear_arith)
                requires
                    neg as int + d as int - 1 == d as int * (qu as int) + ((neg as int + d as int
                        - 1) % (d as int)),
                    0 <= (neg as int + d as int - 1) % (d as int) < d as int,
                    x as int == -(neg as int),
                    r == x as int - d as int * (-(qu as int)),
                    d as int >= 1,
            ;
            assert(x as int == (-(qu as int)) * (d as int) + r) by (nonlinear_arith)
                requires
                    r == x as int - d as int * (-(qu as int)),
            ;
            lemma_fundamental_div_mod_converse(x as int, d as int, -(qu as int), r);
        }
        -(qu as i64)
    }
}

/// Euclidean remainder by a positive divisor.
pub fn mod_floor(x: i64, d: i64) -> (m: i64)
    requires
        d >= 1,
        x > i64::MIN,
    ensures
        m as int == x as int % d as int,
        0 <= m < d,
{
    proof {
        lemma_fundamental_div_mod(x as int, d as int);
        lemma_mod_bound(x as int, d as int);
    }
    if x >= 0 {
        let xu: u64 = x as u64;
        let du: u64 = d as u64;
        let mu: u64 = xu % du;
        mu as i64
    } else {
        let neg: u64 = (-x) as u64;
        let du: u64 = d as u64;
        let nd: u64 = neg % du;
        proof {
            lemma_fundamental_div_mod(neg as int, d as int);
            lemma_mod_bound(neg as int, d as int);
            if nd == 0 {
                assert(x as int == (-(neg as int / d as int)) * (d as int) + 0) by (nonlinear_arith)
                    requires
                        neg as int == (d as int) * (neg as int / d as int),
                        x as int == -(neg as int),
                ;
                lemma_fundamental_div_mod_converse(x as int, d as int, -(neg as int / d as int), 0);
            } else {
                assert(x as int == (-(neg as int / d as int) - 1) * (d as int) + (d as int - nd as int))
                    by (nonlinear_arith)
                    requires
                        neg as int == (d as int) * (neg as int / d as int) + (nd as int),
                        x as int == -(neg as int),
                ;
                lemma_fundamental_div_mod_converse(
                    x as int,
                    d as int,
                    -(neg as int / d as int) - 1,
                    d as int - nd as int,
                );
            }
        }
        if nd == 0 {
            0
        } else {
            d - (nd as i64)
        }
    }
}

/// Rebins a partition into fixed-size, zero-aligned bins `[k*bs, (k+1)*bs - 1]`.
/// A bin size of zero is a pass-through; a negative bin size is rejected.
/// Each emitted bin carries the aggregate of the entries overlapping it,
/// under the chosen rule; bins with no covering entry are omitted.
#[verifier::rlimit(100)]
pub fn bin_partition(src: &Partition, bin_size: i64, op: AggregateOp) -> (out: Result<
    Partition,
    Error,
>)
    requires
        src.wf(),
        bin_size >= 1 && src@.len() > 0 ==> src@[0].lo >= i64::MIN + bin_size
            && src@.last().hi <= i64::MAX - bin_size,
    ensures
        match out {
            Ok(p) => {
                &&& p.wf()
                &&& (bin_size == 0 ==> p@ == src@)
                &&& (bin_size >= 1 ==> {
                    let bs = bin_size as int;
                    &&& forall|j: int|
                        0 <= j < p@.len() ==> (#[trigger] p@[j]).lo % bs == 0 && p@[j].hi == p@[j].lo
                            + bs - 1
                    &&& forall|j: int|
                        0 <= j < p@.len() ==> (#[trigger] p@[j]).v == bin_value(
                            src@,
                            p@[j].lo,
                            p@[j].hi,
                            op,
                        ) && covered_len(src@, p@[j].lo, p@[j].hi) >= 1
                    &&& forall|q: int|
                        entries_cover(src@, q) ==> exists|j: int|
                            0 <= j < p@.len() && (#[trigger] p@[j]).lo <= q <= p@[j].hi
                })
            },
            Err(e) => e == Error::InvalidRange || e == Error::Overflow,
        },
        out == Err::<Partition, Error>(Error::InvalidRange) <==> bin_size < 0,
        out == Err::<Partition, Error>(Error::Overflow) <==> (bin_size >= 1 && !all_bins_fit(
            src@,
            bin_size as int,
            op,
        )),
{
    let ghost s = src@;
    let n = src.len();
    if bin_size < 0 {
        return Err(Error::InvalidRange);
    }
    proof {
        lemma_entries_ordered(s);
    }
    if bin_size == 0 {
        // pass-through
        let mut outv: Vec<Entry> = Vec::new();
        let mut i: usize = 0;
        while i < n
            invariant
                i <= n,
                n == s.len(),
                src.wf(),
                s == src@,
                ents(outv@) =~= s.take(i as int),
            decreases n - i,
        {
            let ghost ov = outv@;
            let e = *src.get(i);
            outv.push(e);
            proof {
                lemma_ents_push(ov, e);
                assert(s.take(i as int + 1) =~= s.take(i as int).push(s[i as int]));
            }
            i += 1;
        }
        proof {
            assert(s.take(n as int) =~= s);
            assert(bin_size as int >= 1 ==> all_bins_fit(s, bin_size as int, op));
        }
        return Ok(Partition::from_entries(outv));
    }
    let ghost bs = bin_size as int;
    let mut out: Vec<Entry> = Vec::new();
    let mut icur: usize = 0;
    let mut pos: i128 = i64::MIN as i128;

    while icur < n
        invariant
            icur <= n,
            n == s.len(),
            src.wf(),
            s == src@,
            bin_size >= 1,
            bs == bin_size as int,
            s.len() > 0 ==> s[0].lo >= i64::MIN + bs && s.last().hi <= i64::MAX - bs,
            forall|i: int, j: int| 0 <= i < j < s.len() ==> (#[trigger] s[i]).hi < (
            #[trigger] s[j]).lo,
            i64::MIN as int <= pos as int <= i64::MAX as int + 1,
            pos as int == i64::MIN as int ==> icur == 0,
            pos as int == i64::MIN as int || pos as int % bs == 0,
            pos as int == i64::MIN as int || pos as int >= i64::MIN as int + bs,
            forall|j: int| 0 <= j < icur as int ==> (#[trigger] s[j]).hi < pos as int,
            icur < n ==> s[icur as int].hi >= pos as int,
            entries_wf(ents(out@)),
            ents(out@).len() > 0 ==> ents(out@).last().hi < pos as int,
            forall|j: int|
                0 <= j < ents(out@).len() ==> (#[trigger] ents(out@)[j]).lo % bs == 0 && ents(
                    out@,
                )[j].hi == ents(out@)[j].lo + bs - 1,
            forall|j: int|
                0 <= j < ents(out@).len() ==> (#[trigger] ents(out@)[j]).v == bin_value(
                    s,
                    ents(out@)[j].lo,
                    ents(out@)[j].hi,
                    op,
                ) && covered_len(s, ents(out@)[j].lo, ents(out@)[j].hi) >= 1 && bin_fits(
                    s,
                    ents(out@)[j].lo,
                    ents(out@)[j].hi,
                    op,
                ),
            forall|q: int|
                q < pos as int && entries_cover(s, q) ==> exists|j: int|
                    0 <= j < ents(out@).len() && (#[trigger] ents(out@)[j]).lo <= q <= ents(
                        out@,
                    )[j].hi,
        decreases n - icur, i64::MAX as int + 1 - pos as int,
    {
        let e = *src.get(icur);
        proof {
            assert(e@ == s[icur as int]);
            assert(entry_wf(s[icur as int]));
            if icur > 0 {
                assert(s[0].hi < s[icur as int].lo);
            }
            assert(e.iv.start >= i64::MIN + bin_size);
            assert(e.iv.end <= i64::MAX - bin_size);
        }
        // the first covered point of the next bin to emit
        let point: i64 = if (e.iv.start as i128) > pos {
            e.iv.start
        } else {
            pos as i64
        };
        proof {
            lemma_div_bounds(point as int, bs);
            assert(point as int >= i64::MIN as int + bs);
            assert(entry_wf(s[s.len() - 1]));
            if (icur as int) < s.len() - 1 {
                assert(s[icur as int].hi < s[s.len() - 1].lo);
            }
            assert(point as int <= s[s.len() - 1].hi);
        }
        let kb: i64 = floor_div(point, bin_size);
        proof {
            assert((kb as int) * (bin_size as int) == bs * (point as int / bs))
                by (nonlinear_arith)
                requires
                    kb as int == point as int / bs,
                    bs == bin_size as int,
            ;
        }
        let binlo: i64 = kb * bin_size;
        let binhi: i64 = binlo + bin_size - 1;
        proof {
            assert(kb as int == point as int / bs);
            assert(binlo as int == bs * (point as int / bs));
            assert(binlo as int <= point as int <= binhi as int);
            assert(binlo as int % bs == 0) by {
                lemma_mod_multiples_basic(kb as int, bs);
            }
            // the bin starts at or after the write position
            if pos as int != i64::MIN as int {
                assert(binlo as int >= pos as int) by {
                    lemma_div_is_ordered(pos as int, point as int, bs);
                    lemma_fundamental_div_mod(pos as int, bs);
                    assert(bs * (pos as int / bs) == pos as int);
                    assert(bs * (pos as int / bs) <= bs * (point as int / bs)) by (nonlinear_arith)
                        requires
                            pos as int / bs <= point as int / bs,
                            bs >= 1,
                    ;
                }
            }
            lemma_bin_zero_prefix(s, icur as int, binlo as int, binhi as int);
            assert(s[icur as int].lo <= point as int <= s[icur as int].hi);
        }
        // accumulate every entry overlapping this bin
        let mut acc = Rat::zero();
        let mut cov: i64 = 0;
        let mut ii: usize = icur;
        while ii < n && src.get(ii).iv.start <= binhi
            invariant
                icur <= ii <= n,
                n == s.len(),
                src.wf(),
                s == src@,
                bin_size >= 1,
                bs == bin_size as int,
                forall|i: int, j: int| 0 <= i < j < s.len() ==> (#[trigger] s[i]).hi < (
                #[trigger] s[j]).lo,
                icur < n,
                binlo as int <= i64::MAX,
                binhi as int == binlo as int + bs - 1,
                binlo as int % bs == 0,
                binlo as int <= point as int <= binhi as int,
                s[icur as int].lo <= point as int <= s[icur as int].hi,
                acc.wf(),
                acc@ == bin_sum(s.take(ii as int), binlo as int, binhi as int),
                cov as int == covered_len(s.take(ii as int), binlo as int, binhi as int),
                0 <= cov as int <= bs,
                bin_chain_fits(s.take(ii as int), binlo as int, binhi as int),
                ii > icur ==> cov >= 1,
            decreases n - ii,
        {
            let ee = *src.get(ii);
            proof {
                assert(ee@ == s[ii as int]);
                assert(entry_wf(s[ii as int]));
            }
            let a: i64 = if ee.iv.start >= binlo {
                ee.iv.start
            } else {
                binlo
            };
            let b: i64 = if ee.iv.end <= binhi {
                ee.iv.end
            } else {
                binhi
            };
            proof {
                lemma_bin_step(s, ii as int, binlo as int, binhi as int);
                lemma_take_wf(s, ii as int + 1);
                lemma_covered_len_bound(
                    s.take(ii as int + 1),
                    binlo as int,
                    binhi as int,
                );
            }
            if b >= a {
                let ol: i64 = b - a + 1;
                proof {
                    assert(ol as int == overlap_len(s[ii as int], binlo as int, binhi as int));
                    if ii == icur {
                        // the bin was chosen to touch this entry
                        assert(a as int <= point as int <= b as int);
                    }
                }
                let term = match ee.val.checked_scale(ol) {
                    Some(c) => c,
                    None => {
                        proof {
                            assert(!bin_chain_fits(s, binlo as int, binhi as int)) by {
                                if bin_chain_fits(s, binlo as int, binhi as int) {
                                    lemma_chain_fits_prefix(
                                        s,
                                        ii as int + 1,
                                        binlo as int,
                                        binhi as int,
                                    );
                                }
                            }
                            assert(!bin_fits(s, binlo as int, binlo as int + bs - 1, op));
                        }
                        return Err(Error::Overflow);
                    },
                };
                let acc2 = match acc.checked_add(term) {
                    Some(x) => x,
                    None => {
                        proof {
                            assert(!bin_chain_fits(s, binlo as int, binhi as int)) by {
                                if bin_chain_fits(s, binlo as int, binhi as int) {
                                    lemma_chain_fits_prefix(
                                        s,
                                        ii as int + 1,
                                        binlo as int,
                                        binhi as int,
                                    );
                                }
                            }
                            assert(!bin_fits(s, binlo as int, binlo as int + bs - 1, op));
                        }
                        return Err(Error::Overflow);
                    },
                };
                proof {
                    lemma_rat_fits(term);
                    lemma_rat_fits(acc2);
                }
                acc = acc2;
                cov = cov + ol;
            } else {
                proof {
                    if ii == icur {
                        assert(a as int <= point as int);
                        assert(point as int <= b as int);
                    }
                }
            }
            ii += 1;
        }
        proof {
            // entries at or beyond the stop point miss the bin entirely
            assert forall|j: int| ii as int <= j < s.len() implies overlap_len(
                #[trigger] s[j],
                binlo as int,
                binhi as int,
            ) == 0 by {
                if j > ii as int {
                    assert(s[ii as int].hi < s[j].lo);
                    assert(s[ii as int].lo <= s[ii as int].hi);
                }
            }
            lemma_bin_tail_zero(s, ii as int, binlo as int, binhi as int);
            assert(ii > icur);
            assert(cov >= 1);
        }
        let value = match op {
            AggregateOp::Sum => acc,
            AggregateOp::Average => match acc.checked_div_int(cov) {
                Some(v) => v,
                None => {
                    proof {
                        assert(!bin_fits(s, binlo as int, binlo as int + bs - 1, op));
                    }
                    return Err(Error::Overflow);
                },
            },
        };
        proof {
            lemma_rat_fits(value);
        }
        let ghost ov = out@;
        let ghost prev = ents(out@);
        let newe = Entry { iv: Interval { start: binlo, end: binhi }, val: value };
        out.push(newe);
        proof {
            lemma_ents_push(ov, newe);
            lemma_wf_push(prev, newe@);
            assert forall|j: int|
                0 <= j < ents(out@).len() implies (#[trigger] ents(out@)[j]).lo % bs == 0 && ents(
                out@,
            )[j].hi == ents(out@)[j].lo + bs - 1 && ents(out@)[j].v == bin_value(
                s,
                ents(out@)[j].lo,
                ents(out@)[j].hi,
                op,
            ) && covered_len(s, ents(out@)[j].lo, ents(out@)[j].hi) >= 1 && bin_fits(
                s,
                ents(out@)[j].lo,
                ents(out@)[j].hi,
                op,
            ) by {
                if j < prev.len() {
                    assert(ents(out@)[j] == prev[j]);
                } else {
                    assert(ents(out@)[j] == newe@);
                    assert(overlap_len(s[icur as int], binlo as int, binhi as int) >= 1);
                    lemma_covered_len_pos(s, icur as int, binlo as int, binhi as int);
                }
            }
            // coverage below the new position is complete
            assert forall|q: int|
                q < binhi as int + 1 && entries_cover(s, q) implies exists|j: int|
                    0 <= j < ents(out@).len() && (#[trigger] ents(out@)[j]).lo <= q <= ents(
                        out@,
                    )[j].hi by {
                if q < pos as int {
                    let j = choose|j: int|
                        0 <= j < prev.len() && (#[trigger] prev[j]).lo <= q <= prev[j].hi;
                    assert(ents(out@)[j].lo <= q <= ents(out@)[j].hi);
                } else if q < binlo as int {
                    // the skipped region holds no covered point
                    let j = choose|j: int| 0 <= j < s.len() && (#[trigger] s[j]).lo <= q <= s[j].hi;
                    if j < icur as int {
                    } else {
                        assert(s[j].lo >= s[icur as int].lo || j == icur as int);
                        if j > icur as int {
                            assert(s[icur as int].hi < s[j].lo);
                        }
                        assert(s[j].lo <= q);
                        assert(point as int <= q);
                        assert(binlo as int <= q);
                    }
                    assert(false);
                } else {
                    let j = ents(out@).len() - 1;
                    assert(ents(out@)[j].lo <= q <= ents(out@)[j].hi);
                }
            }
        }
        // consume the entries that end inside this bin
        while icur < n && src.get(icur).iv.end <= binhi
            invariant
                icur <= n,
                n == s.len(),
                src.wf(),
                s == src@,
                binhi as int <= i64::MAX,
                forall|j: int| 0 <= j < icur as int ==> (#[trigger] s[j]).hi <= binhi as int,
            decreases n - icur,
        {
            proof {
                assert(s[icur as int] == src@[icur as int]);
            }
            icur += 1;
        }
        pos = binhi as i128 + 1;
        proof {
            lemma_mod_multiples_basic(kb as int + 1, bs);
            assert(pos as int == bs * (kb as int + 1)) by (nonlinear_arith)
                requires
                    pos as int == binlo as int + bs,
                    binlo as int == kb as int * bs,
            ;
        }
    }
    proof {
        // every covered point is below the final position
        assert forall|q: int| entries_cover(s, q) implies exists|j: int|
            0 <= j < ents(out@).len() && (#[trigger] ents(out@)[j]).lo <= q <= ents(out@)[j].hi by {
            let j = choose|j: int| 0 <= j < s.len() && (#[trigger] s[j]).lo <= q <= s[j].hi;
            assert(s[j].hi < pos as int);
        }
        // every aligned bin fits: emitted ones were checked, the rest are
        // untouched
        assert forall|lo: int| lo % bs == 0 implies #[trigger] bin_fits(
            s,
            lo,
            lo + bs - 1,
            op,
        ) by {
            if exists|j: int| 0 <= j < ents(out@).len() && (#[trigger] ents(out@)[j]).lo == lo {
                let j = choose|j: int|
                    0 <= j < ents(out@).len() && (#[trigger] ents(out@)[j]).lo == lo;
                assert(bin_fits(s, lo, lo + bs - 1, op));
            } else {
                assert forall|j: int| 0 <= j < s.len() implies overlap_len(
                    #[trigger] s[j],
                    lo,
                    lo + bs - 1,
                ) == 0 by {
                    if overlap_len(s[j], lo, lo + bs - 1) > 0 {
                        let q: int = if s[j].lo >= lo {
                            s[j].lo
                        } else {
                            lo
                        };
                        assert(s[j].lo <= q <= s[j].hi);
                        assert(lo <= q <= lo + bs - 1);
                        assert(entries_cover(s, q));
                        let jj = choose|jj: int|
                            0 <= jj < ents(out@).len() && (#[trigger] ents(out@)[jj]).lo <= q
                                <= ents(out@)[jj].hi;
                        lemma_aligned_unique(q, lo, bs);
                        lemma_aligned_unique(q, ents(out@)[jj].lo, bs);
                        assert(ents(out@)[jj].lo == lo);
                    }
                }
                lemma_bin_vacuous_fits(s, lo, lo + bs - 1, op);
            }
        }
    }
    Ok(Partition::from_entries(out))
}

/// The aligned bin containing `p` is unique.
pub proof fn lemma_aligned_unique(p: int, lo: int, bs: int)
    requires
        bs >= 1,
        lo % bs == 0,
        lo <= p <= lo + bs - 1,
    ensures
        lo == bs * (p / bs),
{
    lemma_fundamental_div_mod(lo, bs);
    assert(p == (lo / bs) * bs + (p - lo)) by (nonlinear_arith)
        requires
            lo == bs * (lo / bs),
    ;
    lemma_fundamental_div_mod_converse(p, bs, lo / bs, p - lo);
}

} // verus!
