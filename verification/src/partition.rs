use crate::error::Error;
use crate::interval::Interval;
use crate::rat::{frac_add, frac_fits, frac_wf, lemma_rat_fits, Frac, Rat};
use vstd::prelude::*;

verus! {

/// One entry of a partition in specification space.
pub struct EntryS {
    pub lo: int,
    pub hi: int,
    pub v: Frac,
}

/// An entry is a nonempty machine-representable interval with a
/// well-formed value.
pub open spec fn entry_wf(e: EntryS) -> bool {
    &&& i64::MIN <= e.lo <= e.hi <= i64::MAX
    &&& frac_wf(e.v)
}

/// A well-formed entry sequence: every entry well formed, and consecutive
/// entries strictly separated (`hi` strictly below the next `lo`; touching
/// at distance one is allowed).
pub open spec fn entries_wf(s: Seq<EntryS>) -> bool {
    &&& forall|i: int| 0 <= i < s.len() ==> entry_wf(#[trigger] s[i])
    &&& forall|i: int| 0 <= i && i + 1 < s.len() ==> (#[trigger] s[i].hi) < s[i + 1].lo
}

/// The value recorded at point `p`, scanning entries from the back.
pub open spec fn val_at(s: Seq<EntryS>, p: int) -> Option<Frac>
    decreases s.len(),
{
    if s.len() == 0 {
        None
    } else if s.last().lo <= p <= s.last().hi {
        Some(s.last().v)
    } else {
        val_at(s.drop_last(), p)
    }
}

/// Whether any entry records a value at point `p`.
pub open spec fn covered(s: Seq<EntryS>, p: int) -> bool {
    val_at(s, p) is Some
}

/// The pointwise effect of folding the scored interval `[lo, hi] -> v`
/// into a partition with entries `pre`.
pub open spec fn aggregate_target(pre: Seq<EntryS>, lo: int, hi: int, v: Frac, p: int) -> Option<
    Frac,
> {
    if lo <= p <= hi {
        match val_at(pre, p) {
            Some(w) => Some(frac_add(w, v)),
            None => Some(v),
        }
    } else {
        val_at(pre, p)
    }
}

/// Whether points `p` and `p + 1` lie inside one single entry.
pub open spec fn same_piece(s: Seq<EntryS>, p: int) -> bool {
    exists|i: int| 0 <= i < s.len() && (#[trigger] s[i]).lo <= p && p + 1 <= s[i].hi
}

/// Where the folded partition keeps two neighbouring points in one piece:
/// never across the new interval's edges, and otherwise exactly where they
/// already shared an entry, or where both are newly covered gap points of
/// the new interval. This pins the splitting: pieces break only at old
/// entry edges and at the new interval's edges, and are never merged.
pub open spec fn split_target(pre: Seq<EntryS>, lo: int, hi: int, p: int) -> bool {
    &&& p != hi
    &&& p + 1 != lo
    &&& (same_piece(pre, p) || (lo <= p && p + 1 <= hi && val_at(pre, p) is None && val_at(
        pre,
        p + 1,
    ) is None))
}

/// Appending an entry can only join points inside it.
pub proof fn lemma_same_piece_push(s: Seq<EntryS>, e: EntryS, p: int)
    ensures
        same_piece(s.push(e), p) == (same_piece(s, p) || (e.lo <= p && p + 1 <= e.hi)),
{
    let t = s.push(e);
    if same_piece(t, p) {
        let i = choose|i: int| 0 <= i < t.len() && (#[trigger] t[i]).lo <= p && p + 1 <= t[i].hi;
        if i < s.len() {
            assert(s[i].lo <= p && p + 1 <= s[i].hi);
        } else {
            assert(t[i] == e);
        }
    }
    if same_piece(s, p) {
        let i = choose|i: int| 0 <= i < s.len() && (#[trigger] s[i]).lo <= p && p + 1 <= s[i].hi;
        assert(t[i].lo <= p && p + 1 <= t[i].hi);
    }
    if e.lo <= p && p + 1 <= e.hi {
        assert(t[s.len() as int].lo <= p && p + 1 <= t[s.len() as int].hi);
    }
}

/// Points sharing an entry are both recorded.
pub proof fn lemma_same_piece_covered(s: Seq<EntryS>, p: int)
    requires
        entries_wf(s),
        same_piece(s, p),
    ensures
        val_at(s, p) is Some,
        val_at(s, p + 1) is Some,
{
    let i = choose|i: int| 0 <= i < s.len() && (#[trigger] s[i]).lo <= p && p + 1 <= s[i].hi;
    lemma_val_at_in_entry(s, i, p);
    lemma_val_at_in_entry(s, i, p + 1);
}

/// No single entry spans an entry's start boundary.
pub proof fn lemma_no_straddle_start(s: Seq<EntryS>, i: int, p: int)
    requires
        entries_wf(s),
        0 <= i < s.len(),
        s[i].lo == p + 1,
    ensures
        !same_piece(s, p),
{
    lemma_entries_ordered(s);
    if same_piece(s, p) {
        let j = choose|j: int| 0 <= j < s.len() && (#[trigger] s[j]).lo <= p && p + 1 <= s[j].hi;
        if j < i {
            assert(s[j].hi < s[i].lo);
        } else if j > i {
            assert(s[i].hi < s[j].lo);
            assert(entry_wf(s[i]));
        }
    }
}

pub proof fn lemma_entries_wf_drop_last(s: Seq<EntryS>)
    requires
        entries_wf(s),
        s.len() > 0,
    ensures
        entries_wf(s.drop_last()),
{
    assert forall|i: int| 0 <= i < s.drop_last().len() implies entry_wf(
        #[trigger] s.drop_last()[i],
    ) by {
        assert(s.drop_last()[i] == s[i]);
    }
    assert forall|i: int|
        0 <= i && i + 1 < s.drop_last().len() implies (#[trigger] s.drop_last()[i].hi)
        < s.drop_last()[i + 1].lo by {
        assert(s.drop_last()[i] == s[i]);
        assert(s.drop_last()[i + 1] == s[i + 1]);
    }
}

/// In a well-formed sequence, every earlier entry ends strictly before any
/// later entry begins.
pub proof fn lemma_entries_ordered(s: Seq<EntryS>)
    requires
        entries_wf(s),
    ensures
        forall|i: int, j: int| 0 <= i < j < s.len() ==> (#[trigger] s[i]).hi < (#[trigger] s[j]).lo,
    decreases s.len(),
{
    if s.len() > 1 {
        lemma_entries_wf_drop_last(s);
        lemma_entries_ordered(s.drop_last());
        assert forall|i: int, j: int| 0 <= i < j < s.len() implies (#[trigger] s[i]).hi < (
        #[trigger] s[j]).lo by {
            if j < s.len() - 1 {
                assert(s.drop_last()[i].hi < s.drop_last()[j].lo);
            } else {
                if i < j - 1 {
                    assert(s.drop_last()[i].hi < s.drop_last()[j - 1].lo);
                    assert(s[j - 1].lo <= s[j - 1].hi);
                }
                assert(s[j - 1].hi < s[j].lo);
            }
        }
    }
}

/// Appending an entry only changes the recorded values inside it.
pub proof fn lemma_val_at_push(s: Seq<EntryS>, e: EntryS, p: int)
    ensures
        val_at(s.push(e), p) == (if e.lo <= p <= e.hi {
            Some(e.v)
        } else {
            val_at(s, p)
        }),
{
    assert(s.push(e).last() == e);
    assert(s.push(e).drop_last() =~= s);
}

pub proof fn lemma_wf_push(s: Seq<EntryS>, e: EntryS)
    requires
        entries_wf(s),
        entry_wf(e),
        s.len() > 0 ==> s.last().hi < e.lo,
    ensures
        entries_wf(s.push(e)),
{
    let t = s.push(e);
    assert forall|i: int| 0 <= i < t.len() implies entry_wf(#[trigger] t[i]) by {
        if i < s.len() {
            assert(t[i] == s[i]);
        } else {
            assert(t[i] == e);
        }
    }
    assert forall|i: int| 0 <= i && i + 1 < t.len() implies (#[trigger] t[i].hi) < t[i + 1].lo by {
        if i + 1 < s.len() {
            assert(t[i] == s[i]);
            assert(t[i + 1] == s[i + 1]);
        } else {
            assert(t[i] == s[s.len() - 1]);
            assert(t[i + 1] == e);
        }
    }
}

/// A point inside entry `i` records exactly that entry's value.
pub proof fn lemma_val_at_in_entry(s: Seq<EntryS>, i: int, p: int)
    requires
        entries_wf(s),
        0 <= i < s.len(),
        s[i].lo <= p <= s[i].hi,
    ensures
        val_at(s, p) == Some(s[i].v),
    decreases s.len(),
{
    lemma_entries_ordered(s);
    if i == s.len() - 1 {
    } else {
        assert(s[i].hi < s[s.len() - 1].lo);
        lemma_entries_wf_drop_last(s);
        lemma_val_at_in_entry(s.drop_last(), i, p);
    }
}

/// A point inside no entry records nothing.
pub proof fn lemma_val_at_none_out(s: Seq<EntryS>, p: int)
    requires
        forall|j: int| 0 <= j < s.len() ==> !((#[trigger] s[j]).lo <= p <= s[j].hi),
    ensures
        val_at(s, p) == None::<Frac>,
    decreases s.len(),
{
    if s.len() > 0 {
        assert(!(s[s.len() - 1].lo <= p <= s[s.len() - 1].hi));
        assert forall|j: int|
            0 <= j < s.drop_last().len() implies !((#[trigger] s.drop_last()[j]).lo <= p
            <= s.drop_last()[j].hi) by {
            assert(s.drop_last()[j] == s[j]);
        }
        lemma_val_at_none_out(s.drop_last(), p);
    }
}

/// A recorded point lies inside some entry.
pub proof fn lemma_val_at_some_in(s: Seq<EntryS>, p: int)
    requires
        val_at(s, p) is Some,
    ensures
        exists|i: int|
            0 <= i < s.len() && (#[trigger] s[i]).lo <= p <= s[i].hi && val_at(s, p) == Some(
                s[i].v,
            ),
    decreases s.len(),
{
    if s.last().lo <= p <= s.last().hi {
        assert(s[s.len() - 1].lo <= p <= s[s.len() - 1].hi);
    } else {
        lemma_val_at_some_in(s.drop_last(), p);
        let i = choose|i: int|
            0 <= i < s.drop_last().len() && (#[trigger] s.drop_last()[i]).lo <= p
                <= s.drop_last()[i].hi && val_at(s.drop_last(), p) == Some(s.drop_last()[i].v);
        assert(s[i] == s.drop_last()[i]);
    }
}

/// Whether entry `e` shares a point with `[lo, hi]`.
pub open spec fn overlaps_s(e: EntryS, lo: int, hi: int) -> bool {
    e.lo <= hi && lo <= e.hi
}

/// Whether folding `[lo, hi] -> v` into `pre` produces a sum that does not
/// fit the executable representation.
pub open spec fn agg_overflow(pre: Seq<EntryS>, lo: int, hi: int, v: Frac) -> bool {
    exists|i: int|
        0 <= i < pre.len() && overlaps_s(#[trigger] pre[i], lo, hi) && !frac_fits(
            frac_add(pre[i].v, v),
        )
}

/// The image of an entry vector in specification space.
pub open spec fn ents(s: Seq<Entry>) -> Seq<EntryS> {
    s.map_values(|e: Entry| e@)
}

pub proof fn lemma_ents_push(s: Seq<Entry>, e: Entry)
    ensures
        ents(s.push(e)) =~= ents(s).push(e@),
{
}

/// The folding loop's output invariant: at or below the frontier `fr` the
/// output `g` already records the final pointwise values, and above it the
/// output records nothing yet.
pub open spec fn agg_inv(
    pre: Seq<EntryS>,
    g: Seq<EntryS>,
    fr: int,
    lo: int,
    hi: int,
    vv: Frac,
) -> bool {
    &&& entries_wf(g)
    &&& forall|p: int|
        p <= fr ==> #[trigger] val_at(g, p) == aggregate_target(pre, lo, hi, vv, p)
    &&& forall|p: int| p > fr ==> #[trigger] val_at(g, p) == None::<Frac>
    &&& (g.len() > 0 ==> g.last().hi <= fr)
    &&& forall|p: int|
        p + 1 <= fr ==> ((#[trigger] same_piece(g, p)) <==> split_target(pre, lo, hi, p))
    &&& forall|p: int| p + 1 > fr ==> !(#[trigger] same_piece(g, p))
}

/// Extending the output with one finished piece advances the frontier to
/// the piece's end, provided the piece records the target values and the
/// skipped zone below it has no target value.
pub proof fn lemma_agg_push_piece(
    pre: Seq<EntryS>,
    g: Seq<EntryS>,
    fr: int,
    lo: int,
    hi: int,
    vv: Frac,
    piece: EntryS,
)
    requires
        agg_inv(pre, g, fr, lo, hi, vv),
        entry_wf(piece),
        fr < piece.lo,
        forall|p: int|
            piece.lo <= p <= piece.hi ==> #[trigger] aggregate_target(pre, lo, hi, vv, p) == Some(
                piece.v,
            ),
        forall|p: int|
            fr < p < piece.lo ==> #[trigger] aggregate_target(pre, lo, hi, vv, p) == None::<Frac>,
        forall|p: int|
            piece.lo <= p && p + 1 <= piece.hi ==> #[trigger] split_target(pre, lo, hi, p),
        forall|p: int| fr < p + 1 <= piece.lo ==> !(#[trigger] split_target(pre, lo, hi, p)),
    ensures
        agg_inv(pre, g.push(piece), piece.hi, lo, hi, vv),
{
    lemma_wf_push(g, piece);
    let g2 = g.push(piece);
    assert forall|p: int| p <= piece.hi implies #[trigger] val_at(g2, p) == aggregate_target(
        pre,
        lo,
        hi,
        vv,
        p,
    ) by {
        lemma_val_at_push(g, piece, p);
    }
    assert forall|p: int| p > piece.hi implies #[trigger] val_at(g2, p) == None::<Frac> by {
        lemma_val_at_push(g, piece, p);
    }
    assert forall|p: int|
        p + 1 <= piece.hi implies ((#[trigger] same_piece(g2, p)) <==> split_target(
        pre,
        lo,
        hi,
        p,
    )) by {
        lemma_same_piece_push(g, piece, p);
        if piece.lo <= p && p + 1 <= piece.hi {
        } else if p + 1 <= fr {
        } else {
            if same_piece(g, p) {
                lemma_same_piece_covered(g, p);
            }
        }
    }
    assert forall|p: int| p + 1 > piece.hi implies !(#[trigger] same_piece(g2, p)) by {
        lemma_same_piece_push(g, piece, p);
        if same_piece(g, p) {
            lemma_same_piece_covered(g, p);
        }
    }
}

/// Points above the frontier and before the next unconsumed entry are in no
/// entry of `pre` at all.
pub proof fn lemma_pre_uncovered(pre: Seq<EntryS>, i: int, fr: int, p: int)
    requires
        entries_wf(pre),
        0 <= i <= pre.len(),
        forall|j: int| 0 <= j < i ==> (#[trigger] pre[j]).hi <= fr,
        fr < p,
        i < pre.len() ==> p < pre[i].lo,
    ensures
        val_at(pre, p) == None::<Frac>,
{
    lemma_entries_ordered(pre);
    assert forall|j: int| 0 <= j < pre.len() implies !((#[trigger] pre[j]).lo <= p <= pre[j].hi) by {
        if j < i {
        } else {
            assert(i < pre.len());
            if j > i {
                assert(pre[i].hi < pre[j].lo);
                assert(pre[i].lo <= pre[i].hi);
            }
        }
    }
    lemma_val_at_none_out(pre, p);
}

/// All consumed entries end at or below the frontier.
pub proof fn lemma_his_below(pre: Seq<EntryS>, i: int, fr: int)
    requires
        entries_wf(pre),
        0 <= i <= pre.len(),
        i > 0 ==> pre[i - 1].hi <= fr,
    ensures
        forall|j: int| 0 <= j < i ==> (#[trigger] pre[j]).hi <= fr,
{
    lemma_entries_ordered(pre);
    assert forall|j: int| 0 <= j < i implies (#[trigger] pre[j]).hi <= fr by {
        if j < i - 1 {
            assert(pre[j].hi < pre[i - 1].lo);
            assert(pre[i - 1].lo <= pre[i - 1].hi);
        }
    }
}

/// The handled frontier of the folding loop after consuming `i` entries
/// with write cursor `cur` (writing has begun once `cur > lo`).
pub open spec fn agg_frontier(pre: Seq<EntryS>, i: int, cur: int, lo: int) -> int {
    let a: int = if i > 0 {
        pre[i - 1].hi
    } else {
        lo - 0x4_0000_0000_0000_0000
    };
    let b: int = if cur > lo {
        cur - 1
    } else {
        lo - 0x4_0000_0000_0000_0000
    };
    if a >= b {
        a
    } else {
        b
    }
}

/// One entry of a partition: a nonempty interval and its value.
#[derive(Clone, Copy, Debug)]
pub struct Entry {
    pub iv: Interval,
    pub val: Rat,
}

impl View for Entry {
    type V = EntryS;

    open spec fn view(&self) -> EntryS {
        EntryS { lo: self.iv.start as int, hi: self.iv.end as int, v: self.val@ }
    }
}

/// A chromosome's signal: a disjoint, ascending-sorted sequence of scored
/// intervals. Gaps carry no value ("no data", not zero).
#[derive(Clone, Debug)]
pub struct Partition {
    entries: Vec<Entry>,
}

impl View for Partition {
    type V = Seq<EntryS>;

    closed spec fn view(&self) -> Seq<EntryS> {
        self.entries@.map_values(|e: Entry| e@)
    }
}

impl Partition {
    pub open spec fn wf(self) -> bool {
        entries_wf(self@)
    }

    pub fn new() -> (r: Partition)
        ensures
            r@ =~= Seq::<EntryS>::empty(),
            r.wf(),
    {
        Partition { entries: Vec::new() }
    }

    pub fn len(&self) -> (r: usize)
        ensures
            r == self@.len(),
    {
        self.entries.len()
    }

    pub fn get(&self, i: usize) -> (r: &Entry)
        requires
            i < self@.len(),
        ensures
            r@ == self@[i as int],
    {
        &self.entries[i]
    }

    /// Whether the interval shares at least one point with any entry: the
    /// test the exclusion filter drops reads by.
    pub fn overlaps_any(&self, iv: Interval) -> (r: bool)
        requires
            self.wf(),
        ensures
            r == exists|j: int|
                0 <= j < self@.len() && overlaps_s(#[trigger] self@[j], iv.start as int, iv.end as int),
    {
        let n = self.entries.len();
        let mut i: usize = 0;
        while i < n
            invariant
                i <= n,
                n == self@.len(),
                self.wf(),
                forall|j: int|
                    0 <= j < i as int ==> !overlaps_s(
                        #[trigger] self@[j],
                        iv.start as int,
                        iv.end as int,
                    ),
            decreases n - i,
        {
            let e = &self.entries[i];
            proof {
                assert(e@ == self@[i as int]);
            }
            if e.iv.start <= iv.end && iv.start <= e.iv.end {
                proof {
                    assert(overlaps_s(self@[i as int], iv.start as int, iv.end as int));
                }
                return true;
            }
            i += 1;
        }
        false
    }

    /// Builds a partition from an already disjoint, sorted entry vector.
    pub fn from_entries(entries: Vec<Entry>) -> (r: Partition)
        requires
            entries_wf(ents(entries@)),
        ensures
            r@ == ents(entries@),
            r.wf(),
    {
        Partition { entries }
    }

    /// Folds the scored interval `iv -> val` into the partition. Afterward
    /// every point of `iv` carries its prior value plus `val` (absent points
    /// start at an implicit zero and become present), and every point outside
    /// `iv` keeps its prior value and presence unchanged. Pieces are split at
    /// the boundaries of `iv`; adjacent pieces are never merged.
    ///
    /// An empty interval is rejected with `InvalidRange`; a sum that does not
    /// fit the value representation is rejected with `Overflow`; in both
    /// cases the partition is unchanged.
    #[verifier::rlimit(100)]
    #[verifier::loop_isolation(false)]
    pub fn aggregate(&mut self, iv: Interval, val: Rat) -> (r: Result<(), Error>)
        requires
            old(self).wf(),
            val.wf(),
        ensures
            final(self).wf(),
            r is Ok <==> (iv.wf() && !agg_overflow(
                old(self)@,
                iv.start as int,
                iv.end as int,
                val@,
            )),
            r is Ok ==> forall|p: int|
                #[trigger] val_at(final(self)@, p) == aggregate_target(
                    old(self)@,
                    iv.start as int,
                    iv.end as int,
                    val@,
                    p,
                ),
            r is Ok ==> forall|p: int|
                (#[trigger] same_piece(final(self)@, p)) <==> split_target(
                    old(self)@,
                    iv.start as int,
                    iv.end as int,
                    p,
                ),
            r is Err ==> final(self)@ == old(self)@ && (r == Err::<(), Error>(Error::InvalidRange)
                || r == Err::<(), Error>(Error::Overflow)),
            r == Err::<(), Error>(Error::InvalidRange) <==> !iv.wf(),
    {
        if iv.start > iv.end {
            return Err(Error::InvalidRange);
        }
        let ghost pre = self@;
        let ghost lo = iv.start as int;
        let ghost hi = iv.end as int;
        let ghost vv = val@;
        proof {
            lemma_entries_ordered(pre);
        }

        let n = self.entries.len();
        let mut out: Vec<Entry> = Vec::new();
        let mut cur: i128 = iv.start as i128;
        let mut i: usize = 0;

        proof {
            let fr0 = agg_frontier(pre, 0, lo, lo);
            assert forall|p: int| p <= fr0 implies #[trigger] val_at(ents(out@), p)
                == aggregate_target(pre, lo, hi, vv, p) by {
                assert forall|j: int| 0 <= j < pre.len() implies !((#[trigger] pre[j]).lo <= p
                    <= pre[j].hi) by {
                    assert(entry_wf(pre[j]));
                }
                lemma_val_at_none_out(pre, p);
            }
            assert forall|p: int|
                p + 1 <= fr0 implies ((#[trigger] same_piece(ents(out@), p)) <==> split_target(
                pre,
                lo,
                hi,
                p,
            )) by {
                if same_piece(pre, p) {
                    lemma_same_piece_covered(pre, p);
                    assert forall|j: int| 0 <= j < pre.len() implies !((#[trigger] pre[j]).lo <= p
                        + 1 <= pre[j].hi) by {
                        assert(entry_wf(pre[j]));
                    }
                    lemma_val_at_none_out(pre, p + 1);
                }
            }
            assert(agg_inv(pre, ents(out@), fr0, lo, hi, vv));
        }

        while i < n
            invariant
                i <= n,
                self@ == pre,
                n == pre.len(),
                lo <= cur as int <= hi + 1,
                agg_inv(pre, ents(out@), agg_frontier(pre, i as int, cur as int, lo), lo, hi, vv),
                ({
                    let fr = agg_frontier(pre, i as int, cur as int, lo);
                    &&& forall|j: int| i as int <= j < n ==> (#[trigger] pre[j]).lo > fr
                    &&& (fr <= cur as int - 1 || cur as int == hi + 1)
                }),
                (lo < cur as int && cur as int <= hi) ==> (i as int > 0 && pre[i as int - 1].lo
                    <= cur as int - 1 <= pre[i as int - 1].hi),
                forall|j: int|
                    0 <= j < i as int ==> (overlaps_s(#[trigger] pre[j], lo, hi) ==> frac_fits(
                        frac_add(pre[j].v, vv),
                    )),
            decreases n - i,
        {
            let e = self.entries[i];
            proof {
                assert(e@ == pre[i as int]);
                assert(entry_wf(pre[i as int]));
            }
            let ghost fr = agg_frontier(pre, i as int, cur as int, lo);
            let ghost mut curfr: int = fr;
            proof {
                lemma_his_below(pre, i as int, fr);
            }
            if e.iv.end < iv.start {
                // the entry lies entirely left of the new interval; writing
                // has not begun, so it is copied unchanged
                proof {
                    assert(cur as int == lo);
                }
                let ghost g0 = ents(out@);
                let ghost ov = out@;
                out.push(e);
                proof {
                    lemma_ents_push(ov, e);
                    assert forall|p: int| e@.lo <= p <= e@.hi implies #[trigger] aggregate_target(
                        pre,
                        lo,
                        hi,
                        vv,
                        p,
                    ) == Some(e@.v) by {
                        lemma_val_at_in_entry(pre, i as int, p);
                    }
                    assert forall|p: int| fr < p < e@.lo implies #[trigger] aggregate_target(
                        pre,
                        lo,
                        hi,
                        vv,
                        p,
                    ) == None::<Frac> by {
                        lemma_pre_uncovered(pre, i as int, fr, p);
                    }
                    assert forall|p: int|
                        e@.lo <= p && p + 1 <= e@.hi implies #[trigger] split_target(
                        pre,
                        lo,
                        hi,
                        p,
                    ) by {
                        assert(pre[i as int].lo <= p && p + 1 <= pre[i as int].hi);
                        assert(same_piece(pre, p));
                    }
                    assert forall|p: int| fr < p + 1 <= e@.lo implies !(#[trigger] split_target(
                        pre,
                        lo,
                        hi,
                        p,
                    )) by {
                        if p + 1 < e@.lo {
                            lemma_pre_uncovered(pre, i as int, fr, p + 1);
                            if same_piece(pre, p) {
                                lemma_same_piece_covered(pre, p);
                            }
                        } else {
                            lemma_no_straddle_start(pre, i as int, p);
                        }
                        assert(p < lo);
                    }
                    lemma_agg_push_piece(pre, g0, fr, lo, hi, vv, e@);
                    curfr = e@.hi;
                }
            } else if e.iv.start <= iv.end {
                // the entry overlaps the new interval: split it at the
                // boundaries of the new interval
                proof {
                    assert(cur as int <= hi);
                    assert(fr <= cur as int - 1);
                    if cur as int > lo {
                        assert(pre[i as int].lo > fr);
                        assert(e@.lo >= cur as int);
                    }
                }
                if e.iv.start < iv.start {
                    // left remainder of the entry, value unchanged
                    let ghost g0 = ents(out@);
                    let ghost ov = out@;
                    let piece = Entry {
                        iv: Interval { start: e.iv.start, end: iv.start - 1 },
                        val: e.val,
                    };
                    out.push(piece);
                    proof {
                        lemma_ents_push(ov, piece);
                        assert forall|p: int|
                            piece@.lo <= p <= piece@.hi implies #[trigger] aggregate_target(
                            pre,
                            lo,
                            hi,
                            vv,
                            p,
                        ) == Some(piece@.v) by {
                            lemma_val_at_in_entry(pre, i as int, p);
                        }
                        assert forall|p: int| curfr < p < piece@.lo implies #[trigger] aggregate_target(
                            pre,
                            lo,
                            hi,
                            vv,
                            p,
                        ) == None::<Frac> by {
                            lemma_pre_uncovered(pre, i as int, curfr, p);
                        }
                        assert forall|p: int|
                            piece@.lo <= p && p + 1 <= piece@.hi implies #[trigger] split_target(
                            pre,
                            lo,
                            hi,
                            p,
                        ) by {
                            assert(pre[i as int].lo <= p && p + 1 <= pre[i as int].hi);
                            assert(same_piece(pre, p));
                        }
                        assert forall|p: int|
                            curfr < p + 1 <= piece@.lo implies !(#[trigger] split_target(
                            pre,
                            lo,
                            hi,
                            p,
                        )) by {
                            if p + 1 < piece@.lo {
                                lemma_pre_uncovered(pre, i as int, curfr, p + 1);
                                if same_piece(pre, p) {
                                    lemma_same_piece_covered(pre, p);
                                }
                            } else {
                                lemma_no_straddle_start(pre, i as int, p);
                            }
                            assert(p < lo);
                        }
                        lemma_agg_push_piece(pre, g0, curfr, lo, hi, vv, piece@);
                        curfr = piece@.hi;
                    }
                }
                if cur < e.iv.start as i128 {
                    // gap of the new interval before the entry, carrying the
                    // new value
                    let gap_start: i64 = cur as i64;
                    let ghost g0 = ents(out@);
                    let ghost ov = out@;
                    let piece = Entry {
                        iv: Interval { start: gap_start, end: e.iv.start - 1 },
                        val: val,
                    };
                    out.push(piece);
                    proof {
                        lemma_ents_push(ov, piece);
                        assert forall|p: int|
                            piece@.lo <= p <= piece@.hi implies #[trigger] aggregate_target(
                            pre,
                            lo,
                            hi,
                            vv,
                            p,
                        ) == Some(piece@.v) by {
                            lemma_pre_uncovered(pre, i as int, curfr, p);
                            assert(lo <= p <= hi);
                        }
                        assert forall|p: int| curfr < p < piece@.lo implies #[trigger] aggregate_target(
                            pre,
                            lo,
                            hi,
                            vv,
                            p,
                        ) == None::<Frac> by {
                            lemma_pre_uncovered(pre, i as int, curfr, p);
                            assert(p < lo);
                        }
                        assert forall|p: int|
                            piece@.lo <= p && p + 1 <= piece@.hi implies #[trigger] split_target(
                            pre,
                            lo,
                            hi,
                            p,
                        ) by {
                            lemma_pre_uncovered(pre, i as int, curfr, p);
                            lemma_pre_uncovered(pre, i as int, curfr, p + 1);
                        }
                        assert forall|p: int|
                            curfr < p + 1 <= piece@.lo implies !(#[trigger] split_target(
                            pre,
                            lo,
                            hi,
                            p,
                        )) by {
                            if p + 1 == lo {
                            } else if p + 1 < lo {
                                lemma_pre_uncovered(pre, i as int, curfr, p + 1);
                                if same_piece(pre, p) {
                                    lemma_same_piece_covered(pre, p);
                                }
                            } else {
                                // the gap begins right after the last
                                // consumed entry's end
                                assert(p + 1 == cur as int);
                                assert(i as int > 0 && pre[i as int - 1].lo <= cur as int - 1
                                    <= pre[i as int - 1].hi);
                                lemma_val_at_in_entry(pre, i as int - 1, cur as int - 1);
                                lemma_pre_uncovered(pre, i as int, curfr, cur as int);
                                if same_piece(pre, p) {
                                    lemma_same_piece_covered(pre, p);
                                }
                            }
                        }
                        lemma_agg_push_piece(pre, g0, curfr, lo, hi, vv, piece@);
                        curfr = piece@.hi;
                    }
                }
                let olo: i64 = if e.iv.start > iv.start {
                    e.iv.start
                } else {
                    iv.start
                };
                let ohi: i64 = if e.iv.end < iv.end {
                    e.iv.end
                } else {
                    iv.end
                };
                proof {
                    assert(curfr >= olo as int - 1 || (cur as int == lo && olo as int == lo
                        && pre[i as int].lo == lo));
                }
                let sum = match e.val.checked_add(val) {
                    Some(s) => s,
                    None => {
                        proof {
                            assert(overlaps_s(pre[i as int], lo, hi) && !frac_fits(
                                frac_add(pre[i as int].v, vv),
                            ));
                        }
                        return Err(Error::Overflow);
                    },
                };
                proof {
                    lemma_rat_fits(sum);
                    assert(sum@ == frac_add(pre[i as int].v, vv));
                }
                {
                    // the overlapped piece, with the summed value
                    let ghost g0 = ents(out@);
                    let ghost ov = out@;
                    let piece = Entry { iv: Interval { start: olo, end: ohi }, val: sum };
                    out.push(piece);
                    proof {
                        lemma_ents_push(ov, piece);
                        assert forall|p: int|
                            piece@.lo <= p <= piece@.hi implies #[trigger] aggregate_target(
                            pre,
                            lo,
                            hi,
                            vv,
                            p,
                        ) == Some(piece@.v) by {
                            lemma_val_at_in_entry(pre, i as int, p);
                        }
                        assert forall|p: int| curfr < p < piece@.lo implies #[trigger] aggregate_target(
                            pre,
                            lo,
                            hi,
                            vv,
                            p,
                        ) == None::<Frac> by {
                            assert(p < lo);
                            lemma_pre_uncovered(pre, i as int, curfr, p);
                        }
                        assert forall|p: int|
                            piece@.lo <= p && p + 1 <= piece@.hi implies #[trigger] split_target(
                            pre,
                            lo,
                            hi,
                            p,
                        ) by {
                            assert(pre[i as int].lo <= p && p + 1 <= pre[i as int].hi);
                            assert(same_piece(pre, p));
                        }
                        assert forall|p: int|
                            curfr < p + 1 <= piece@.lo implies !(#[trigger] split_target(
                            pre,
                            lo,
                            hi,
                            p,
                        )) by {
                            if p + 1 == lo {
                            } else if p + 1 == piece@.lo && piece@.lo == e@.lo {
                                lemma_no_straddle_start(pre, i as int, p);
                                lemma_val_at_in_entry(pre, i as int, p + 1);
                            } else {
                                assert(p + 1 < lo);
                                lemma_pre_uncovered(pre, i as int, curfr, p + 1);
                                if same_piece(pre, p) {
                                    lemma_same_piece_covered(pre, p);
                                }
                            }
                        }
                        lemma_agg_push_piece(pre, g0, curfr, lo, hi, vv, piece@);
                        curfr = piece@.hi;
                    }
                }
                if e.iv.end > iv.end {
                    // right remainder of the entry, value unchanged
                    let ghost g0 = ents(out@);
                    let ghost ov = out@;
                    let piece = Entry {
                        iv: Interval { start: iv.end + 1, end: e.iv.end },
                        val: e.val,
                    };
                    out.push(piece);
                    proof {
                        lemma_ents_push(ov, piece);
                        assert forall|p: int|
                            piece@.lo <= p <= piece@.hi implies #[trigger] aggregate_target(
                            pre,
                            lo,
                            hi,
                            vv,
                            p,
                        ) == Some(piece@.v) by {
                            lemma_val_at_in_entry(pre, i as int, p);
                        }
                        assert forall|p: int|
                            piece@.lo <= p && p + 1 <= piece@.hi implies #[trigger] split_target(
                            pre,
                            lo,
                            hi,
                            p,
                        ) by {
                            assert(pre[i as int].lo <= p && p + 1 <= pre[i as int].hi);
                            assert(same_piece(pre, p));
                        }
                        assert forall|p: int|
                            curfr < p + 1 <= piece@.lo implies !(#[trigger] split_target(
                            pre,
                            lo,
                            hi,
                            p,
                        )) by {
                            assert(p == hi);
                        }
                        lemma_agg_push_piece(pre, g0, curfr, lo, hi, vv, piece@);
                        curfr = piece@.hi;
                    }
                }
                cur = ohi as i128 + 1;
                proof {
                    assert(curfr == agg_frontier(pre, i as int + 1, cur as int, lo));
                }
            } else {
                // the entry lies entirely right of the new interval
                if cur <= iv.end as i128 {
                    // flush the remaining tail of the new interval
                    proof {
                        assert(fr <= cur as int - 1);
                    }
                    let gap_start: i64 = cur as i64;
                    let ghost g0 = ents(out@);
                    let ghost ov = out@;
                    let piece = Entry { iv: Interval { start: gap_start, end: iv.end }, val: val };
                    out.push(piece);
                    proof {
                        lemma_ents_push(ov, piece);
                        assert forall|p: int|
                            piece@.lo <= p <= piece@.hi implies #[trigger] aggregate_target(
                            pre,
                            lo,
                            hi,
                            vv,
                            p,
                        ) == Some(piece@.v) by {
                            lemma_pre_uncovered(pre, i as int, curfr, p);
                            assert(lo <= p <= hi);
                        }
                        assert forall|p: int| curfr < p < piece@.lo implies #[trigger] aggregate_target(
                            pre,
                            lo,
                            hi,
                            vv,
                            p,
                        ) == None::<Frac> by {
                            lemma_pre_uncovered(pre, i as int, curfr, p);
                            assert(p < lo);
                        }
                        assert forall|p: int|
                            piece@.lo <= p && p + 1 <= piece@.hi implies #[trigger] split_target(
                            pre,
                            lo,
                            hi,
                            p,
                        ) by {
                            lemma_pre_uncovered(pre, i as int, curfr, p);
                            lemma_pre_uncovered(pre, i as int, curfr, p + 1);
                        }
                        assert forall|p: int|
                            curfr < p + 1 <= piece@.lo implies !(#[trigger] split_target(
                            pre,
                            lo,
                            hi,
                            p,
                        )) by {
                            if p + 1 == lo {
                            } else if p + 1 < lo {
                                lemma_pre_uncovered(pre, i as int, curfr, p + 1);
                                if same_piece(pre, p) {
                                    lemma_same_piece_covered(pre, p);
                                }
                            } else {
                                assert(p + 1 == cur as int);
                                assert(i as int > 0 && pre[i as int - 1].lo <= cur as int - 1
                                    <= pre[i as int - 1].hi);
                                lemma_val_at_in_entry(pre, i as int - 1, cur as int - 1);
                                lemma_pre_uncovered(pre, i as int, curfr, cur as int);
                                if same_piece(pre, p) {
                                    lemma_same_piece_covered(pre, p);
                                }
                            }
                        }
                        lemma_agg_push_piece(pre, g0, curfr, lo, hi, vv, piece@);
                        curfr = piece@.hi;
                    }
                    cur = iv.end as i128 + 1;
                } else {
                    proof {
                        assert(cur as int == hi + 1);
                    }
                }
                let ghost g0 = ents(out@);
                let ghost ov = out@;
                out.push(e);
                proof {
                    lemma_ents_push(ov, e);
                    assert forall|p: int| e@.lo <= p <= e@.hi implies #[trigger] aggregate_target(
                        pre,
                        lo,
                        hi,
                        vv,
                        p,
                    ) == Some(e@.v) by {
                        lemma_val_at_in_entry(pre, i as int, p);
                    }
                    assert forall|p: int| curfr < p < e@.lo implies #[trigger] aggregate_target(
                        pre,
                        lo,
                        hi,
                        vv,
                        p,
                    ) == None::<Frac> by {
                        lemma_pre_uncovered(pre, i as int, curfr, p);
                        assert(p > hi);
                    }
                    assert forall|p: int|
                        e@.lo <= p && p + 1 <= e@.hi implies #[trigger] split_target(
                        pre,
                        lo,
                        hi,
                        p,
                    ) by {
                        assert(pre[i as int].lo <= p && p + 1 <= pre[i as int].hi);
                        assert(same_piece(pre, p));
                    }
                    assert forall|p: int| curfr < p + 1 <= e@.lo implies !(#[trigger] split_target(
                        pre,
                        lo,
                        hi,
                        p,
                    )) by {
                        if p == hi {
                        } else if p + 1 == e@.lo {
                            lemma_no_straddle_start(pre, i as int, p);
                            assert(p + 1 > hi);
                        } else {
                            lemma_pre_uncovered(pre, i as int, curfr, p + 1);
                            if same_piece(pre, p) {
                                lemma_same_piece_covered(pre, p);
                            }
                            assert(p + 1 > hi);
                        }
                    }
                    lemma_agg_push_piece(pre, g0, curfr, lo, hi, vv, e@);
                    curfr = e@.hi;
                    assert(curfr == agg_frontier(pre, i as int + 1, cur as int, lo));
                }
            }
            i += 1;
        }

        let ghost frexit = agg_frontier(pre, n as int, cur as int, lo);
        proof {
            lemma_his_below(pre, n as int, frexit);
        }
        // flush whatever of the new interval is still unwritten
        if cur <= iv.end as i128 {
            proof {
                assert(frexit <= cur as int - 1);
            }
            let gap_start: i64 = cur as i64;
            let ghost g0 = ents(out@);
            let ghost ov = out@;
            let piece = Entry { iv: Interval { start: gap_start, end: iv.end }, val: val };
            out.push(piece);
            proof {
                lemma_ents_push(ov, piece);
                assert forall|p: int| piece@.lo <= p <= piece@.hi implies #[trigger] aggregate_target(
                    pre,
                    lo,
                    hi,
                    vv,
                    p,
                ) == Some(piece@.v) by {
                    lemma_pre_uncovered(pre, n as int, frexit, p);
                    assert(lo <= p <= hi);
                }
                assert forall|p: int| frexit < p < piece@.lo implies #[trigger] aggregate_target(
                    pre,
                    lo,
                    hi,
                    vv,
                    p,
                ) == None::<Frac> by {
                    lemma_pre_uncovered(pre, n as int, frexit, p);
                    assert(p < lo);
                }
                assert forall|p: int|
                    piece@.lo <= p && p + 1 <= piece@.hi implies #[trigger] split_target(
                    pre,
                    lo,
                    hi,
                    p,
                ) by {
                    lemma_pre_uncovered(pre, n as int, frexit, p);
                    lemma_pre_uncovered(pre, n as int, frexit, p + 1);
                }
                assert forall|p: int| frexit < p + 1 <= piece@.lo implies !(#[trigger] split_target(
                    pre,
                    lo,
                    hi,
                    p,
                )) by {
                    if p + 1 == lo {
                    } else if p + 1 < lo {
                        lemma_pre_uncovered(pre, n as int, frexit, p + 1);
                        if same_piece(pre, p) {
                            lemma_same_piece_covered(pre, p);
                        }
                    } else {
                        assert(p + 1 == cur as int);
                        assert(n as int > 0 && pre[n as int - 1].lo <= cur as int - 1 <= pre[n
                            as int - 1].hi);
                        lemma_val_at_in_entry(pre, n as int - 1, cur as int - 1);
                        lemma_pre_uncovered(pre, n as int, frexit, cur as int);
                        if same_piece(pre, p) {
                            lemma_same_piece_covered(pre, p);
                        }
                    }
                }
                lemma_agg_push_piece(pre, g0, frexit, lo, hi, vv, piece@);
                assert forall|p: int| #[trigger] val_at(ents(out@), p) == aggregate_target(
                    pre,
                    lo,
                    hi,
                    vv,
                    p,
                ) by {
                    if p > hi {
                        lemma_pre_uncovered(pre, n as int, frexit, p);
                    }
                }
                assert forall|p: int|
                    (#[trigger] same_piece(ents(out@), p)) <==> split_target(pre, lo, hi, p) by {
                    if p + 1 > hi {
                        if split_target(pre, lo, hi, p) {
                            lemma_pre_uncovered(pre, n as int, frexit, p + 1);
                            if same_piece(pre, p) {
                                lemma_same_piece_covered(pre, p);
                            }
                        }
                    }
                }
            }
        } else {
            proof {
                assert(cur as int == hi + 1);
                assert forall|p: int| #[trigger] val_at(ents(out@), p) == aggregate_target(
                    pre,
                    lo,
                    hi,
                    vv,
                    p,
                ) by {
                    if p > frexit {
                        assert(p > hi);
                        lemma_pre_uncovered(pre, n as int, frexit, p);
                    }
                }
                assert forall|p: int|
                    (#[trigger] same_piece(ents(out@), p)) <==> split_target(pre, lo, hi, p) by {
                    if p + 1 > frexit {
                        assert(p >= hi);
                        if split_target(pre, lo, hi, p) {
                            assert(p > hi);
                            lemma_pre_uncovered(pre, n as int, frexit, p + 1);
                            if same_piece(pre, p) {
                                lemma_same_piece_covered(pre, p);
                            }
                        }
                    }
                }
            }
        }

        proof {
            assert(!agg_overflow(pre, lo, hi, vv)) by {
                if agg_overflow(pre, lo, hi, vv) {
                    let j = choose|j: int|
                        0 <= j < pre.len() && overlaps_s(#[trigger] pre[j], lo, hi) && !frac_fits(
                            frac_add(pre[j].v, vv),
                        );
                    assert(frac_fits(frac_add(pre[j].v, vv)));
                }
            }
        }
        self.entries = out;
        Ok(())
    }
}

} // verus!
