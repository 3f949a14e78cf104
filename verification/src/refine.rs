use crate::error::Error;
use crate::interval::Interval;
use crate::partition::{EntryS, Partition};
use crate::rat::{frac_wf, Frac, Rat};
use vstd::prelude::*;

verus! {

/// One output interval of the common refinement, carrying one optional
/// value per source.
#[derive(Clone, Debug)]
pub struct Row {
    pub iv: Interval,
    pub vals: Vec<Option<Rat>>,
}

/// A row in specification space.
pub struct RowS {
    pub lo: int,
    pub hi: int,
    pub vs: Seq<Option<Frac>>,
}

pub open spec fn o2f(o: Option<Rat>) -> Option<Frac> {
    match o {
        Some(r) => Some(r@),
        None => None,
    }
}

impl View for Row {
    type V = RowS;

    open spec fn view(&self) -> RowS {
        RowS {
            lo: self.iv.start as int,
            hi: self.iv.end as int,
            vs: self.vals@.map_values(|o: Option<Rat>| o2f(o)),
        }
    }
}

/// The image of a row vector in specification space.
pub open spec fn rows(s: Seq<Row>) -> Seq<RowS> {
    s.map_values(|r: Row| r@)
}

pub proof fn lemma_rows_push(s: Seq<Row>, r: Row)
    ensures
        rows(s.push(r)) =~= rows(s).push(r@),
{
}

/// Well-formed refinement output of arity `k`: nonempty machine-range
/// sorted disjoint intervals, each carrying exactly `k` optional
/// well-formed values.
pub open spec fn rows_wf(s: Seq<RowS>, k: nat) -> bool {
    &&& forall|j: int|
        0 <= j < s.len() ==> i64::MIN <= (#[trigger] s[j]).lo <= s[j].hi <= i64::MAX
    &&& forall|j: int| 0 <= j < s.len() ==> (#[trigger] s[j]).vs.len() == k
    &&& forall|j: int| 0 <= j && j + 1 < s.len() ==> (#[trigger] s[j].hi) < s[j + 1].lo
    &&& forall|j: int, t: int|
        0 <= j < s.len() && 0 <= t < k ==> ((#[trigger] s[j].vs[t]) is Some
            ==> frac_wf(s[j].vs[t]->0))
}

/// In well-formed rows, every earlier row ends strictly before any later
/// row begins.
pub proof fn lemma_rows_ordered(s: Seq<RowS>, k: nat)
    requires
        rows_wf(s, k),
    ensures
        forall|i: int, j: int| 0 <= i < j < s.len() ==> (#[trigger] s[i]).hi < (#[trigger] s[j]).lo,
    decreases s.len(),
{
    if s.len() > 1 {
        assert(rows_wf(s.drop_last(), k)) by {
            assert forall|j: int|
                0 <= j < s.drop_last().len() implies i64::MIN <= (#[trigger] s.drop_last()[j]).lo
                <= s.drop_last()[j].hi <= i64::MAX && s.drop_last()[j].vs.len() == k by {
                assert(s.drop_last()[j] == s[j]);
            }
            assert forall|j: int|
                0 <= j && j + 1 < s.drop_last().len() implies (#[trigger] s.drop_last()[j].hi)
                < s.drop_last()[j + 1].lo by {
                assert(s.drop_last()[j] == s[j]);
                assert(s.drop_last()[j + 1] == s[j + 1]);
            }
            assert forall|j: int, t: int|
                0 <= j < s.drop_last().len() && 0 <= t < k implies ((
                #[trigger] s.drop_last()[j].vs[t]) is Some ==> frac_wf(
                    s.drop_last()[j].vs[t]->0,
                )) by {
                assert(s.drop_last()[j] == s[j]);
            }
        }
        lemma_rows_ordered(s.drop_last(), k);
        assert forall|i: int, j: int| 0 <= i < j < s.len() implies (#[trigger] s[i]).hi < (
        #[trigger] s[j]).lo by {
            if j < s.len() - 1 {
                assert(s.drop_last()[i] == s[i]);
                assert(s.drop_last()[j] == s[j]);
            } else {
                if i < j - 1 {
                    assert(s.drop_last()[i] == s[i]);
                    assert(s.drop_last()[j - 1] == s[j - 1]);
                    assert(s[j - 1].lo <= s[j - 1].hi);
                }
                assert(s[j - 1].hi < s[j].lo);
            }
        }
    }
}

/// Whether some row covers point `p`.
pub open spec fn rows_cover(s: Seq<RowS>, p: int) -> bool {
    exists|j: int| 0 <= j < s.len() && (#[trigger] s[j]).lo <= p <= s[j].hi
}

/// Whether some entry covers point `p`.
pub open spec fn entries_cover(s: Seq<EntryS>, p: int) -> bool {
    exists|j: int| 0 <= j < s.len() && (#[trigger] s[j]).lo <= p <= s[j].hi
}

/// The relation of a refined row to the freshly zipped source: its last
/// value either comes from one source entry that fully contains the row, or
/// it is absent and the row touches no entry of that source.
pub open spec fn row_src_ok(r: RowS, i: int, es: Seq<EntryS>) -> bool {
    ||| exists|m: int|
        0 <= m < es.len() && (#[trigger] es[m]).lo <= r.lo && r.hi <= es[m].hi && r.vs[i] == Some(
            es[m].v,
        )
    ||| (r.vs[i] is None && forall|m: int|
        0 <= m < es.len() ==> !((#[trigger] es[m]).lo <= r.hi && r.lo <= es[m].hi))
}

/// The relation of a refined row to the previously accumulated rows: its
/// first `k` values either come from one accumulated row that fully
/// contains it, or they are all absent and the row touches no accumulated
/// row.
pub open spec fn row_acc_ok(r: RowS, k: int, acc: Seq<RowS>) -> bool {
    ||| exists|m: int|
        0 <= m < acc.len() && (#[trigger] acc[m]).lo <= r.lo && r.hi <= acc[m].hi && r.vs.take(k)
            =~= acc[m].vs
    ||| ((forall|t: int| 0 <= t < k ==> (#[trigger] r.vs[t]) is None) && forall|m: int|
        0 <= m < acc.len() ==> !((#[trigger] acc[m]).lo <= r.hi && r.lo <= acc[m].hi))
}

/// Whether some row of `s` ends at `p` or begins at `p + 1`.
pub open spec fn row_edge_at(rs: Seq<RowS>, p: int) -> bool {
    exists|m: int| 0 <= m < rs.len() && ((#[trigger] rs[m]).hi == p || rs[m].lo == p + 1)
}

/// Whether some entry of `s` ends at `p` or begins at `p + 1`.
pub open spec fn entry_edge_at(es: Seq<EntryS>, p: int) -> bool {
    exists|m: int| 0 <= m < es.len() && ((#[trigger] es[m]).hi == p || es[m].lo == p + 1)
}

/// A cut of the refinement lies at an edge of one of its two inputs.
pub open spec fn bnd_at(rs: Seq<RowS>, es: Seq<EntryS>, p: int) -> bool {
    row_edge_at(rs, p) || entry_edge_at(es, p)
}

/// The output covers exactly the union of the two inputs' spans.
pub open spec fn covers_both(out: Seq<RowS>, acc: Seq<RowS>, es: Seq<EntryS>) -> bool {
    forall|p: int| #[trigger] rows_cover(out, p) <==> (rows_cover(acc, p) || entries_cover(es, p))
}

pub proof fn lemma_covers_both_at(out: Seq<RowS>, acc: Seq<RowS>, es: Seq<EntryS>, p: int)
    requires
        covers_both(out, acc, es),
    ensures
        rows_cover(out, p) <==> (rows_cover(acc, p) || entries_cover(es, p)),
{
}

/// The rows cover exactly the entries' span.
pub open spec fn covers_same(out: Seq<RowS>, es: Seq<EntryS>) -> bool {
    forall|p: int| #[trigger] rows_cover(out, p) <==> entries_cover(es, p)
}

pub proof fn lemma_covers_same_at(out: Seq<RowS>, es: Seq<EntryS>, p: int)
    requires
        covers_same(out, es),
    ensures
        rows_cover(out, p) <==> entries_cover(es, p),
{
}

/// Seeds the refinement with a single source: one row per entry.
pub fn rows_from(src: &Partition) -> (out: Vec<Row>)
    requires
        src.wf(),
    ensures
        rows_wf(rows(out@), 1),
        out@.len() == src@.len(),
        forall|j: int|
            0 <= j < out@.len() ==> {
                let r = #[trigger] rows(out@)[j];
                r.lo == src@[j].lo && r.hi == src@[j].hi && r.vs =~= seq![Some(src@[j].v)]
            },
        forall|p: int| rows_cover(rows(out@), p) <==> entries_cover(src@, p),
        covers_same(rows(out@), src@),
        forall|j: int| 0 <= j < out@.len() ==> row_src_ok(#[trigger] rows(out@)[j], 0, src@),
        forall|j: int|
            0 <= j < out@.len() ==> entry_edge_at(src@, (#[trigger] rows(out@)[j]).hi)
                && entry_edge_at(src@, rows(out@)[j].lo - 1),
{
    let n = src.len();
    let mut out: Vec<Row> = Vec::new();
    let mut i: usize = 0;
    while i < n
        invariant
            i <= n,
            n == src@.len(),
            src.wf(),
            out@.len() == i,
            forall|j: int|
                0 <= j < i as int ==> {
                    let r = #[trigger] rows(out@)[j];
                    r.lo == src@[j].lo && r.hi == src@[j].hi && r.vs =~= seq![Some(src@[j].v)]
                },
        decreases n - i,
    {
        let e = src.get(i);
        let mut vs: Vec<Option<Rat>> = Vec::new();
        vs.push(Some(e.val));
        let ghost ov = out@;
        let r = Row { iv: e.iv, vals: vs };
        proof {
            assert(r@.vs =~= seq![Some(e.val@)]);
        }
        out.push(r);
        proof {
            lemma_rows_push(ov, r);
            assert(src@[i as int] == e@);
        }
        i += 1;
    }
    proof {
        assert(rows_wf(rows(out@), 1)) by {
            assert forall|j: int, t: int|
                0 <= j < rows(out@).len() && 0 <= t < 1 implies ((
            #[trigger] rows(out@)[j].vs[t]) is Some ==> frac_wf(rows(out@)[j].vs[t]->0)) by {
                assert(rows(out@)[j].vs =~= seq![Some(src@[j].v)]);
            }
        }
        assert forall|p: int| rows_cover(rows(out@), p) <==> entries_cover(src@, p) by {
            if rows_cover(rows(out@), p) {
                let j = choose|j: int|
                    0 <= j < rows(out@).len() && (#[trigger] rows(out@)[j]).lo <= p <= rows(
                        out@,
                    )[j].hi;
                assert(src@[j].lo <= p <= src@[j].hi);
            }
            if entries_cover(src@, p) {
                let j = choose|j: int|
                    0 <= j < src@.len() && (#[trigger] src@[j]).lo <= p <= src@[j].hi;
                assert(rows(out@)[j].lo <= p <= rows(out@)[j].hi);
            }
        }
        assert forall|j: int| 0 <= j < out@.len() implies row_src_ok(
            #[trigger] rows(out@)[j],
            0,
            src@,
        ) by {
            assert(src@[j].lo <= rows(out@)[j].lo && rows(out@)[j].hi <= src@[j].hi && rows(
                out@,
            )[j].vs[0] == Some(src@[j].v));
        }
        assert forall|j: int| 0 <= j < out@.len() implies entry_edge_at(
            src@,
            (#[trigger] rows(out@)[j]).hi,
        ) && entry_edge_at(src@, rows(out@)[j].lo - 1) by {
            assert(src@[j].hi == rows(out@)[j].hi);
            assert(src@[j].lo == (rows(out@)[j].lo - 1) + 1);
        }
    }
    out
}

/// The facts that hold when the sweep emits the row `r` over `[lo, hi]`:
/// the cursor state, the choice of the boundaries, and the row's contents.
pub open spec fn step_state(
    av: Seq<RowS>,
    sv: Seq<EntryS>,
    k: nat,
    ia: int,
    ib: int,
    pos: int,
    r: RowS,
    a_cov: bool,
    b_cov: bool,
) -> bool {
    &&& rows_wf(av, k)
    &&& crate::partition::entries_wf(sv)
    &&& 0 <= ia <= av.len()
    &&& 0 <= ib <= sv.len()
    &&& (forall|j: int| 0 <= j < ia ==> (#[trigger] av[j]).hi < pos)
    &&& (ia < av.len() ==> av[ia].hi >= pos)
    &&& (forall|j: int| 0 <= j < ib ==> (#[trigger] sv[j]).hi < pos)
    &&& (ib < sv.len() ==> sv[ib].hi >= pos)
    &&& pos <= r.lo <= r.hi
    &&& i64::MIN <= r.lo <= r.hi <= i64::MAX
    &&& (ia < av.len() ==> r.lo <= (if av[ia].lo > pos {
        av[ia].lo
    } else {
        pos
    }))
    &&& (ib < sv.len() ==> r.lo <= (if sv[ib].lo > pos {
        sv[ib].lo
    } else {
        pos
    }))
    &&& (a_cov <==> (ia < av.len() && av[ia].lo <= r.lo))
    &&& (b_cov <==> (ib < sv.len() && sv[ib].lo <= r.lo))
    &&& (a_cov ==> hi_ok_a(av, ia, r))
    &&& (!a_cov && ia < av.len() ==> r.hi < av[ia].lo)
    &&& (b_cov ==> hi_ok_b(sv, ib, r))
    &&& (!b_cov && ib < sv.len() ==> r.hi < sv[ib].lo)
    &&& (a_cov || b_cov)
    &&& r.vs.len() == k + 1
    &&& (a_cov ==> r.vs.take(k as int) =~= av[ia].vs)
    &&& (!a_cov ==> forall|t: int| 0 <= t < k ==> (#[trigger] r.vs[t]) is None)
    &&& (b_cov ==> r.vs[k as int] == Some(sv[ib].v))
    &&& (!b_cov ==> r.vs[k as int] is None)
}

pub open spec fn hi_ok_a(av: Seq<RowS>, ia: int, r: RowS) -> bool {
    r.hi <= av[ia].hi
}

pub open spec fn hi_ok_b(sv: Seq<EntryS>, ib: int, r: RowS) -> bool {
    r.hi <= sv[ib].hi
}

/// The emitted row extends a well-formed output and relates to both inputs
/// as a true refinement piece.
pub proof fn lemma_step_rows(
    av: Seq<RowS>,
    sv: Seq<EntryS>,
    outv: Seq<RowS>,
    k: nat,
    ia: int,
    ib: int,
    pos: int,
    r: RowS,
    a_cov: bool,
    b_cov: bool,
)
    requires
        step_state(av, sv, k, ia, ib, pos, r, a_cov, b_cov),
        rows_wf(outv, (k + 1) as nat),
        outv.len() > 0 ==> outv.last().hi < pos,
        forall|j: int| 0 <= j < outv.len() ==> row_acc_ok(#[trigger] outv[j], k as int, av),
        forall|j: int| 0 <= j < outv.len() ==> row_src_ok(#[trigger] outv[j], k as int, sv),
    ensures
        rows_wf(outv.push(r), (k + 1) as nat),
        outv.push(r).last().hi == r.hi,
        forall|j: int|
            0 <= j < outv.push(r).len() ==> row_acc_ok(#[trigger] outv.push(r)[j], k as int, av),
        forall|j: int|
            0 <= j < outv.push(r).len() ==> row_src_ok(#[trigger] outv.push(r)[j], k as int, sv),
{
    lemma_rows_ordered(outv, (k + 1) as nat);
    lemma_rows_ordered(av, k);
    crate::partition::lemma_entries_ordered(sv);
    let outv2 = outv.push(r);
    assert(rows_wf(outv2, (k + 1) as nat)) by {
        assert forall|j: int|
            0 <= j < outv2.len() implies i64::MIN <= (#[trigger] outv2[j]).lo <= outv2[j].hi
            <= i64::MAX && outv2[j].vs.len() == k + 1 by {
            if j < outv.len() {
                assert(outv2[j] == outv[j]);
            } else {
                assert(outv2[j] == r);
            }
        }
        assert forall|j: int|
            0 <= j && j + 1 < outv2.len() implies (#[trigger] outv2[j].hi) < outv2[j + 1].lo by {
            if j + 1 < outv.len() {
                assert(outv2[j] == outv[j]);
                assert(outv2[j + 1] == outv[j + 1]);
            } else {
                assert(outv2[j + 1] == r);
                assert(outv2[j] == outv[j]);
                assert(outv[j].hi <= outv.last().hi);
            }
        }
        assert forall|j: int, t: int|
            0 <= j < outv2.len() && 0 <= t < k + 1 implies ((#[trigger] outv2[j].vs[t]) is Some
            ==> frac_wf(outv2[j].vs[t]->0)) by {
            if j < outv.len() {
                assert(outv2[j] == outv[j]);
            } else {
                assert(outv2[j] == r);
                if t < k {
                    if a_cov {
                        assert(r.vs[t] == av[ia].vs[t]);
                    }
                } else {
                    if b_cov {
                        assert(crate::partition::entry_wf(sv[ib]));
                        assert(r.vs[t] == Some(sv[ib].v));
                    }
                }
            }
        }
    }
    assert(row_acc_ok(r, k as int, av)) by {
        if a_cov {
            assert(av[ia].lo <= r.lo && r.hi <= av[ia].hi && r.vs.take(k as int) =~= av[ia].vs);
        } else {
            assert forall|m: int| 0 <= m < av.len() implies !((#[trigger] av[m]).lo <= r.hi && r.lo
                <= av[m].hi) by {
                if m < ia {
                } else if m > ia {
                    assert(ia < av.len());
                    assert(av[ia].hi < av[m].lo);
                    assert(av[ia].lo <= av[ia].hi);
                }
            }
        }
    }
    assert(row_src_ok(r, k as int, sv)) by {
        if b_cov {
            assert(sv[ib].lo <= r.lo && r.hi <= sv[ib].hi && r.vs[k as int] == Some(sv[ib].v));
        } else {
            assert forall|m: int| 0 <= m < sv.len() implies !((#[trigger] sv[m]).lo <= r.hi && r.lo
                <= sv[m].hi) by {
                if m < ib {
                } else if m > ib {
                    assert(ib < sv.len());
                    assert(sv[ib].hi < sv[m].lo);
                    assert(sv[ib].lo <= sv[ib].hi);
                }
            }
        }
    }
    assert forall|j: int| 0 <= j < outv2.len() implies row_acc_ok(
        #[trigger] outv2[j],
        k as int,
        av,
    ) && row_src_ok(outv2[j], k as int, sv) by {
        if j < outv.len() {
            assert(outv2[j] == outv[j]);
        } else {
            assert(outv2[j] == r);
        }
    }
}

/// The emitted row extends the coverage equivalence up to its end: below
/// the row neither side has data, and on the row at least one side does.
pub proof fn lemma_step_cover(
    av: Seq<RowS>,
    sv: Seq<EntryS>,
    outv: Seq<RowS>,
    k: nat,
    ia: int,
    ib: int,
    pos: int,
    r: RowS,
    a_cov: bool,
    b_cov: bool,
)
    requires
        step_state(av, sv, k, ia, ib, pos, r, a_cov, b_cov),
        rows_wf(outv, (k + 1) as nat),
        outv.len() > 0 ==> outv.last().hi < pos,
        forall|p: int|
            p < pos ==> (rows_cover(outv, p) <==> (rows_cover(av, p) || entries_cover(sv, p))),
    ensures
        forall|p: int|
            p < r.hi + 1 ==> (rows_cover(outv.push(r), p) <==> (rows_cover(av, p)
                || entries_cover(sv, p))),
{
    lemma_rows_ordered(outv, (k + 1) as nat);
    lemma_rows_ordered(av, k);
    crate::partition::lemma_entries_ordered(sv);
    let outv2 = outv.push(r);
    assert forall|p: int| p < r.hi + 1 implies (rows_cover(outv2, p) <==> (rows_cover(av, p)
        || entries_cover(sv, p))) by {
        if p < pos {
            assert(rows_cover(outv2, p) <==> rows_cover(outv, p)) by {
                if rows_cover(outv2, p) {
                    let j = choose|j: int|
                        0 <= j < outv2.len() && (#[trigger] outv2[j]).lo <= p <= outv2[j].hi;
                    if j < outv.len() {
                        assert(outv[j].lo <= p <= outv[j].hi);
                    }
                }
                if rows_cover(outv, p) {
                    let j = choose|j: int|
                        0 <= j < outv.len() && (#[trigger] outv[j]).lo <= p <= outv[j].hi;
                    assert(outv2[j].lo <= p <= outv2[j].hi);
                }
            }
        } else if p < r.lo {
            assert(!rows_cover(outv2, p)) by {
                if rows_cover(outv2, p) {
                    let j = choose|j: int|
                        0 <= j < outv2.len() && (#[trigger] outv2[j]).lo <= p <= outv2[j].hi;
                    if j < outv.len() {
                        assert(outv[j].hi <= outv.last().hi);
                    }
                }
            }
            assert(!rows_cover(av, p)) by {
                if rows_cover(av, p) {
                    let j = choose|j: int|
                        0 <= j < av.len() && (#[trigger] av[j]).lo <= p <= av[j].hi;
                    if j < ia {
                    } else if j == ia {
                        assert(av[j].lo <= p);
                        assert(r.lo <= (if av[ia].lo > pos {
                            av[ia].lo
                        } else {
                            pos
                        }));
                    } else {
                        assert(ia < av.len());
                        assert(av[ia].hi < av[j].lo);
                    }
                }
            }
            assert(!entries_cover(sv, p)) by {
                if entries_cover(sv, p) {
                    let j = choose|j: int|
                        0 <= j < sv.len() && (#[trigger] sv[j]).lo <= p <= sv[j].hi;
                    if j < ib {
                    } else if j == ib {
                        assert(sv[j].lo <= p);
                        assert(r.lo <= (if sv[ib].lo > pos {
                            sv[ib].lo
                        } else {
                            pos
                        }));
                    } else {
                        assert(ib < sv.len());
                        assert(sv[ib].hi < sv[j].lo);
                    }
                }
            }
        } else {
            assert(outv2[outv.len() as int].lo <= p <= outv2[outv.len() as int].hi);
            assert(rows_cover(outv2, p));
            if a_cov {
                assert(av[ia].lo <= p <= av[ia].hi);
                assert(rows_cover(av, p));
            } else {
                assert(sv[ib].lo <= p <= sv[ib].hi);
                assert(entries_cover(sv, p));
            }
        }
    }
}

/// Copies a value vector.
fn copy_vals(vals: &Vec<Option<Rat>>) -> (vs: Vec<Option<Rat>>)
    ensures
        vs@ =~= vals@,
{
    let n = vals.len();
    let mut vs: Vec<Option<Rat>> = Vec::new();
    let mut t: usize = 0;
    while t < n
        invariant
            t <= n,
            n == vals@.len(),
            vs@ =~= vals@.take(t as int),
        decreases n - t,
    {
        let x = vals[t];
        vs.push(x);
        proof {
            assert(vals@.take(t as int + 1) =~= vals@.take(t as int).push(vals@[t as int]));
        }
        t += 1;
    }
    vs
}

/// A vector of `k` absent values.
fn none_vals(k: usize) -> (vs: Vec<Option<Rat>>)
    ensures
        vs@.len() == k,
        forall|u: int| 0 <= u < k as int ==> (#[trigger] vs@[u]) is None,
{
    let mut vs: Vec<Option<Rat>> = Vec::new();
    let mut t: usize = 0;
    while t < k
        invariant
            t <= k,
            vs@.len() == t,
            forall|u: int| 0 <= u < t as int ==> (#[trigger] vs@[u]) is None,
        decreases k - t,
    {
        vs.push(None);
        t += 1;
    }
    vs
}

/// Refines the accumulated rows (arity `k`) against one more source,
/// producing the finest common partition of the two as rows of arity
/// `k + 1`. Gaps where neither side has data are skipped, not emitted.
#[verifier::rlimit(100)]
#[verifier::spinoff_prover]
pub fn flat_zip(acc: &Vec<Row>, k: usize, src: &Partition) -> (out: Vec<Row>)
    requires
        rows_wf(rows(acc@), k as nat),
        src.wf(),
        k < usize::MAX,
    ensures
        rows_wf(rows(out@), (k + 1) as nat),
        forall|j: int|
            0 <= j < out@.len() ==> row_acc_ok(#[trigger] rows(out@)[j], k as int, rows(acc@)),
        forall|j: int| 0 <= j < out@.len() ==> row_src_ok(#[trigger] rows(out@)[j], k as int, src@),
        forall|p: int|
            rows_cover(rows(out@), p) <==> (rows_cover(rows(acc@), p) || entries_cover(src@, p)),
        covers_both(rows(out@), rows(acc@), src@),
        forall|j: int|
            0 <= j < out@.len() ==> bnd_at(rows(acc@), src@, (#[trigger] rows(out@)[j]).hi)
                && bnd_at(rows(acc@), src@, rows(out@)[j].lo - 1),
{
    let ghost av = rows(acc@);
    let ghost sv = src@;
    proof {
        lemma_rows_ordered(av, k as nat);
        crate::partition::lemma_entries_ordered(sv);
    }
    let na = acc.len();
    let nb = src.len();
    let mut ia: usize = 0;
    let mut ib: usize = 0;
    let mut pos: i128 = i64::MIN as i128;
    let mut out: Vec<Row> = Vec::new();

    while ia < na || ib < nb
        invariant
            ia <= na,
            ib <= nb,
            na == av.len(),
            nb == sv.len(),
            na == acc@.len(),
            nb == src@.len(),
            av == rows(acc@),
            sv == src@,
            rows_wf(av, k as nat),
            src.wf(),
            i64::MIN as int <= pos as int <= i64::MAX as int + 1,
            forall|j: int| 0 <= j < ia as int ==> (#[trigger] av[j]).hi < pos as int,
            ia < na ==> av[ia as int].hi >= pos as int,
            forall|j: int| 0 <= j < ib as int ==> (#[trigger] sv[j]).hi < pos as int,
            ib < nb ==> sv[ib as int].hi >= pos as int,
            rows_wf(rows(out@), (k + 1) as nat),
            pos as int == i64::MIN as int || rows(out@).len() > 0,
            rows(out@).len() > 0 ==> rows(out@).last().hi == pos as int - 1,
            forall|j: int|
                0 <= j < out@.len() ==> row_acc_ok(#[trigger] rows(out@)[j], k as int, av),
            forall|j: int| 0 <= j < out@.len() ==> row_src_ok(#[trigger] rows(out@)[j], k as int, sv),
            forall|j: int|
                0 <= j < out@.len() ==> bnd_at(av, sv, (#[trigger] rows(out@)[j]).hi) && bnd_at(
                    av,
                    sv,
                    rows(out@)[j].lo - 1,
                ),
            forall|p: int|
                p < pos as int ==> (rows_cover(rows(out@), p) <==> (rows_cover(av, p)
                    || entries_cover(sv, p))),
        decreases (na - ia) + (nb - ib), i64::MAX as int + 1 - pos as int,
    {
        // the next boundary: the least yet-unhandled covered point
        let mut lo: i64 = 0;
        let mut have: bool = false;
        if ia < na {
            let s = acc[ia].iv.start;
            lo = if (s as i128) > pos {
                s
            } else {
                pos as i64
            };
            have = true;
        }
        if ib < nb {
            let s = src.get(ib).iv.start;
            let sb: i64 = if (s as i128) > pos {
                s
            } else {
                pos as i64
            };
            if !have || sb < lo {
                lo = sb;
            }
            have = true;
        }
        // the span's end: the nearest boundary of either side
        let mut hi: i64 = i64::MAX;
        let mut a_cov: bool = false;
        if ia < na {
            let astart = acc[ia].iv.start;
            let aend = acc[ia].iv.end;
            if astart <= lo {
                a_cov = true;
                if aend < hi {
                    hi = aend;
                }
            } else {
                if astart - 1 < hi {
                    hi = astart - 1;
                }
            }
        }
        let mut b_cov: bool = false;
        if ib < nb {
            let bstart = src.get(ib).iv.start;
            let bend = src.get(ib).iv.end;
            if bstart <= lo {
                b_cov = true;
                if bend < hi {
                    hi = bend;
                }
            } else {
                if bstart - 1 < hi {
                    hi = bstart - 1;
                }
            }
        }
        proof {
            assert(a_cov || b_cov);
            assert(lo <= hi);
        }
        // the value vector: the accumulated values where the row lies in an
        // accumulated row, then the source value where it lies in an entry
        let mut vs: Vec<Option<Rat>> = if a_cov {
            proof {
                assert(av[ia as int].vs.len() == k as nat);
                assert(av[ia as int] == acc@[ia as int]@);
            }
            copy_vals(&acc[ia].vals)
        } else {
            none_vals(k)
        };
        if b_cov {
            vs.push(Some(src.get(ib).val));
        } else {
            vs.push(None);
        }
        let r = Row { iv: Interval { start: lo, end: hi }, vals: vs };
        let ghost ov = out@;
        let ghost outv = rows(out@);
        proof {
            assert(r@.vs.len() == k + 1);
            if a_cov {
                assert(r@.vs.take(k as int) =~= av[ia as int].vs) by {
                    assert forall|t: int| 0 <= t < k as int implies r@.vs[t] == av[ia as int].vs[t] by {
                        assert(r@.vs[t] == o2f(acc@[ia as int].vals@[t]));
                    }
                }
            }
            if b_cov {
                assert(r@.vs[k as int] == Some(sv[ib as int].v));
            } else {
                assert(r@.vs[k as int] is None);
            }
        }
        out.push(r);
        proof {
            lemma_rows_push(ov, r);
            assert(step_state(av, sv, k as nat, ia as int, ib as int, pos as int, r@, a_cov, b_cov));
            lemma_step_rows(av, sv, outv, k as nat, ia as int, ib as int, pos as int, r@, a_cov, b_cov);
            lemma_step_cover(av, sv, outv, k as nat, ia as int, ib as int, pos as int, r@, a_cov, b_cov);
            // the new row's end sits at an input edge
            assert(bnd_at(av, sv, r@.hi)) by {
                assert((ia < na && (av[ia as int].hi == hi as int || av[ia as int].lo == hi as int
                    + 1)) || (ib < nb && (sv[ib as int].hi == hi as int || sv[ib as int].lo
                    == hi as int + 1)));
            }
            // so does the point just before its start
            assert(bnd_at(av, sv, r@.lo - 1)) by {
                if lo as i128 == pos {
                    if pos == i64::MIN as i128 {
                        assert((ia < na && av[ia as int].lo == lo as int) || (ib < nb && sv[ib
                            as int].lo == lo as int));
                    } else {
                        assert(outv.len() > 0);
                        assert(outv[outv.len() - 1].hi == lo as int - 1);
                        assert(bnd_at(av, sv, outv[outv.len() - 1].hi));
                    }
                } else {
                    assert((ia < na && av[ia as int].lo == lo as int) || (ib < nb && sv[ib
                        as int].lo == lo as int));
                }
            }
            assert forall|j: int|
                0 <= j < out@.len() implies bnd_at(av, sv, (#[trigger] rows(out@)[j]).hi)
                && bnd_at(av, sv, rows(out@)[j].lo - 1) by {
                if j < outv.len() {
                    assert(rows(out@)[j] == outv[j]);
                } else {
                    assert(rows(out@)[j] == r@);
                }
            }
            assert(rows(out@).last() == r@);
        }
        // consume whichever side's piece ends at this boundary
        if ia < na {
            if a_cov && acc[ia].iv.end == hi {
                ia += 1;
            }
        }
        if ib < nb {
            let bend = src.get(ib).iv.end;
            if b_cov && bend == hi {
                ib += 1;
            }
        }
        pos = hi as i128 + 1;
        proof {
            if ia < na {
                assert(av[ia as int].hi >= pos as int);
            }
            if ib < nb {
                assert(sv[ib as int].hi >= pos as int);
            }
        }
    }
    proof {
        assert forall|p: int| rows_cover(rows(out@), p) <==> (rows_cover(rows(acc@), p)
            || entries_cover(src@, p)) by {
            if p >= pos as int {
                lemma_rows_ordered(rows(out@), (k + 1) as nat);
                if rows_cover(rows(out@), p) {
                    let j = choose|j: int|
                        0 <= j < rows(out@).len() && (#[trigger] rows(out@)[j]).lo <= p <= rows(
                            out@,
                        )[j].hi;
                    assert(rows(out@)[j].hi <= rows(out@).last().hi);
                }
                if rows_cover(av, p) {
                    let j = choose|j: int|
                        0 <= j < av.len() && (#[trigger] av[j]).lo <= p <= av[j].hi;
                    assert(av[j].hi < pos as int);
                }
                if entries_cover(sv, p) {
                    let j = choose|j: int|
                        0 <= j < sv.len() && (#[trigger] sv[j]).lo <= p <= sv[j].hi;
                    assert(sv[j].hi < pos as int);
                }
            }
        }
        assert(covers_both(rows(out@), rows(acc@), src@)) by {
            assert forall|p: int| #[trigger] rows_cover(rows(out@), p) <==> (rows_cover(
                rows(acc@),
                p,
            ) || entries_cover(src@, p)) by {}
        }
    }
    out
}

/// A boundary of rows refined against an accumulation traces back to a
/// source edge: either it is an edge of the fresh source, or it is an edge
/// of some accumulated row, whose boundaries are themselves source edges.
pub proof fn lemma_edge_transfer(prevv: Seq<RowS>, svs: Seq<Seq<EntryS>>, m: int, p: int)
    requires
        0 <= m < svs.len(),
        bnd_at(prevv, svs[m], p),
        forall|j: int|
            0 <= j < prevv.len() ==> edge_upto(svs, m, (#[trigger] prevv[j]).hi) && edge_upto(
                svs,
                m,
                prevv[j].lo - 1,
            ),
    ensures
        edge_upto(svs, m + 1, p),
{
    if row_edge_at(prevv, p) {
        let j = choose|j: int|
            0 <= j < prevv.len() && ((#[trigger] prevv[j]).hi == p || prevv[j].lo == p + 1);
        if prevv[j].hi == p {
            assert(edge_upto(svs, m, prevv[j].hi));
            let s = choose|s: int| 0 <= s < m && entry_edge_at(#[trigger] svs[s], p);
            assert(entry_edge_at(svs[s], p));
        } else {
            assert(prevv[j].lo - 1 == p);
            assert(edge_upto(svs, m, prevv[j].lo - 1));
            let s = choose|s: int| 0 <= s < m && entry_edge_at(#[trigger] svs[s], p);
            assert(entry_edge_at(svs[s], p));
        }
    } else {
        assert(entry_edge_at(svs[m], p));
    }
}

/// A row refined against an earlier accumulation keeps its relation to any
/// source that the accumulation already related to.
pub proof fn lemma_row_compose(prev: Seq<RowS>, m: int, s: int, es: Seq<EntryS>, r: RowS)
    requires
        0 <= s < m,
        m <= r.vs.len(),
        r.lo <= r.hi,
        row_acc_ok(r, m, prev),
        forall|j: int| 0 <= j < prev.len() ==> row_src_ok(#[trigger] prev[j], s, es),
        forall|p: int| entries_cover(es, p) ==> rows_cover(prev, p),
        forall|j: int| 0 <= j < es.len() ==> (#[trigger] es[j]).lo <= es[j].hi,
    ensures
        row_src_ok(r, s, es),
{
    if exists|mm: int|
        0 <= mm < prev.len() && (#[trigger] prev[mm]).lo <= r.lo && r.hi <= prev[mm].hi
            && r.vs.take(m) =~= prev[mm].vs {
        let mm = choose|mm: int|
            0 <= mm < prev.len() && (#[trigger] prev[mm]).lo <= r.lo && r.hi <= prev[mm].hi
                && r.vs.take(m) =~= prev[mm].vs;
        assert(r.vs[s] == r.vs.take(m)[s]);
        assert(row_src_ok(prev[mm], s, es));
        if exists|e: int|
            0 <= e < es.len() && (#[trigger] es[e]).lo <= prev[mm].lo && prev[mm].hi <= es[e].hi
                && prev[mm].vs[s] == Some(es[e].v) {
            let e = choose|e: int|
                0 <= e < es.len() && (#[trigger] es[e]).lo <= prev[mm].lo && prev[mm].hi
                    <= es[e].hi && prev[mm].vs[s] == Some(es[e].v);
            assert(es[e].lo <= r.lo && r.hi <= es[e].hi && r.vs[s] == Some(es[e].v));
        } else {
            assert(prev[mm].vs[s] is None);
            assert forall|e: int| 0 <= e < es.len() implies !((#[trigger] es[e]).lo <= r.hi && r.lo
                <= es[e].hi) by {
                assert(!(es[e].lo <= prev[mm].hi && prev[mm].lo <= es[e].hi));
            }
        }
    } else {
        assert(forall|t: int| 0 <= t < m ==> (#[trigger] r.vs[t]) is None);
        assert(r.vs[s] is None);
        assert forall|e: int| 0 <= e < es.len() implies !((#[trigger] es[e]).lo <= r.hi && r.lo
            <= es[e].hi) by {
            if es[e].lo <= r.hi && r.lo <= es[e].hi {
                let p: int = if es[e].lo >= r.lo {
                    es[e].lo
                } else {
                    r.lo
                };
                assert(es[e].lo <= p <= es[e].hi);
                assert(r.lo <= p <= r.hi);
                assert(entries_cover(es, p));
                assert(rows_cover(prev, p));
                let jj = choose|jj: int|
                    0 <= jj < prev.len() && (#[trigger] prev[jj]).lo <= p <= prev[jj].hi;
                assert(!(prev[jj].lo <= r.hi && r.lo <= prev[jj].hi));
            }
        }
    }
}

/// The image of a partition vector in specification space.
pub open spec fn parts_view(s: Seq<Partition>) -> Seq<Seq<EntryS>> {
    s.map_values(|p: Partition| p@)
}

/// Whether one of the first `m` sources has an entry edge at `p`.
pub open spec fn edge_upto(svs: Seq<Seq<EntryS>>, m: int, p: int) -> bool {
    exists|s: int| 0 <= s < m && entry_edge_at(#[trigger] svs[s], p)
}

/// The common refinement of all the sources: the finest joint partition,
/// each output interval carrying one optional value per source. Every
/// output interval lies inside one entry (or touches none) of every source,
/// and the output spans exactly the union of the sources' spans.
#[verifier::rlimit(100)]
pub fn common_refinement(sources: &Vec<Partition>) -> (out: Result<Vec<Row>, Error>)
    requires
        forall|s: int| 0 <= s < sources@.len() ==> (#[trigger] sources@[s]).wf(),
    ensures
        match out {
            Ok(rws) => {
                &&& sources@.len() >= 1
                &&& rows_wf(rows(rws@), sources@.len() as nat)
                &&& forall|j: int, s: int|
                    0 <= j < rws@.len() && 0 <= s < sources@.len() ==> row_src_ok(
                        #[trigger] rows(rws@)[j],
                        s,
                        (#[trigger] sources@[s])@,
                    )
                &&& forall|p: int|
                    rows_cover(rows(rws@), p) <==> exists|s: int|
                        0 <= s < sources@.len() && entries_cover((#[trigger] sources@[s])@, p)
                &&& forall|j: int|
                    0 <= j < rws@.len() ==> edge_upto(
                        parts_view(sources@),
                        sources@.len() as int,
                        (#[trigger] rows(rws@)[j]).hi,
                    ) && edge_upto(parts_view(sources@), sources@.len() as int, rows(rws@)[j].lo - 1)
            },
            Err(e) => e == Error::SourceEmpty,
        },
        out is Err <==> sources@.len() == 0,
{
    let ghost svs: Seq<Seq<EntryS>> = Seq::new(sources@.len() as nat, |s: int| sources@[s]@);
    if sources.len() == 0 {
        return Err(Error::SourceEmpty);
    }
    let mut rws = rows_from(&sources[0]);
    proof {
        assert(svs[0] == sources@[0]@);
        assert forall|p: int| rows_cover(rows(rws@), p) implies exists|s: int|
            0 <= s < 1 && entries_cover(#[trigger] svs[s], p) by {
            assert(entries_cover(svs[0], p));
        }
        assert forall|j: int| 0 <= j < rws@.len() implies edge_upto(
            svs,
            1,
            (#[trigger] rows(rws@)[j]).hi,
        ) && edge_upto(svs, 1, rows(rws@)[j].lo - 1) by {
            assert(entry_edge_at(svs[0], rows(rws@)[j].hi));
            assert(entry_edge_at(svs[0], rows(rws@)[j].lo - 1));
        }
    }
    let mut m: usize = 1;
    while m < sources.len()
        invariant
            1 <= m <= sources@.len(),
            svs.len() == sources@.len(),
            forall|s: int| 0 <= s < sources@.len() ==> (#[trigger] sources@[s]).wf(),
            forall|s: int| 0 <= s < sources@.len() ==> #[trigger] svs[s] == sources@[s]@,
            rows_wf(rows(rws@), m as nat),
            forall|j: int, s: int|
                0 <= j < rws@.len() && 0 <= s < m as int ==> row_src_ok(
                    #[trigger] rows(rws@)[j],
                    s,
                    #[trigger] svs[s],
                ),
            forall|p: int|
                rows_cover(rows(rws@), p) <==> exists|s: int|
                    0 <= s < m as int && entries_cover(#[trigger] svs[s], p),
            forall|j: int|
                0 <= j < rws@.len() ==> edge_upto(svs, m as int, (#[trigger] rows(rws@)[j]).hi)
                    && edge_upto(svs, m as int, rows(rws@)[j].lo - 1),
        decreases sources@.len() - m,
    {
        let ghost prevv = rows(rws@);
        let nxt = flat_zip(&rws, m, &sources[m]);
        proof {
            assert(svs[m as int] == sources@[m as int]@);
            crate::partition::lemma_entries_ordered(svs[m as int]);
            assert forall|j: int, s: int|
                0 <= j < nxt@.len() && 0 <= s < m as int + 1 implies row_src_ok(
                #[trigger] rows(nxt@)[j],
                s,
                #[trigger] svs[s],
            ) by {
                assert(rows_wf(rows(nxt@), (m + 1) as nat));
                if s < m as int {
                    assert forall|p: int| entries_cover(svs[s], p) implies rows_cover(
                        prevv,
                        p,
                    ) by {
                        assert(0 <= s < m as int && entries_cover(svs[s], p));
                    }
                    assert forall|jj: int| 0 <= jj < svs[s].len() implies (
                    #[trigger] svs[s][jj]).lo <= svs[s][jj].hi by {
                        assert(sources@[s].wf());
                        assert(crate::partition::entry_wf(svs[s][jj]));
                    }
                    assert(row_acc_ok(rows(nxt@)[j], m as int, prevv));
                    assert(rows(nxt@)[j].lo <= rows(nxt@)[j].hi);
                    assert(rows(nxt@)[j].vs.len() == m + 1);
                    lemma_row_compose(prevv, m as int, s, svs[s], rows(nxt@)[j]);
                } else {
                    assert(row_src_ok(rows(nxt@)[j], m as int, svs[m as int]));
                }
            }
            assert forall|p: int| rows_cover(rows(nxt@), p) implies exists|s: int|
                0 <= s < m as int + 1 && entries_cover(#[trigger] svs[s], p) by {
                if rows_cover(prevv, p) {
                    let s = choose|s: int| 0 <= s < m as int && entries_cover(#[trigger] svs[s], p);
                    assert(0 <= s < m as int + 1 && entries_cover(svs[s], p));
                } else {
                    assert(entries_cover(svs[m as int], p));
                }
            }
            assert forall|p: int|
                (exists|s: int| 0 <= s < m as int + 1 && entries_cover(#[trigger] svs[s], p))
                implies rows_cover(rows(nxt@), p) by {
                let s = choose|s: int| 0 <= s < m as int + 1 && entries_cover(#[trigger] svs[s], p);
                if s < m as int {
                    assert(rows_cover(prevv, p));
                }
            }
            // every cut of the refined rows lies at some source's edge
            assert forall|j: int| 0 <= j < nxt@.len() implies edge_upto(
                svs,
                m as int + 1,
                (#[trigger] rows(nxt@)[j]).hi,
            ) && edge_upto(svs, m as int + 1, rows(nxt@)[j].lo - 1) by {
                lemma_edge_transfer(prevv, svs, m as int, rows(nxt@)[j].hi);
                lemma_edge_transfer(prevv, svs, m as int, rows(nxt@)[j].lo - 1);
            }
        }
        rws = nxt;
        m += 1;
    }
    proof {
        assert(svs =~= parts_view(sources@));
        assert forall|j: int, s: int|
            0 <= j < rws@.len() && 0 <= s < sources@.len() implies row_src_ok(
            #[trigger] rows(rws@)[j],
            s,
            (#[trigger] sources@[s])@,
        ) by {
            assert(row_src_ok(rows(rws@)[j], s, svs[s]));
        }
        assert forall|p: int| rows_cover(rows(rws@), p) implies exists|s: int|
            0 <= s < sources@.len() && entries_cover((#[trigger] sources@[s])@, p) by {
            let s = choose|s: int|
                0 <= s < sources@.len() && entries_cover(#[trigger] svs[s], p);
            assert(entries_cover(sources@[s]@, p));
        }
        assert forall|p: int|
            (exists|s: int| 0 <= s < sources@.len() && entries_cover((#[trigger] sources@[s])@, p))
            implies rows_cover(rows(rws@), p) by {
            let s = choose|s: int|
                0 <= s < sources@.len() && entries_cover((#[trigger] sources@[s])@, p);
            assert(entries_cover(svs[s], p));
        }
    }
    Ok(rws)
}


} // verus!
