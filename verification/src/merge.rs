use crate::binning::mod_floor;
use crate::chrom::{clone_bytes, eq_bytes, lemma_lex_trichotomy, lex_lt, lt_bytes};
use crate::error::Error;
use crate::rat::{frac_wf, Frac, Rat};
use crate::refine::o2f;
use vstd::prelude::*;

verus! {

/// One already-binned, already-sorted record of an external source:
/// `(chromosome, start, end_exclusive, optional value)`.
#[derive(Clone, Debug)]
pub struct SourceRecord {
    pub chrom: Vec<u8>,
    pub start: i64,
    pub end_exclusive: i64,
    pub value: Option<Rat>,
}

/// A source record in specification space.
pub struct RecS {
    pub chrom: Seq<u8>,
    pub start: int,
    pub endx: int,
    pub val: Option<Frac>,
}

impl View for SourceRecord {
    type V = RecS;

    open spec fn view(&self) -> RecS {
        RecS {
            chrom: self.chrom@,
            start: self.start as int,
            endx: self.end_exclusive as int,
            val: o2f(self.value),
        }
    }
}

/// One unified wide row of the merge: one value per source, with the
/// configured default where a source has no record at this position.
#[derive(Clone, Debug)]
pub struct ZippedBedGraphLine {
    pub chrom: Vec<u8>,
    pub start: i64,
    pub end_exclusive: i64,
    pub values: Vec<Rat>,
}

pub open spec fn recs(s: Seq<SourceRecord>) -> Seq<RecS> {
    s.map_values(|r: SourceRecord| r@)
}

pub open spec fn srcs_view(s: Seq<Vec<SourceRecord>>) -> Seq<Seq<RecS>> {
    s.map_values(|v: Vec<SourceRecord>| recs(v@))
}

/// Machine bounds that every record fed to the merge must satisfy.
pub open spec fn rec_in_range(r: RecS, il: int) -> bool {
    &&& i64::MIN < r.start <= i64::MAX - il
    &&& i64::MIN <= r.endx <= i64::MAX
    &&& (r.val is Some ==> frac_wf(r.val->0))
}

/// The record-shape invariants that hold of every record: uniform length
/// and an aligned start.
pub open spec fn valid_shape(r: RecS, il: int, al: int) -> bool {
    &&& r.endx - r.start == il
    &&& r.start % il == al
}

/// The invariants enforced when a reserve advances from record `prev` to
/// record `next`: uniform record length, aligned start, strictly
/// increasing starts within a chromosome, and chromosomes in strictly
/// ascending order (which also rules out interleaving).
pub open spec fn valid_step(prev: RecS, next: RecS, il: int, al: int) -> bool {
    &&& valid_shape(next, il, al)
    &&& (if next.chrom == prev.chrom {
        next.start >= prev.endx
    } else {
        lex_lt(prev.chrom, next.chrom)
    })
}

/// One source's read cursor for a record-at-a-time merge: it holds exactly
/// one unconsumed record, so a driver that feeds records one by one keeps
/// the whole merge at one record per source, however long the sources are.
/// Every record is validated as it enters: the shape invariants always,
/// and the ordering invariants against the record it replaces.
pub struct BedReserve {
    current: Option<SourceRecord>,
    alignment: i64,
    interval_length: i64,
}

impl BedReserve {
    pub closed spec fn cur_rec(self) -> Option<RecS> {
        o2rec(self.current)
    }

    pub closed spec fn il(self) -> int {
        self.interval_length as int
    }

    pub closed spec fn al(self) -> int {
        self.alignment as int
    }

    pub open spec fn wf(self) -> bool {
        &&& self.il() >= 1
        &&& self.al() >= 0
        &&& (self.cur_rec() matches Some(c) ==> rec_in_range(c, self.il()) && valid_shape(
            c,
            self.il(),
            self.al(),
        ))
    }

    /// Opens a reserve on its first record (or none for an empty source).
    /// A bad configuration is `InvalidRange`; a first record breaking the
    /// shape invariants is `OrderingViolation`.
    pub fn new(first: Option<SourceRecord>, alignment: i64, interval_length: i64) -> (r: Result<
        BedReserve,
        Error,
    >)
        requires
            o2rec(first) matches Some(c) ==> rec_in_range(c, interval_length as int),
        ensures
            r is Ok <==> (alignment >= 0 && interval_length >= 1 && (o2rec(first) matches Some(c)
                ==> valid_shape(c, interval_length as int, alignment as int))),
            r == Err::<BedReserve, Error>(Error::InvalidRange) <==> (alignment < 0
                || interval_length < 1),
            r is Err ==> r == Err::<BedReserve, Error>(Error::InvalidRange) || r == Err::<
                BedReserve,
                Error,
            >(Error::OrderingViolation),
            match r {
                Ok(z) => z.wf() && z.cur_rec() == o2rec(first) && z.il() == interval_length as int
                    && z.al() == alignment as int,
                Err(_) => true,
            },
    {
        if alignment < 0 || interval_length < 1 {
            return Err(Error::InvalidRange);
        }
        match &first {
            Some(rec) => {
                let ok_len = (rec.end_exclusive as i128) - (rec.start as i128) == (interval_length
                    as i128);
                let m = mod_floor(rec.start, interval_length);
                if !(ok_len && m == alignment) {
                    return Err(Error::OrderingViolation);
                }
            },
            None => {},
        }
        Ok(BedReserve { current: first, alignment, interval_length })
    }

    /// The unconsumed record, if any.
    pub fn current(&self) -> (r: &Option<SourceRecord>)
        ensures
            o2rec(*r) == self.cur_rec(),
    {
        &self.current
    }

    /// Replaces the consumed record with the source's next one (or none at
    /// the end), enforcing the shape and ordering invariants; a violation
    /// leaves the reserve unchanged and aborts the merge.
    pub fn advance(&mut self, next: Option<SourceRecord>) -> (r: Result<(), Error>)
        requires
            old(self).wf(),
            o2rec(next) matches Some(c) ==> rec_in_range(c, old(self).il()),
        ensures
            final(self).wf(),
            final(self).il() == old(self).il(),
            final(self).al() == old(self).al(),
            r is Ok <==> match (old(self).cur_rec(), o2rec(next)) {
                (_, None) => true,
                (None, Some(c)) => valid_shape(c, old(self).il(), old(self).al()),
                (Some(prev), Some(c)) => valid_step(prev, c, old(self).il(), old(self).al()),
            },
            r is Ok ==> final(self).cur_rec() == o2rec(next),
            r is Err ==> r == Err::<(), Error>(Error::OrderingViolation) && *final(self) == *old(
                self,
            ),
    {
        match &next {
            Some(rec) => {
                let ok_len = (rec.end_exclusive as i128) - (rec.start as i128)
                    == (self.interval_length as i128);
                let m = mod_floor(rec.start, self.interval_length);
                let ok_shape = ok_len && m == self.alignment;
                let ok_order = match &self.current {
                    Some(prev) => {
                        if eq_bytes(&rec.chrom, &prev.chrom) {
                            rec.start >= prev.end_exclusive
                        } else {
                            lt_bytes(&prev.chrom, &rec.chrom)
                        }
                    },
                    None => true,
                };
                if !(ok_shape && ok_order) {
                    return Err(Error::OrderingViolation);
                }
                self.current = next;
                Ok(())
            },
            None => {
                self.current = None;
                Ok(())
            },
        }
    }
}

/// The record view of an optional record.
pub open spec fn o2rec(o: Option<SourceRecord>) -> Option<RecS> {
    match o {
        Some(r) => Some(r@),
        None => None,
    }
}

/// The in-memory K-way merge zipper: one read cursor per pre-refined,
/// pre-binned, externally sorted source, over sources its caller has
/// already materialized. A driver that cannot hold whole sources instead
/// keeps one `BedReserve` per source and feeds records one at a time.
pub struct RefinedBedZipperIter {
    sources: Vec<Vec<SourceRecord>>,
    idxs: Vec<usize>,
    alignment: i64,
    interval_length: i64,
    default_value: Rat,
}

impl RefinedBedZipperIter {
    pub closed spec fn srcs(self) -> Seq<Seq<RecS>> {
        srcs_view(self.sources@)
    }

    pub closed spec fn cursors(self) -> Seq<int> {
        self.idxs@.map_values(|i: usize| i as int)
    }

    pub closed spec fn il(self) -> int {
        self.interval_length as int
    }

    pub closed spec fn al(self) -> int {
        self.alignment as int
    }

    pub closed spec fn dflt(self) -> Frac {
        self.default_value@
    }

    pub open spec fn wf(self) -> bool {
        &&& self.cursors().len() == self.srcs().len()
        &&& forall|i: int|
            0 <= i < self.srcs().len() ==> 0 <= #[trigger] self.cursors()[i] <= self.srcs()[i].len()
        &&& forall|i: int, j: int|
            0 <= i < self.srcs().len() && 0 <= j < self.srcs()[i].len() ==> rec_in_range(
                #[trigger] self.srcs()[i][j],
                self.il(),
            )
        &&& self.il() >= 1
        &&& self.al() >= 0
        &&& frac_wf(self.dflt())
    }

    /// Whether reserve `i` still holds an unconsumed record.
    pub open spec fn has_cur(self, i: int) -> bool {
        self.cursors()[i] < self.srcs()[i].len()
    }

    /// Reserve `i`'s current record.
    pub open spec fn cur(self, i: int) -> RecS {
        self.srcs()[i][self.cursors()[i]]
    }

    /// Whether reserve `i`'s current record sits exactly at `(ch, st)`.
    pub open spec fn row_match(self, i: int, ch: Seq<u8>, st: int) -> bool {
        self.has_cur(i) && self.cur(i).chrom == ch && self.cur(i).start == st
    }

    /// Whether `(ch, st)` is the next position to emit: the least current
    /// chromosome, and the least start on that chromosome.
    pub open spec fn min_pos(self, ch: Seq<u8>, st: int) -> bool {
        &&& exists|i: int| 0 <= i < self.srcs().len() && #[trigger] self.row_match(i, ch, st)
        &&& forall|i: int|
            0 <= i < self.srcs().len() && #[trigger] self.has_cur(i) ==> !lex_lt(
                self.cur(i).chrom,
                ch,
            )
        &&& forall|i: int|
            0 <= i < self.srcs().len() && #[trigger] self.has_cur(i) && self.cur(i).chrom == ch
                ==> self.cur(i).start >= st
    }

    /// Whether some reserve that must advance for the row at `(ch, st)`
    /// holds a following record that breaks the ordering invariants.
    pub open spec fn step_violation(self, ch: Seq<u8>, st: int) -> bool {
        exists|i: int|
            0 <= i < self.srcs().len() && #[trigger] self.row_match(i, ch, st) && self.cursors()[i]
                + 1 < self.srcs()[i].len() && !valid_step(
                self.cur(i),
                self.srcs()[i][self.cursors()[i] + 1],
                self.il(),
                self.al(),
            )
    }

    /// Builds the zipper. A negative alignment or a non-positive record
    /// length is rejected with `InvalidRange`; a source whose first record
    /// breaks the length or alignment invariant is rejected with
    /// `OrderingViolation`, so that every record a row is taken from has
    /// been validated.
    pub fn new(
        sources: Vec<Vec<SourceRecord>>,
        alignment: i64,
        interval_length: i64,
        default_value: Rat,
    ) -> (r: Result<RefinedBedZipperIter, Error>)
        requires
            default_value.wf(),
            forall|i: int, j: int|
                0 <= i < sources@.len() && 0 <= j < srcs_view(sources@)[i].len() ==> rec_in_range(
                    #[trigger] srcs_view(sources@)[i][j],
                    interval_length as int,
                ),
        ensures
            r is Ok <==> (alignment >= 0 && interval_length >= 1 && forall|i: int|
                0 <= i < sources@.len() && srcs_view(sources@)[i].len() > 0 ==> valid_shape(
                    #[trigger] srcs_view(sources@)[i][0],
                    interval_length as int,
                    alignment as int,
                )),
            r == Err::<RefinedBedZipperIter, Error>(Error::InvalidRange) <==> (alignment < 0
                || interval_length < 1),
            r is Err ==> r == Err::<RefinedBedZipperIter, Error>(Error::InvalidRange) || r
                == Err::<RefinedBedZipperIter, Error>(Error::OrderingViolation),
            match r {
                Ok(z) => {
                    &&& z.wf()
                    &&& z.srcs() == srcs_view(sources@)
                    &&& forall|i: int| 0 <= i < z.cursors().len() ==> #[trigger] z.cursors()[i] == 0
                    &&& z.il() == interval_length as int
                    &&& z.al() == alignment as int
                    &&& z.dflt() == default_value@
                },
                Err(_) => true,
            },
    {
        if alignment < 0 || interval_length < 1 {
            return Err(Error::InvalidRange);
        }
        let n = sources.len();
        let mut i: usize = 0;
        while i < n
            invariant
                i <= n,
                n == sources@.len(),
                interval_length >= 1,
                alignment >= 0,
                forall|k: int, j: int|
                    0 <= k < sources@.len() && 0 <= j < srcs_view(sources@)[k].len()
                        ==> rec_in_range(
                        #[trigger] srcs_view(sources@)[k][j],
                        interval_length as int,
                    ),
                forall|k: int|
                    0 <= k < i as int && srcs_view(sources@)[k].len() > 0 ==> valid_shape(
                        #[trigger] srcs_view(sources@)[k][0],
                        interval_length as int,
                        alignment as int,
                    ),
            decreases n - i,
        {
            if sources[i].len() > 0 {
                proof {
                    assert(sources@[i as int]@[0]@ == srcs_view(sources@)[i as int][0]);
                    assert(rec_in_range(srcs_view(sources@)[i as int][0], interval_length as int));
                }
                let r0_start = sources[i][0].start;
                let r0_endx = sources[i][0].end_exclusive;
                let ok_len = (r0_endx as i128) - (r0_start as i128) == (interval_length as i128);
                let m = mod_floor(r0_start, interval_length);
                if !(ok_len && m == alignment) {
                    return Err(Error::OrderingViolation);
                }
            }
            i += 1;
        }
        let mut idxs: Vec<usize> = Vec::new();
        let mut i2: usize = 0;
        while i2 < n
            invariant
                i2 <= n,
                idxs@.len() == i2,
                forall|j: int| 0 <= j < i2 as int ==> #[trigger] idxs@[j] == 0,
            decreases n - i2,
        {
            idxs.push(0);
            i2 += 1;
        }
        Ok(RefinedBedZipperIter { sources, idxs, alignment, interval_length, default_value })
    }

    /// Emits one unified row, or `None` when every reserve is exhausted.
    /// The row sits at the least current chromosome and, within it, at the
    /// least current start; every reserve whose record sits exactly there
    /// contributes its value (or the default where the record carries none)
    /// and advances; every other reserve contributes the default. A
    /// following record that breaks the ordering invariants aborts the
    /// whole merge with `OrderingViolation`.
    #[verifier::rlimit(100)]
    pub fn next(&mut self) -> (r: Result<Option<ZippedBedGraphLine>, Error>)
        requires
            old(self).wf(),
        ensures
            final(self).wf(),
            final(self).srcs() == old(self).srcs(),
            final(self).il() == old(self).il(),
            final(self).al() == old(self).al(),
            final(self).dflt() == old(self).dflt(),
            match r {
                Ok(opt) => match opt {
                    None => (forall|i: int|
                        0 <= i < old(self).srcs().len() ==> !(#[trigger] old(self).has_cur(i)))
                        && final(self).cursors() == old(self).cursors(),
                    Some(row) => {
                        &&& old(self).min_pos(row.chrom@, row.start as int)
                        &&& row.end_exclusive as int == row.start as int + old(self).il()
                        &&& row.values@.len() == old(self).srcs().len()
                        &&& forall|i: int|
                            0 <= i < old(self).srcs().len() ==> (#[trigger] row.values@[i])@ == (
                            if old(self).row_match(i, row.chrom@, row.start as int) {
                                match old(self).cur(i).val {
                                    Some(v) => v,
                                    None => old(self).dflt(),
                                }
                            } else {
                                old(self).dflt()
                            })
                        &&& forall|i: int|
                            0 <= i < old(self).srcs().len() ==> #[trigger] final(self).cursors()[i]
                                == old(self).cursors()[i] + (if old(self).row_match(
                                i,
                                row.chrom@,
                                row.start as int,
                            ) {
                                1int
                            } else {
                                0int
                            })
                        &&& forall|i: int|
                            0 <= i < old(self).srcs().len() && old(self).row_match(
                                i,
                                row.chrom@,
                                row.start as int,
                            ) && #[trigger] final(self).has_cur(i) ==> valid_step(
                                old(self).cur(i),
                                final(self).cur(i),
                                old(self).il(),
                                old(self).al(),
                            )
                    },
                },
                Err(e) => e == Error::OrderingViolation,
            },
            r is Err <==> exists|ch: Seq<u8>, st: int|
                #[trigger] old(self).min_pos(ch, st) && old(self).step_violation(ch, st),
    {
        let n = self.sources.len();
        // find the least (chromosome, start) among the current records
        let mut found = false;
        let mut best_i: usize = 0;
        let mut i: usize = 0;
        while i < n
            invariant
                *self == *old(self),
                old(self).wf(),
                i <= n,
                n == self.srcs().len(),
                n == self.sources@.len(),
                found ==> best_i < n && self.has_cur(best_i as int),
                !found ==> forall|j: int| 0 <= j < i as int ==> !(#[trigger] self.has_cur(j)),
                found ==> forall|j: int|
                    0 <= j < i as int && #[trigger] self.has_cur(j) ==> !lex_lt(
                        self.cur(j).chrom,
                        self.cur(best_i as int).chrom,
                    ) && (self.cur(j).chrom == self.cur(best_i as int).chrom ==> self.cur(j).start
                        >= self.cur(best_i as int).start),
            decreases n - i,
        {
            let idx = self.idxs[i];
            if idx < self.sources[i].len() {
                proof {
                    assert(self.has_cur(i as int));
                    assert(self.sources@[i as int]@[idx as int]@ == self.cur(i as int));
                }
                if !found {
                    found = true;
                    best_i = i;
                    proof {
                        lemma_lex_trichotomy(self.cur(i as int).chrom, self.cur(i as int).chrom);
                    }
                } else {
                    let bidx = self.idxs[best_i];
                    let ghost ci = self.cur(i as int);
                    let ghost cb = self.cur(best_i as int);
                    let is_lt = lt_bytes(
                        &self.sources[i][idx].chrom,
                        &self.sources[best_i][bidx].chrom,
                    );
                    let is_eq = eq_bytes(
                        &self.sources[i][idx].chrom,
                        &self.sources[best_i][bidx].chrom,
                    );
                    let better = is_lt || (is_eq && self.sources[i][idx].start
                        < self.sources[best_i][bidx].start);
                    proof {
                        assert(self.sources@[best_i as int]@[bidx as int]@ == cb);
                        lemma_lex_trichotomy(ci.chrom, cb.chrom);
                        if better {
                            assert forall|j: int|
                                0 <= j < i as int + 1 && #[trigger] self.has_cur(j) implies !lex_lt(
                                self.cur(j).chrom,
                                ci.chrom,
                            ) && (self.cur(j).chrom == ci.chrom ==> self.cur(j).start
                                >= ci.start) by {
                                if j < i as int {
                                    if lex_lt(self.cur(j).chrom, ci.chrom) {
                                        if lex_lt(ci.chrom, cb.chrom) {
                                            crate::chrom::lemma_lex_trans(
                                                self.cur(j).chrom,
                                                ci.chrom,
                                                cb.chrom,
                                            );
                                        }
                                    }
                                } else {
                                    lemma_lex_trichotomy(ci.chrom, ci.chrom);
                                }
                            }
                        }
                    }
                    if better {
                        best_i = i;
                    }
                }
            }
            i += 1;
        }
        if !found {
            return Ok(None);
        }
        let bidx = self.idxs[best_i];
        let minch: Vec<u8> = clone_bytes(&self.sources[best_i][bidx].chrom);
        let minst: i64 = self.sources[best_i][bidx].start;
        proof {
            assert(self.sources@[best_i as int]@[bidx as int]@ == self.cur(best_i as int));
            assert(old(self).row_match(best_i as int, minch@, minst as int));
            assert(old(self).min_pos(minch@, minst as int));
        }

        // take the matching values and advance their reserves
        let mut values: Vec<Rat> = Vec::new();
        let mut k: usize = 0;
        while k < n
            invariant
                old(self).wf(),
                self.wf(),
                k <= n,
                n == self.srcs().len(),
                n == self.sources@.len(),
                n == old(self).srcs().len(),
                self.srcs() == old(self).srcs(),
                self.il() == old(self).il(),
                self.al() == old(self).al(),
                self.dflt() == old(self).dflt(),
                old(self).min_pos(minch@, minst as int),
                i64::MIN < minst as int <= i64::MAX - old(self).il(),
                values@.len() == k,
                forall|j: int|
                    0 <= j < k as int ==> (#[trigger] values@[j])@ == (if old(self).row_match(
                        j,
                        minch@,
                        minst as int,
                    ) {
                        match old(self).cur(j).val {
                            Some(v) => v,
                            None => old(self).dflt(),
                        }
                    } else {
                        old(self).dflt()
                    }),
                forall|j: int|
                    0 <= j < k as int ==> #[trigger] self.cursors()[j] == old(self).cursors()[j] + (
                    if old(self).row_match(j, minch@, minst as int) {
                        1int
                    } else {
                        0int
                    }),
                forall|j: int|
                    k as int <= j < n ==> #[trigger] self.cursors()[j] == old(self).cursors()[j],
                forall|j: int|
                    0 <= j < k as int && #[trigger] old(self).row_match(j, minch@, minst as int)
                        && old(self).cursors()[j] + 1 < old(self).srcs()[j].len() ==> valid_step(
                        old(self).cur(j),
                        old(self).srcs()[j][old(self).cursors()[j] + 1],
                        old(self).il(),
                        old(self).al(),
                    ),
            decreases n - k,
        {
            let idx = self.idxs[k];
            let slen = self.sources[k].len();
            let mut matched = false;
            if idx < slen {
                if eq_bytes(&self.sources[k][idx].chrom, &minch) {
                    if self.sources[k][idx].start == minst {
                        matched = true;
                    }
                }
            }
            proof {
                if idx < slen {
                    assert(self.sources@[k as int]@[idx as int]@ == self.cur(k as int));
                }
                assert(matched == old(self).row_match(k as int, minch@, minst as int));
            }
            if matched {
                let val: Rat = match self.sources[k][idx].value {
                    Some(v) => v,
                    None => self.default_value,
                };
                if idx + 1 < slen {
                    proof {
                        assert(self.sources@[k as int]@[idx as int + 1]@ == self.srcs()[k as
                            int][idx as int + 1]);
                        assert(rec_in_range(self.srcs()[k as int][idx as int + 1], self.il()));
                    }
                    let nxt_start = self.sources[k][idx + 1].start;
                    let nxt_endx = self.sources[k][idx + 1].end_exclusive;
                    let ok_len = (nxt_endx as i128) - (nxt_start as i128) == (self.interval_length
                        as i128);
                    let m = mod_floor(nxt_start, self.interval_length);
                    let ok_al = m == self.alignment;
                    let same = eq_bytes(&self.sources[k][idx + 1].chrom, &self.sources[k][idx].chrom);
                    let ok_ord = if same {
                        nxt_start >= self.sources[k][idx].end_exclusive
                    } else {
                        lt_bytes(&self.sources[k][idx].chrom, &self.sources[k][idx + 1].chrom)
                    };
                    if !(ok_len && ok_al && ok_ord) {
                        proof {
                            assert(!valid_step(
                                old(self).cur(k as int),
                                old(self).srcs()[k as int][old(self).cursors()[k as int] + 1],
                                old(self).il(),
                                old(self).al(),
                            ));
                            assert(old(self).step_violation(minch@, minst as int));
                        }
                        return Err(Error::OrderingViolation);
                    }
                    proof {
                        assert(valid_step(
                            old(self).cur(k as int),
                            old(self).srcs()[k as int][old(self).cursors()[k as int] + 1],
                            old(self).il(),
                            old(self).al(),
                        ));
                    }
                }
                let ghost oldcurs = self.cursors();
                self.idxs.set(k, idx + 1);
                proof {
                    assert(self.cursors() =~= oldcurs.update(k as int, oldcurs[k as int] + 1));
                }
                values.push(val);
            } else {
                values.push(self.default_value);
            }
            k += 1;
        }
        proof {
            assert forall|i: int|
                0 <= i < old(self).srcs().len() && old(self).row_match(i, minch@, minst as int)
                    && #[trigger] self.has_cur(i) implies valid_step(
                old(self).cur(i),
                self.cur(i),
                old(self).il(),
                old(self).al(),
            ) by {
                assert(self.cursors()[i] == old(self).cursors()[i] + 1);
                assert(self.cur(i) == old(self).srcs()[i][old(self).cursors()[i] + 1]);
            }
            assert forall|ch: Seq<u8>, st: int|
                #[trigger] old(self).min_pos(ch, st) implies !old(self).step_violation(ch, st) by {
                lemma_merge_min_unique(*old(self), ch, st, minch@, minst as int);
                if old(self).step_violation(minch@, minst as int) {
                    let j = choose|j: int|
                        0 <= j < old(self).srcs().len() && #[trigger] old(self).row_match(
                            j,
                            minch@,
                            minst as int,
                        ) && old(self).cursors()[j] + 1 < old(self).srcs()[j].len() && !valid_step(
                            old(self).cur(j),
                            old(self).srcs()[j][old(self).cursors()[j] + 1],
                            old(self).il(),
                            old(self).al(),
                        );
                    assert(self.has_cur(j));
                    assert(valid_step(old(self).cur(j), self.cur(j), old(self).il(), old(self).al()));
                }
            }
        }
        let row = ZippedBedGraphLine {
            chrom: minch,
            start: minst,
            end_exclusive: minst + self.interval_length,
            values,
        };
        Ok(Some(row))
    }

    pub fn num_sources(&self) -> (r: usize)
        requires
            self.wf(),
        ensures
            r == self.srcs().len(),
    {
        self.sources.len()
    }
}

/// The emitted position is unique: the zipper's next row is a function of
/// the reserves' current records alone, whatever order the reserves are
/// examined in.
pub proof fn lemma_merge_min_unique(
    z: RefinedBedZipperIter,
    ch1: Seq<u8>,
    st1: int,
    ch2: Seq<u8>,
    st2: int,
)
    requires
        z.min_pos(ch1, st1),
        z.min_pos(ch2, st2),
    ensures
        ch1 == ch2,
        st1 == st2,
{
    let i1 = choose|i: int| 0 <= i < z.srcs().len() && #[trigger] z.row_match(i, ch1, st1);
    let i2 = choose|i: int| 0 <= i < z.srcs().len() && #[trigger] z.row_match(i, ch2, st2);
    assert(z.has_cur(i1));
    assert(z.has_cur(i2));
    assert(!lex_lt(z.cur(i2).chrom, ch1));
    assert(!lex_lt(z.cur(i1).chrom, ch2));
    lemma_lex_trichotomy(ch1, ch2);
    assert(ch1 == ch2);
    assert(z.cur(i2).start >= st1);
    assert(z.cur(i1).start >= st2);
}

} // verus!
