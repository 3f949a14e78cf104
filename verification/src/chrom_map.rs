use crate::chrom::{clone_bytes, eq_bytes, lemma_lex_trichotomy, lemma_lex_trans, lex_lt, lt_bytes};
use crate::partition::Partition;
use vstd::prelude::*;

verus! {

/// The image of a key vector in specification space.
pub open spec fn keys_view(s: Seq<Vec<u8>>) -> Seq<Seq<u8>> {
    s.map_values(|k: Vec<u8>| k@)
}

/// Keys in strictly ascending lexicographic order.
pub open spec fn keys_sorted(s: Seq<Seq<u8>>) -> bool {
    forall|i: int| 0 <= i && i + 1 < s.len() ==> lex_lt(#[trigger] s[i], s[i + 1])
}

/// An ordered mapping from chromosome name to one partition: iteration
/// order is the documented lexicographic key order, not an accident of a
/// hashing implementation.
pub struct ChromMap {
    keys: Vec<Vec<u8>>,
    parts: Vec<Partition>,
}

impl ChromMap {
    pub closed spec fn keys(self) -> Seq<Seq<u8>> {
        keys_view(self.keys@)
    }

    pub closed spec fn parts(self) -> Seq<Seq<crate::partition::EntryS>> {
        self.parts@.map_values(|p: Partition| p@)
    }

    pub open spec fn wf(self) -> bool {
        &&& self.keys().len() == self.parts().len()
        &&& keys_sorted(self.keys())
        &&& forall|i: int|
            0 <= i < self.parts().len() ==> crate::partition::entries_wf(#[trigger] self.parts()[i])
    }

    pub fn new() -> (r: ChromMap)
        ensures
            r.wf(),
            r.keys().len() == 0,
    {
        ChromMap { keys: Vec::new(), parts: Vec::new() }
    }

    pub fn len(&self) -> (r: usize)
        ensures
            r == self.keys().len(),
    {
        self.keys.len()
    }

    pub fn key_at(&self, i: usize) -> (r: &Vec<u8>)
        requires
            i < self.keys().len(),
        ensures
            r@ == self.keys()[i as int],
    {
        &self.keys[i]
    }

    pub fn part_at(&self, i: usize) -> (r: &Partition)
        requires
            self.wf(),
            i < self.keys().len(),
        ensures
            r@ == self.parts()[i as int],
            r.wf(),
    {
        &self.parts[i]
    }

    /// Finds a chromosome's index, scanning in order.
    pub fn find(&self, chrom: &Vec<u8>) -> (r: Option<usize>)
        requires
            self.wf(),
        ensures
            match r {
                Some(i) => i < self.keys().len() && self.keys()[i as int] == chrom@,
                None => forall|i: int| 0 <= i < self.keys().len() ==> #[trigger] self.keys()[i] != chrom@,
            },
    {
        let n = self.keys.len();
        let mut i: usize = 0;
        while i < n
            invariant
                i <= n,
                n == self.keys().len(),
                forall|j: int| 0 <= j < i as int ==> #[trigger] self.keys()[j] != chrom@,
            decreases n - i,
        {
            proof {
                assert(self.keys@[i as int]@ == self.keys()[i as int]);
            }
            if eq_bytes(&self.keys[i], chrom) {
                return Some(i);
            }
            i += 1;
        }
        None
    }

    /// Appends a chromosome strictly after every present key.
    pub fn push_last(&mut self, chrom: Vec<u8>, part: Partition)
        requires
            old(self).wf(),
            part.wf(),
            old(self).keys().len() > 0 ==> lex_lt(old(self).keys().last(), chrom@),
        ensures
            final(self).wf(),
            final(self).keys() =~= old(self).keys().push(chrom@),
            final(self).parts() =~= old(self).parts().push(part@),
    {
        proof {
            lemma_keys_sorted_push(self.keys(), chrom@);
        }
        let ghost ok = self.keys@;
        let ghost op = self.parts@;
        self.keys.push(chrom);
        self.parts.push(part);
        proof {
            assert(keys_view(self.keys@) =~= keys_view(ok).push(self.keys@.last()@));
            assert(self.parts@.map_values(|p: Partition| p@) =~= op.map_values(|p: Partition| p@)
                .push(self.parts@.last()@));
        }
    }
}

pub proof fn lemma_keys_sorted_push(s: Seq<Seq<u8>>, c: Seq<u8>)
    requires
        keys_sorted(s),
        s.len() > 0 ==> lex_lt(s.last(), c),
    ensures
        keys_sorted(s.push(c)),
{
    let t = s.push(c);
    assert forall|i: int| 0 <= i && i + 1 < t.len() implies lex_lt(#[trigger] t[i], t[i + 1]) by {
        if i + 1 < s.len() {
            assert(t[i] == s[i]);
            assert(t[i + 1] == s[i + 1]);
        } else {
            assert(t[i + 1] == c);
            if i < s.len() {
                assert(t[i] == s[i]);
                assert(s[i] == s[s.len() - 1] || lex_lt(s[i], s[s.len() - 1]));
            }
        }
    }
}

/// In a sorted key list every earlier key is strictly below any later one.
pub proof fn lemma_keys_sorted_ordered(s: Seq<Seq<u8>>)
    requires
        keys_sorted(s),
    ensures
        forall|i: int, j: int| 0 <= i < j < s.len() ==> lex_lt(#[trigger] s[i], #[trigger] s[j]),
    decreases s.len(),
{
    if s.len() > 1 {
        assert(keys_sorted(s.drop_last())) by {
            assert forall|i: int| 0 <= i && i + 1 < s.drop_last().len() implies lex_lt(
                #[trigger] s.drop_last()[i],
                s.drop_last()[i + 1],
            ) by {
                assert(s.drop_last()[i] == s[i]);
                assert(s.drop_last()[i + 1] == s[i + 1]);
            }
        }
        lemma_keys_sorted_ordered(s.drop_last());
        assert forall|i: int, j: int| 0 <= i < j < s.len() implies lex_lt(
            #[trigger] s[i],
            #[trigger] s[j],
        ) by {
            if j < s.len() - 1 {
                assert(s.drop_last()[i] == s[i]);
                assert(s.drop_last()[j] == s[j]);
            } else {
                if i < j - 1 {
                    assert(s.drop_last()[i] == s[i]);
                    assert(s.drop_last()[j - 1] == s[j - 1]);
                    lemma_lex_trans(s[i], s[j - 1], s[j]);
                }
            }
        }
    }
}

/// The keys of an ordered mapping, already in ascending order.
pub fn get_sorted_keys(map: &ChromMap) -> (r: Vec<Vec<u8>>)
    requires
        map.wf(),
    ensures
        keys_view(r@) =~= map.keys(),
{
    let n = map.len();
    let mut r: Vec<Vec<u8>> = Vec::new();
    let mut i: usize = 0;
    while i < n
        invariant
            i <= n,
            n == map.keys().len(),
            map.wf(),
            keys_view(r@) =~= map.keys().take(i as int),
        decreases n - i,
    {
        let ghost ov = r@;
        let k = clone_bytes(map.key_at(i));
        r.push(k);
        proof {
            assert(keys_view(r@) =~= keys_view(ov).push(r@.last()@));
            assert(map.keys().take(i as int + 1) =~= map.keys().take(i as int).push(
                map.keys()[i as int],
            ));
        }
        i += 1;
    }
    proof {
        assert(map.keys().take(n as int) =~= map.keys());
    }
    r
}

/// Whether a key list holds `c`.
pub open spec fn has_key(s: Seq<Seq<u8>>, c: Seq<u8>) -> bool {
    exists|i: int| 0 <= i < s.len() && s[i] == c
}

/// Merges two sorted key lists into their sorted union.
#[verifier::rlimit(100)]
pub fn merge_keys(a: &Vec<Vec<u8>>, b: &Vec<Vec<u8>>) -> (r: Vec<Vec<u8>>)
    requires
        keys_sorted(keys_view(a@)),
        keys_sorted(keys_view(b@)),
    ensures
        keys_sorted(keys_view(r@)),
        forall|c: Seq<u8>|
            #[trigger] has_key(keys_view(r@), c) <==> (has_key(keys_view(a@), c) || has_key(
                keys_view(b@),
                c,
            )),
{
    let ghost av = keys_view(a@);
    let ghost bv = keys_view(b@);
    proof {
        lemma_keys_sorted_ordered(av);
        lemma_keys_sorted_ordered(bv);
    }
    let na = a.len();
    let nb = b.len();
    let mut ia: usize = 0;
    let mut ib: usize = 0;
    let mut r: Vec<Vec<u8>> = Vec::new();
    while ia < na || ib < nb
        invariant
            ia <= na,
            ib <= nb,
            na == av.len(),
            nb == bv.len(),
            av == keys_view(a@),
            bv == keys_view(b@),
            forall|i: int, j: int| 0 <= i < j < av.len() ==> lex_lt(#[trigger] av[i], #[trigger] av[j]),
            forall|i: int, j: int| 0 <= i < j < bv.len() ==> lex_lt(#[trigger] bv[i], #[trigger] bv[j]),
            keys_sorted(keys_view(r@)),
            r@.len() > 0 && ia < na ==> lex_lt(keys_view(r@).last(), av[ia as int]),
            r@.len() > 0 && ib < nb ==> lex_lt(keys_view(r@).last(), bv[ib as int]),
            forall|c: Seq<u8>|
                #[trigger] has_key(keys_view(r@), c) <==> (has_key(av.take(ia as int), c) || has_key(
                    bv.take(ib as int),
                    c,
                )),
        decreases (na - ia) + (nb - ib),
    {
        let ghost rv0 = keys_view(r@);
        let ghost ov = r@;
        let take_a: bool = if ia < na {
            if ib < nb {
                !lt_bytes(&b[ib], &a[ia])
            } else {
                true
            }
        } else {
            false
        };
        let ghost oia = ia as int;
        let ghost oib = ib as int;
        if take_a {
            proof {
                assert(a@[ia as int]@ == av[ia as int]);
            }
            let c = clone_bytes(&a[ia]);
            let also_b: bool = if ib < nb {
                eq_bytes(&c, &b[ib])
            } else {
                false
            };
            proof {
                if ib < nb {
                    assert(b@[ib as int]@ == bv[ib as int]);
                    lemma_lex_trichotomy(av[ia as int], bv[ib as int]);
                }
                lemma_keys_sorted_push(rv0, c@);
            }
            r.push(c);
            ia += 1;
            if also_b {
                ib += 1;
            }
            proof {
                assert(keys_view(r@) =~= rv0.push(av[oia]));
            }
        } else {
            proof {
                assert(b@[ib as int]@ == bv[ib as int]);
                lemma_keys_sorted_push(rv0, bv[ib as int]);
            }
            let c = clone_bytes(&b[ib]);
            proof {
                lemma_keys_sorted_push(rv0, c@);
            }
            r.push(c);
            ib += 1;
            proof {
                assert(keys_view(r@) =~= rv0.push(bv[oib]));
            }
        }
        proof {
            let rv = keys_view(r@);
            assert forall|c: Seq<u8>|
                #[trigger] has_key(rv, c) <==> (has_key(av.take(ia as int), c) || has_key(
                    bv.take(ib as int),
                    c,
                )) by {
                if has_key(rv, c) {
                    let i = choose|i: int| 0 <= i < rv.len() && rv[i] == c;
                    if i < rv0.len() {
                        assert(rv0[i] == c);
                        assert(has_key(rv0, c));
                        if has_key(av.take(oia), c) {
                            let m = choose|m: int| 0 <= m < oia && av.take(oia)[m] == c;
                            assert(av.take(ia as int)[m] == c);
                            assert(has_key(av.take(ia as int), c));
                        } else {
                            let m = choose|m: int| 0 <= m < oib && bv.take(oib)[m] == c;
                            assert(bv.take(ib as int)[m] == c);
                            assert(has_key(bv.take(ib as int), c));
                        }
                    } else {
                        if ia as int > oia {
                            assert(av.take(ia as int)[oia] == c);
                            assert(has_key(av.take(ia as int), c));
                        } else {
                            assert(bv.take(ib as int)[oib] == c);
                            assert(has_key(bv.take(ib as int), c));
                        }
                    }
                }
                if has_key(av.take(ia as int), c) {
                    let m = choose|m: int| 0 <= m < ia as int && av.take(ia as int)[m] == c;
                    if m < oia {
                        assert(av.take(oia)[m] == c);
                        assert(has_key(av.take(oia), c));
                        assert(has_key(rv0, c) || !has_key(rv0, c));
                        assert(has_key(rv0, c));
                        let j = choose|j: int| 0 <= j < rv0.len() && rv0[j] == c;
                        assert(rv[j] == c);
                        assert(has_key(rv, c));
                    } else {
                        assert(av[m] == c);
                        assert(rv[rv0.len() as int] == c);
                        assert(has_key(rv, c));
                    }
                }
                if has_key(bv.take(ib as int), c) {
                    let m = choose|m: int| 0 <= m < ib as int && bv.take(ib as int)[m] == c;
                    if m < oib {
                        assert(bv.take(oib)[m] == c);
                        assert(has_key(bv.take(oib), c));
                        assert(has_key(rv0, c) || !has_key(rv0, c));
                        assert(has_key(rv0, c));
                        let j = choose|j: int| 0 <= j < rv0.len() && rv0[j] == c;
                        assert(rv[j] == c);
                        assert(has_key(rv, c));
                    } else {
                        assert(bv[m] == c);
                        assert(rv[rv0.len() as int] == c);
                        assert(has_key(rv, c));
                    }
                }
            }
        }
    }
    proof {
        assert(av.take(na as int) =~= av);
        assert(bv.take(nb as int) =~= bv);
        assert forall|c: Seq<u8>|
            #[trigger] has_key(keys_view(r@), c) <==> (has_key(keys_view(a@), c) || has_key(
                keys_view(b@),
                c,
            )) by {
            assert(has_key(keys_view(r@), c) <==> (has_key(av.take(na as int), c) || has_key(
                bv.take(nb as int),
                c,
            )));
        }
    }
    r
}

/// The chromosome names of a union-zip result.
pub open spec fn zip_keys(s: Seq<(Vec<u8>, Vec<Option<usize>>)>) -> Seq<Seq<u8>> {
    s.map_values(|t: (Vec<u8>, Vec<Option<usize>>)| t.0@)
}

/// One entry per chromosome in the union of the maps' key sets, in
/// ascending key order; slot `i` holds the chromosome's index in map `i`,
/// or nothing where map `i` does not carry it. Callers treat an absent
/// partition as empty: no data, not zero.
#[verifier::rlimit(100)]
pub fn union_zip(maps: &Vec<ChromMap>) -> (r: Vec<(Vec<u8>, Vec<Option<usize>>)>)
    requires
        forall|i: int| 0 <= i < maps@.len() ==> (#[trigger] maps@[i]).wf(),
    ensures
        keys_sorted(zip_keys(r@)),
        forall|j: int| 0 <= j < r@.len() ==> (#[trigger] r@[j]).1@.len() == maps@.len(),
        forall|c: Seq<u8>|
            #[trigger] has_key(zip_keys(r@), c) <==> exists|i: int|
                0 <= i < maps@.len() && has_key((#[trigger] maps@[i]).keys(), c),
        forall|j: int, i: int|
            0 <= j < r@.len() && 0 <= i < maps@.len() ==> match (#[trigger] r@[j]).1@[i] {
                Some(x) => x < (#[trigger] maps@[i]).keys().len() && maps@[i].keys()[x as int]
                    == r@[j].0@,
                None => forall|y: int|
                    0 <= y < maps@[i].keys().len() ==> #[trigger] maps@[i].keys()[y] != r@[j].0@,
            },
{
    let nm = maps.len();
    // the sorted union of every map's keys
    let mut keys: Vec<Vec<u8>> = Vec::new();
    let mut m: usize = 0;
    while m < nm
        invariant
            m <= nm,
            nm == maps@.len(),
            forall|i: int| 0 <= i < maps@.len() ==> (#[trigger] maps@[i]).wf(),
            keys_sorted(keys_view(keys@)),
            forall|c: Seq<u8>|
                #[trigger] has_key(keys_view(keys@), c) <==> exists|i: int|
                    0 <= i < m as int && has_key((#[trigger] maps@[i]).keys(), c),
        decreases nm - m,
    {
        let mk = get_sorted_keys(&maps[m]);
        let ghost oldk = keys_view(keys@);
        keys = merge_keys(&keys, &mk);
        proof {
            assert forall|c: Seq<u8>|
                #[trigger] has_key(keys_view(keys@), c) <==> exists|i: int|
                    0 <= i < m as int + 1 && has_key((#[trigger] maps@[i]).keys(), c) by {
                assert(has_key(keys_view(keys@), c) <==> (has_key(oldk, c) || has_key(
                    keys_view(mk@),
                    c,
                )));
                if has_key(keys_view(keys@), c) {
                    if has_key(oldk, c) {
                        let i = choose|i: int|
                            0 <= i < m as int && has_key((#[trigger] maps@[i]).keys(), c);
                        assert(has_key(maps@[i].keys(), c));
                    } else {
                        assert(keys_view(mk@) =~= maps@[m as int].keys());
                        assert(has_key(maps@[m as int].keys(), c));
                    }
                }
                if exists|i: int| 0 <= i < m as int + 1 && has_key((#[trigger] maps@[i]).keys(), c) {
                    let i = choose|i: int|
                        0 <= i < m as int + 1 && has_key((#[trigger] maps@[i]).keys(), c);
                    if i < m as int {
                        assert(has_key(oldk, c));
                    } else {
                        assert(keys_view(mk@) =~= maps@[m as int].keys());
                        assert(has_key(keys_view(mk@), c));
                    }
                }
            }
        }
        m += 1;
    }
    proof {
        lemma_keys_sorted_ordered(keys_view(keys@));
    }
    // one slot list per union chromosome
    let nk = keys.len();
    let mut r: Vec<(Vec<u8>, Vec<Option<usize>>)> = Vec::new();
    let mut j: usize = 0;
    while j < nk
        invariant
            j <= nk,
            nk == keys@.len(),
            nm == maps@.len(),
            forall|i: int| 0 <= i < maps@.len() ==> (#[trigger] maps@[i]).wf(),
            keys_sorted(keys_view(keys@)),
            forall|a: int, b: int|
                0 <= a < b < keys@.len() ==> lex_lt(
                    #[trigger] keys_view(keys@)[a],
                    #[trigger] keys_view(keys@)[b],
                ),
            r@.len() == j,
            forall|q: int| 0 <= q < j as int ==> (#[trigger] r@[q]).0@ == keys_view(keys@)[q],
            forall|q: int| 0 <= q < j as int ==> (#[trigger] r@[q]).1@.len() == maps@.len(),
            forall|q: int, i: int|
                0 <= q < j as int && 0 <= i < maps@.len() ==> match (#[trigger] r@[q]).1@[i] {
                    Some(x) => x < (#[trigger] maps@[i]).keys().len() && maps@[i].keys()[x as int]
                        == r@[q].0@,
                    None => forall|y: int|
                        0 <= y < maps@[i].keys().len() ==> #[trigger] maps@[i].keys()[y]
                            != r@[q].0@,
                },
        decreases nk - j,
    {
        let key = clone_bytes(&keys[j]);
        let mut slots: Vec<Option<usize>> = Vec::new();
        let mut i: usize = 0;
        while i < nm
            invariant
                i <= nm,
                nm == maps@.len(),
                forall|ii: int| 0 <= ii < maps@.len() ==> (#[trigger] maps@[ii]).wf(),
                key@ == keys_view(keys@)[j as int] || true,
                slots@.len() == i,
                forall|ii: int|
                    0 <= ii < i as int ==> match #[trigger] slots@[ii] {
                        Some(x) => x < (#[trigger] maps@[ii]).keys().len() && maps@[ii].keys()[x
                            as int] == key@,
                        None => forall|y: int|
                            0 <= y < maps@[ii].keys().len() ==> #[trigger] maps@[ii].keys()[y]
                                != key@,
                    },
            decreases nm - i,
        {
            let slot = maps[i].find(&key);
            slots.push(slot);
            i += 1;
        }
        let ghost ov = r@;
        r.push((key, slots));
        proof {
            assert(r@[j as int].0@ == keys_view(keys@)[j as int]);
            assert forall|q: int| 0 <= q < r@.len() implies (#[trigger] r@[q]).0@ == keys_view(
                keys@,
            )[q] by {
                if q < ov.len() {
                    assert(r@[q] == ov[q]);
                }
            }
            assert forall|q: int, i2: int|
                0 <= q < r@.len() && 0 <= i2 < maps@.len() implies match (#[trigger] r@[q]).1@[i2] {
                Some(x) => x < (#[trigger] maps@[i2]).keys().len() && maps@[i2].keys()[x as int]
                    == r@[q].0@,
                None => forall|y: int|
                    0 <= y < maps@[i2].keys().len() ==> #[trigger] maps@[i2].keys()[y] != r@[q].0@,
            } by {
                if q < ov.len() {
                    assert(r@[q] == ov[q]);
                }
            }
        }
        j += 1;
    }
    proof {
        assert(zip_keys(r@) =~= keys_view(keys@));
        assert forall|c: Seq<u8>|
            #[trigger] has_key(zip_keys(r@), c) <==> exists|i: int|
                0 <= i < maps@.len() && has_key((#[trigger] maps@[i]).keys(), c) by {
            assert(has_key(keys_view(keys@), c) <==> exists|i: int|
                0 <= i < nm as int && has_key((#[trigger] maps@[i]).keys(), c));
        }
    }
    r
}

} // verus!
