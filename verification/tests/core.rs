use biostats::binning::{bin_partition, AggregateOp};
use biostats::chrom_map::{get_sorted_keys, merge_keys, ChromMap};
use biostats::error::Error;
use biostats::interval::Interval;
use biostats::chrom_map::union_zip;
use biostats::merge::{BedReserve, RefinedBedZipperIter, SourceRecord};
use biostats::mixer::{apply_transform, mix_row_values, scale_partition, weighted_sum, ValueTransform};
use biostats::partition::{Entry, Partition};
use biostats::rat::Rat;
use biostats::refine::{flat_zip, rows_from};
use biostats::refinery::build_partition;
use biostats::top_k::{
    get_top_k, get_top_k_fraction_overlap_ratio_across_chroms, get_top_k_overlap_ratio,
    select_top_k,
};
use biostats::util::get_default_human_chrom_inclusion_set;

fn rat(n: i64) -> Rat {
    Rat::from_int(n)
}

fn ratio(n: i64, d: i64) -> Rat {
    Rat::new(n, d).unwrap()
}

fn entry(start: i64, end: i64, v: i64) -> Entry {
    Entry { iv: Interval::new(start, end), val: rat(v) }
}

fn check_entries(p: &Partition, expected: &[(i64, i64, Rat)]) {
    assert_eq!(p.len(), expected.len());
    for (i, (start, end, v)) in expected.iter().enumerate() {
        let e = p.get(i);
        assert_eq!(e.iv.start, *start);
        assert_eq!(e.iv.end, *end);
        assert!(e.val.eq_rat(v));
    }
}

fn bytes(s: &str) -> Vec<u8> {
    s.as_bytes().to_vec()
}

#[test]
fn aggregate_two_overlapping_intervals() {
    // [0,4] += 3 then [2,5] += 2 yields [0,1]=3, [2,4]=5, [5,5]=2
    let mut p = Partition::new();
    p.aggregate(Interval::new(0, 4), rat(3)).unwrap();
    p.aggregate(Interval::new(2, 5), rat(2)).unwrap();
    check_entries(&p, &[(0, 1, rat(3)), (2, 4, rat(5)), (5, 5, rat(2))]);
}

#[test]
fn aggregate_keeps_entries_sorted_and_disjoint() {
    let mut p = Partition::new();
    p.aggregate(Interval::new(-1, 4), rat(2)).unwrap();
    p.aggregate(Interval::new(6, 8), rat(4)).unwrap();
    p.aggregate(Interval::new(4, 7), rat(1)).unwrap();
    check_entries(
        &p,
        &[
            (-1, 3, rat(2)),
            (4, 4, rat(3)),
            (5, 5, rat(1)),
            (6, 7, rat(5)),
            (8, 8, rat(4)),
        ],
    );
    for i in 0..p.len() - 1 {
        assert!(p.get(i).iv.end < p.get(i + 1).iv.start);
    }
}

#[test]
fn aggregate_rejects_empty_interval() {
    let mut p = Partition::new();
    let r = p.aggregate(Interval::new(5, 4), rat(1));
    assert_eq!(r, Err(Error::InvalidRange));
    assert_eq!(p.len(), 0);
}

#[test]
fn build_partition_folds_in_order() {
    let scored = vec![entry(0, 4, 3), entry(2, 5, 2)];
    let p = build_partition(&scored).unwrap();
    check_entries(&p, &[(0, 1, rat(3)), (2, 4, rat(5)), (5, 5, rat(2))]);
}

#[test]
fn refinement_of_two_sources() {
    let mut a = Partition::new();
    a.aggregate(Interval::new(0, 4), rat(1)).unwrap();
    let mut b = Partition::new();
    b.aggregate(Interval::new(3, 9), rat(2)).unwrap();
    let rows = flat_zip(&rows_from(&a), 1, &b);
    assert_eq!(rows.len(), 3);
    assert_eq!((rows[0].iv.start, rows[0].iv.end), (0, 2));
    assert!(rows[0].vals[0].unwrap().eq_rat(&rat(1)));
    assert!(rows[0].vals[1].is_none());
    assert_eq!((rows[1].iv.start, rows[1].iv.end), (3, 4));
    assert!(rows[1].vals[0].unwrap().eq_rat(&rat(1)));
    assert!(rows[1].vals[1].unwrap().eq_rat(&rat(2)));
    assert_eq!((rows[2].iv.start, rows[2].iv.end), (5, 9));
    assert!(rows[2].vals[0].is_none());
    assert!(rows[2].vals[1].unwrap().eq_rat(&rat(2)));
}

#[test]
fn binning_sum_and_average() {
    let mut p = Partition::new();
    p.aggregate(Interval::new(0, 4), rat(3)).unwrap();
    p.aggregate(Interval::new(5, 9), rat(2)).unwrap();
    let sums = bin_partition(&p, 5, AggregateOp::Sum).unwrap();
    check_entries(&sums, &[(0, 4, rat(15)), (5, 9, rat(10))]);
    let avgs = bin_partition(&p, 5, AggregateOp::Average).unwrap();
    check_entries(&avgs, &[(0, 4, rat(3)), (5, 9, rat(2))]);
}

#[test]
fn binning_average_uses_covered_length() {
    // only three points of the bin are covered: 3*3 / 3 = 3
    let mut p = Partition::new();
    p.aggregate(Interval::new(2, 4), rat(3)).unwrap();
    let avgs = bin_partition(&p, 5, AggregateOp::Average).unwrap();
    assert_eq!(avgs.len(), 1);
    let e = avgs.get(0);
    assert_eq!((e.iv.start, e.iv.end), (0, 4));
    assert!(e.val.eq_rat(&rat(3)));
}

#[test]
fn binning_conservation_over_region() {
    // the sum of the bin sums equals the sum of value times length
    let mut p = Partition::new();
    p.aggregate(Interval::new(0, 6), rat(3)).unwrap();
    p.aggregate(Interval::new(8, 13), rat(2)).unwrap();
    let sums = bin_partition(&p, 5, AggregateOp::Sum).unwrap();
    let mut total = Rat::zero();
    for i in 0..sums.len() {
        total = total.checked_add(sums.get(i).val).unwrap();
    }
    // 3*7 + 2*6 = 33
    assert!(total.eq_rat(&rat(33)));
}

#[test]
fn binning_zero_is_passthrough_and_negative_rejected() {
    let mut p = Partition::new();
    p.aggregate(Interval::new(3, 11), rat(4)).unwrap();
    let same = bin_partition(&p, 0, AggregateOp::Sum).unwrap();
    check_entries(&same, &[(3, 11, rat(4))]);
    let e = bin_partition(&p, -5, AggregateOp::Sum);
    assert!(e.is_err());
}

#[test]
fn merge_zipper_two_sources() {
    // interval_length 50, alignment 0, default 0
    let a = vec![SourceRecord {
        chrom: bytes("chr1"),
        start: 0,
        end_exclusive: 50,
        value: Some(rat(10)),
    }];
    let b = vec![SourceRecord {
        chrom: bytes("chr1"),
        start: 50,
        end_exclusive: 100,
        value: Some(rat(5)),
    }];
    let mut z = RefinedBedZipperIter::new(vec![a, b], 0, 50, rat(0)).unwrap();
    let r1 = z.next().unwrap().unwrap();
    assert_eq!(r1.chrom, bytes("chr1"));
    assert_eq!((r1.start, r1.end_exclusive), (0, 50));
    assert!(r1.values[0].eq_rat(&rat(10)));
    assert!(r1.values[1].eq_rat(&rat(0)));
    let r2 = z.next().unwrap().unwrap();
    assert_eq!(r2.chrom, bytes("chr1"));
    assert_eq!((r2.start, r2.end_exclusive), (50, 100));
    assert!(r2.values[0].eq_rat(&rat(0)));
    assert!(r2.values[1].eq_rat(&rat(5)));
    assert!(z.next().unwrap().is_none());
}

#[test]
fn merge_zipper_detects_misordered_source() {
    // a record whose start goes backward must abort the merge
    let a = vec![
        SourceRecord { chrom: bytes("chr1"), start: 100, end_exclusive: 150, value: Some(rat(1)) },
        SourceRecord { chrom: bytes("chr1"), start: 50, end_exclusive: 100, value: Some(rat(2)) },
    ];
    let mut z = RefinedBedZipperIter::new(vec![a], 0, 50, rat(0)).unwrap();
    let r = z.next();
    assert!(matches!(r, Err(Error::OrderingViolation)));
}

#[test]
fn merge_zipper_detects_misalignment_and_length() {
    let a = vec![
        SourceRecord { chrom: bytes("chr1"), start: 0, end_exclusive: 50, value: None },
        SourceRecord { chrom: bytes("chr1"), start: 60, end_exclusive: 100, value: None },
    ];
    let mut z = RefinedBedZipperIter::new(vec![a], 0, 50, rat(0)).unwrap();
    assert!(matches!(z.next(), Err(Error::OrderingViolation)));
    let b = vec![
        SourceRecord { chrom: bytes("chr1"), start: 0, end_exclusive: 50, value: None },
        SourceRecord { chrom: bytes("chr1"), start: 75, end_exclusive: 125, value: None },
    ];
    let mut z2 = RefinedBedZipperIter::new(vec![b], 0, 50, rat(0)).unwrap();
    assert!(matches!(z2.next(), Err(Error::OrderingViolation)));
}

#[test]
fn merge_zipper_rejects_bad_configuration() {
    let r = RefinedBedZipperIter::new(vec![], -1, 50, rat(0));
    assert!(r.is_err());
    let r2 = RefinedBedZipperIter::new(vec![], 0, 0, rat(0));
    assert!(r2.is_err());
}

#[test]
fn merge_zipper_orders_chromosomes() {
    let a = vec![SourceRecord {
        chrom: bytes("chr2"),
        start: 0,
        end_exclusive: 10,
        value: Some(rat(7)),
    }];
    let b = vec![SourceRecord {
        chrom: bytes("chr1"),
        start: 20,
        end_exclusive: 30,
        value: Some(rat(3)),
    }];
    let mut z = RefinedBedZipperIter::new(vec![a, b], 0, 10, rat(0)).unwrap();
    let r1 = z.next().unwrap().unwrap();
    assert_eq!(r1.chrom, bytes("chr1"));
    assert_eq!(r1.start, 20);
    let r2 = z.next().unwrap().unwrap();
    assert_eq!(r2.chrom, bytes("chr2"));
    assert_eq!(r2.start, 0);
}

#[test]
fn top_k_size_bound() {
    let mut p = Partition::new();
    p.aggregate(Interval::new(0, 4), rat(1)).unwrap();
    p.aggregate(Interval::new(10, 14), rat(2)).unwrap();
    p.aggregate(Interval::new(20, 24), rat(3)).unwrap();
    assert_eq!(select_top_k(&p, 0).len(), 0);
    assert_eq!(select_top_k(&p, 2).len(), 2);
    assert_eq!(select_top_k(&p, 3).len(), 3);
    assert_eq!(select_top_k(&p, 10).len(), 3);
}

#[test]
fn test_top_k_bed() {
    // chr1: five scored intervals, the three highest 50-wide bins survive
    let scored = vec![
        entry(100, 199, 10),
        entry(200, 249, 75),
        entry(300, 349, 125),
        entry(400, 449, 25),
        entry(450, 499, 500),
    ];
    let chr1 = build_partition(&scored).unwrap();
    let top = get_top_k(&chr1, 3, 50).unwrap();
    check_entries(&top, &[(200, 249, rat(75)), (300, 349, rat(125)), (450, 499, rat(500))]);

    let chr3 = build_partition(&vec![entry(2000, 2099, 25)]).unwrap();
    let top3 = get_top_k(&chr3, 3, 50).unwrap();
    check_entries(&top3, &[(2000, 2049, rat(25)), (2050, 2099, rat(25))]);
}

#[test]
fn top_k_overlap_ratio_same_and_disjoint() {
    // identical top bins: ratio 1; disjoint top bins: ratio 0
    let mut p1 = Partition::new();
    p1.aggregate(Interval::new(0, 49), rat(5)).unwrap();
    p1.aggregate(Interval::new(50, 99), rat(1)).unwrap();
    let mut p2 = Partition::new();
    p2.aggregate(Interval::new(0, 49), rat(9)).unwrap();
    p2.aggregate(Interval::new(50, 99), rat(2)).unwrap();
    let same = get_top_k_overlap_ratio(&p1, &p2, 1, 50).unwrap();
    assert!(same.eq_rat(&rat(1)));

    let mut p3 = Partition::new();
    p3.aggregate(Interval::new(0, 49), rat(1)).unwrap();
    p3.aggregate(Interval::new(50, 99), rat(9)).unwrap();
    let disjoint = get_top_k_overlap_ratio(&p1, &p3, 1, 50).unwrap();
    assert!(disjoint.eq_rat(&rat(0)));
}

#[test]
fn test_linear_track_mixer_iter() {
    // weights 0.2, 0.5, 0.3 over zipped rows, absent values count as zero
    let weights = vec![ratio(2, 10), ratio(5, 10), ratio(3, 10)];
    let combos: Vec<(Vec<Option<Rat>>, Rat)> = vec![
        (vec![Some(rat(5)), None, Some(rat(10))], rat(4)),
        (vec![None, Some(rat(20)), Some(rat(100))], rat(40)),
        (vec![None, Some(rat(10)), None], rat(5)),
        (vec![Some(rat(5)), Some(rat(8)), Some(rat(10))], rat(8)),
        (vec![None, None, None], rat(0)),
    ];
    for (vals, expected) in combos {
        let got = mix_row_values(&weights, &vals).unwrap();
        assert!(got.eq_rat(&expected));
    }
}

#[test]
fn weighted_sum_and_scaling() {
    let mut p = Partition::new();
    p.aggregate(Interval::new(0, 4), rat(3)).unwrap();
    p.aggregate(Interval::new(10, 11), rat(2)).unwrap();
    // 3*5 + 2*2 = 19
    let total = weighted_sum(&p).unwrap();
    assert!(total.eq_rat(&rat(19)));
    let half = scale_partition(&p, ratio(1, 2)).unwrap();
    check_entries(&half, &[(0, 4, ratio(3, 2)), (10, 11, rat(1))]);
}

#[test]
fn transform_clamps_symmetrically() {
    let t = ValueTransform::Thresholding(rat(10));
    assert!(apply_transform(rat(25), t).eq_rat(&rat(10)));
    assert!(apply_transform(rat(-25), t).eq_rat(&rat(-10)));
    assert!(apply_transform(rat(7), t).eq_rat(&rat(7)));
    assert!(apply_transform(rat(7), ValueTransform::Identity).eq_rat(&rat(7)));
}

#[test]
fn rational_arithmetic_is_exact() {
    let a = ratio(1, 2);
    let b = ratio(1, 3);
    let sum = a.checked_add(b).unwrap();
    assert!(sum.eq_rat(&ratio(5, 6)));
    let prod = a.checked_mul(b).unwrap();
    assert!(prod.eq_rat(&ratio(1, 6)));
    let scaled = a.checked_scale(6).unwrap();
    assert!(scaled.eq_rat(&rat(3)));
    let divided = rat(7).checked_div_int(2).unwrap();
    assert!(divided.eq_rat(&ratio(7, 2)));
    assert!(ratio(2, 4).eq_rat(&ratio(1, 2)));
    assert!(!ratio(2, 4).eq_rat(&ratio(2, 3)));
    assert!(ratio(1, 3).lt(&ratio(1, 2)));
}

#[test]
fn chrom_map_is_ordered() {
    let mut m = ChromMap::new();
    m.push_last(bytes("chr1"), Partition::new());
    m.push_last(bytes("chr2"), Partition::new());
    m.push_last(bytes("chrX"), Partition::new());
    let keys = get_sorted_keys(&m);
    assert_eq!(keys, vec![bytes("chr1"), bytes("chr2"), bytes("chrX")]);
    assert_eq!(m.find(&bytes("chr2")), Some(1));
    assert_eq!(m.find(&bytes("chr7")), None);
}

#[test]
fn merged_keys_are_the_sorted_union() {
    let a = vec![bytes("chr1"), bytes("chr3")];
    let b = vec![bytes("chr2"), bytes("chr3"), bytes("chr4")];
    let u = merge_keys(&a, &b);
    assert_eq!(u, vec![bytes("chr1"), bytes("chr2"), bytes("chr3"), bytes("chr4")]);
}

#[test]
fn human_chrom_set_contents() {
    let set = get_default_human_chrom_inclusion_set();
    assert_eq!(set.len(), 24);
    assert_eq!(set[0], bytes("chr1"));
    assert_eq!(set[21], bytes("chr22"));
    assert_eq!(set[22], bytes("chrX"));
    assert_eq!(set[23], bytes("chrY"));
}

#[test]
fn zip_binned_refines_binned_sources() {
    let mut a = Partition::new();
    a.aggregate(Interval::new(0, 99), rat(4)).unwrap();
    let mut b = Partition::new();
    b.aggregate(Interval::new(50, 149), rat(6)).unwrap();
    let rows = biostats::mixer::zip_binned(&vec![a, b], 50).unwrap();
    assert_eq!(rows.len(), 3);
    assert_eq!((rows[0].iv.start, rows[0].iv.end), (0, 49));
    assert!(rows[0].vals[0].unwrap().eq_rat(&rat(4)));
    assert!(rows[0].vals[1].is_none());
    assert_eq!((rows[1].iv.start, rows[1].iv.end), (50, 99));
    assert!(rows[1].vals[0].unwrap().eq_rat(&rat(4)));
    assert!(rows[1].vals[1].unwrap().eq_rat(&rat(6)));
    assert_eq!((rows[2].iv.start, rows[2].iv.end), (100, 149));
    assert!(rows[2].vals[0].is_none());
    assert!(rows[2].vals[1].unwrap().eq_rat(&rat(6)));
}

#[test]
fn test_linear_track_mixer() {
    // two sources mixed 0.4/0.6 after 50-wide average binning
    let src1 = build_partition(&vec![entry(100, 199, 10), entry(150, 249, 5)]).unwrap();
    let src2 = build_partition(&vec![entry(100, 199, 100)]).unwrap();
    let weights = vec![ratio(4, 10), ratio(6, 10)];
    let mixed = biostats::mixer::mix_binned_sources(&weights, &vec![src1, src2], 50).unwrap();
    check_entries(&mixed, &[(100, 149, rat(64)), (150, 199, rat(66)), (200, 249, rat(2))]);
}

#[test]
fn mixture_averages_by_covered_length() {
    // the second bin of the second source covers only half its bin, and
    // the average is taken over the covered points
    let src1 = build_partition(&vec![entry(2500, 2599, 25)]).unwrap();
    let src2 = build_partition(&vec![entry(2500, 2574, 1000)]).unwrap();
    let weights = vec![ratio(4, 10), ratio(6, 10)];
    let mixed = biostats::mixer::mix_binned_sources(&weights, &vec![src1, src2], 50).unwrap();
    check_entries(&mixed, &[(2500, 2549, rat(610)), (2550, 2599, rat(610))]);
}

#[test]
fn top_k_fraction_overlap_ratio_half() {
    let mut p1 = Partition::new();
    p1.aggregate(Interval::new(0, 49), rat(5)).unwrap();
    p1.aggregate(Interval::new(50, 99), rat(1)).unwrap();
    let mut p2 = Partition::new();
    p2.aggregate(Interval::new(0, 49), rat(9)).unwrap();
    p2.aggregate(Interval::new(50, 99), rat(2)).unwrap();
    // half of the two refined bins: k = 1, identical top bins
    let r = biostats::top_k::get_top_k_fraction_overlap_ratio(&p1, &p2, ratio(1, 2), 50).unwrap();
    assert!(r.eq_rat(&rat(1)));
}

#[test]
fn mixture_with_equal_and_skewed_weights() {
    // the same sources under 1/2,1/2 and under 10,1/10 weights
    let c1s1 = build_partition(&vec![entry(100, 199, 10), entry(150, 249, 5)]).unwrap();
    let c1s2 = build_partition(&vec![entry(100, 199, 100)]).unwrap();
    let half = vec![ratio(1, 2), ratio(1, 2)];
    let even = biostats::mixer::mix_binned_sources(&half, &vec![c1s1, c1s2], 50).unwrap();
    check_entries(
        &even,
        &[(100, 149, rat(55)), (150, 199, ratio(115, 2)), (200, 249, ratio(5, 2))],
    );

    let c3s1 = build_partition(&vec![entry(2500, 2599, 25)]).unwrap();
    let c3s2 = build_partition(&vec![entry(2500, 2574, 1000)]).unwrap();
    let skewed = vec![rat(10), ratio(1, 10)];
    // both bins mix 10*25 + (1/10)*1000: the second source's partial bin
    // averages over its covered points
    let mixed = biostats::mixer::mix_binned_sources(&skewed, &vec![c3s1, c3s2], 50).unwrap();
    check_entries(&mixed, &[(2500, 2549, rat(350)), (2550, 2599, rat(350))]);
}

#[test]
fn merge_zipper_validates_first_records() {
    // a first record with the wrong length or alignment aborts at once
    let bad_len = vec![SourceRecord {
        chrom: bytes("chr1"),
        start: 0,
        end_exclusive: 30,
        value: None,
    }];
    assert!(matches!(
        RefinedBedZipperIter::new(vec![bad_len], 0, 50, rat(0)),
        Err(Error::OrderingViolation)
    ));
    let bad_align = vec![SourceRecord {
        chrom: bytes("chr1"),
        start: 25,
        end_exclusive: 75,
        value: None,
    }];
    assert!(matches!(
        RefinedBedZipperIter::new(vec![bad_align], 0, 50, rat(0)),
        Err(Error::OrderingViolation)
    ));
}

#[test]
fn bed_reserve_feeds_one_record_at_a_time() {
    let first = SourceRecord { chrom: bytes("chr1"), start: 0, end_exclusive: 50, value: None };
    let mut rsv = BedReserve::new(Some(first), 0, 50).unwrap();
    assert!(rsv.current().is_some());
    let next = SourceRecord { chrom: bytes("chr1"), start: 50, end_exclusive: 100, value: None };
    rsv.advance(Some(next)).unwrap();
    assert_eq!(rsv.current().as_ref().unwrap().start, 50);
    let backwards = SourceRecord { chrom: bytes("chr1"), start: 0, end_exclusive: 50, value: None };
    assert!(matches!(rsv.advance(Some(backwards)), Err(Error::OrderingViolation)));
    assert_eq!(rsv.current().as_ref().unwrap().start, 50);
    rsv.advance(None).unwrap();
    assert!(rsv.current().is_none());
}

#[test]
fn union_zip_lists_every_chromosome_once() {
    let mut m1 = ChromMap::new();
    m1.push_last(bytes("chr1"), Partition::new());
    m1.push_last(bytes("chr3"), Partition::new());
    let mut m2 = ChromMap::new();
    m2.push_last(bytes("chr2"), Partition::new());
    m2.push_last(bytes("chr3"), Partition::new());
    let zipped = union_zip(&vec![m1, m2]);
    assert_eq!(zipped.len(), 3);
    assert_eq!(zipped[0].0, bytes("chr1"));
    assert_eq!(zipped[0].1, vec![Some(0), None]);
    assert_eq!(zipped[1].0, bytes("chr2"));
    assert_eq!(zipped[1].1, vec![None, Some(0)]);
    assert_eq!(zipped[2].0, bytes("chr3"));
    assert_eq!(zipped[2].1, vec![Some(1), Some(1)]);
}

#[test]
fn across_chroms_ratio_accumulates_before_dividing() {
    // chr1: identical top bins; chr2: disjoint top bins; the counts are
    // pooled: (1 + 0) shared out of (1 + 2) refined bins
    let mut c1a = Partition::new();
    c1a.aggregate(Interval::new(0, 49), rat(5)).unwrap();
    let mut c1b = Partition::new();
    c1b.aggregate(Interval::new(0, 49), rat(7)).unwrap();
    let mut c2a = Partition::new();
    c2a.aggregate(Interval::new(0, 49), rat(9)).unwrap();
    c2a.aggregate(Interval::new(50, 99), rat(1)).unwrap();
    let mut c2b = Partition::new();
    c2b.aggregate(Interval::new(0, 49), rat(1)).unwrap();
    c2b.aggregate(Interval::new(50, 99), rat(9)).unwrap();
    let mut m1 = ChromMap::new();
    m1.push_last(bytes("chr1"), c1a);
    m1.push_last(bytes("chr2"), c2a);
    let mut m2 = ChromMap::new();
    m2.push_last(bytes("chr1"), c1b);
    m2.push_last(bytes("chr2"), c2b);
    // half of each chromosome's refined bin count: k = 0 on chr1? no:
    // chr1 has 1 refined bin, k = floor(1/2) = 0 there; use fraction 1
    let r = get_top_k_fraction_overlap_ratio_across_chroms(&m1, &m2, rat(1), 50).unwrap();
    // chr1: k=1, 1 shared of 1; chr2: k=2, both bins kept on both sides,
    // 2 shared of 2 -> 3/3
    assert!(r.eq_rat(&rat(1)));
    // with fraction 1/2: chr1 contributes k=0 (no bins), chr2 k=1 with
    // disjoint top bins: 0 shared of 2
    let half = get_top_k_fraction_overlap_ratio_across_chroms(&m1, &m2, ratio(1, 2), 50).unwrap();
    assert!(half.eq_rat(&rat(0)));
}

#[test]
fn exclusion_overlap_test() {
    let mut excl = Partition::new();
    excl.aggregate(Interval::new(100, 199), rat(1)).unwrap();
    assert!(excl.overlaps_any(Interval::new(150, 300)));
    assert!(excl.overlaps_any(Interval::new(0, 100)));
    assert!(!excl.overlaps_any(Interval::new(200, 300)));
    assert!(!excl.overlaps_any(Interval::new(0, 99)));
}

#[test]
fn observations_clamp_and_weigh() {
    let mut a = Partition::new();
    a.aggregate(Interval::new(0, 9), rat(25)).unwrap();
    let mut b = Partition::new();
    b.aggregate(Interval::new(5, 14), rat(-25)).unwrap();
    let rows = flat_zip(&rows_from(&a), 1, &b);
    let t = ValueTransform::Thresholding(rat(10));
    let obs = biostats::mixer::correlation_observations(&rows, t, false);
    assert_eq!(obs.len(), 3);
    // [0,4]: (25 clamped to 10, absent as 0), weight 5
    assert!(obs[0].0.eq_rat(&rat(10)));
    assert!(obs[0].1.eq_rat(&rat(0)));
    assert_eq!(obs[0].2, 5);
    // [5,9]: both present, clamped symmetrically
    assert!(obs[1].0.eq_rat(&rat(10)));
    assert!(obs[1].1.eq_rat(&rat(-10)));
    assert_eq!(obs[1].2, 5);
    // [10,14]: only the second side
    assert!(obs[2].0.eq_rat(&rat(0)));
    assert!(obs[2].1.eq_rat(&rat(-10)));
    assert_eq!(obs[2].2, 5);
}
