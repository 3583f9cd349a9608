use probdisasm::calibration::{
    auroc, label_scores, median, percentile, ranks, Calibrated, IsotonicMap, Sample,
};
use std::collections::BTreeSet;

fn sample(p: f64, positive: bool) -> Sample {
    Sample { key: p.to_bits(), positive }
}

fn value(c: Calibrated) -> f64 {
    match c {
        Calibrated::Same(k) => f64::from_bits(k),
        Calibrated::Share { positives, count } => positives as f64 / count as f64,
    }
}

fn apply(m: &IsotonicMap, p: f64) -> f64 {
    value(m.apply(p.to_bits()))
}

#[test]
fn isotonic_monotone_and_sane() {
    let s: Vec<Sample> = (0..=100)
        .map(|i| {
            let p = i as f64 / 100.0;
            sample(p, p > 0.6)
        })
        .collect();
    let m = IsotonicMap::fit(&s);
    let mut prev = -1.0;
    for b in m.to_points() {
        let v = b.positives as f64 / b.count as f64;
        assert!(v + 1e-9 >= prev, "calibration map must be monotone");
        prev = v;
    }
    for q in [0.0_f64, 0.3, 0.61, 0.9, 1.0] {
        assert!((0.0..=1.0).contains(&apply(&m, q)), "calibrated value out of range");
    }
    assert!(apply(&m, 0.9) > apply(&m, 0.1), "map must separate high from low");
}

#[test]
fn to_from_points_round_trips_apply() {
    let s: Vec<Sample> = (0..=100).map(|i| sample(i as f64 / 100.0, i > 60)).collect();
    let m = IsotonicMap::fit(&s);
    let m2 = IsotonicMap::from_points(m.to_points());
    for q in [0.0_f64, 0.15, 0.5, 0.61, 0.8, 1.0] {
        assert_eq!(apply(&m, q), apply(&m2, q), "reloaded map diverged at {q}");
    }
}

#[test]
fn degenerate_all_data_map_suppresses_to_zero() {
    let s: Vec<Sample> = (0..=100).map(|i| sample(i as f64 / 100.0, false)).collect();
    let m = IsotonicMap::fit(&s);
    for q in [0.1_f64, 0.4, 0.7, 0.99] {
        assert!(apply(&m, q) < 1e-6, "packed map must suppress {q}, got {}", apply(&m, q));
    }
}

#[test]
fn empty_points_is_identity() {
    let m = IsotonicMap::from_points(Vec::new());
    for q in [0.0_f64, 0.37, 0.5, 1.0] {
        assert_eq!(apply(&m, q), q, "empty bank map must be identity");
    }
}

#[test]
fn violators_are_pooled() {
    let s = vec![
        Sample { key: 10, positive: false },
        Sample { key: 20, positive: true },
        Sample { key: 30, positive: false },
        Sample { key: 40, positive: true },
    ];
    let m = IsotonicMap::fit(&s);
    let b = m.to_points();
    assert_eq!(b.len(), 3);
    assert_eq!((b[0].upper, b[0].positives, b[0].count), (10, 0, 1));
    assert_eq!((b[1].upper, b[1].positives, b[1].count), (30, 1, 2));
    assert_eq!((b[2].upper, b[2].positives, b[2].count), (40, 1, 1));
    assert!(matches!(m.apply(15), Calibrated::Share { positives: 1, count: 2 }));
    assert!(matches!(m.apply(99), Calibrated::Share { positives: 1, count: 1 }));
}

#[test]
fn scores_are_labelled_by_the_truth() {
    let truth: BTreeSet<u64> = [0x10, 0x30].into_iter().collect();
    let scores = vec![(0x10, 7), (0x20, 8), (0x30, 9)];
    let v = label_scores(&scores, &truth);
    let labels: Vec<(u64, bool)> = v.iter().map(|s| (s.key, s.positive)).collect();
    assert_eq!(labels, vec![(7, true), (8, false), (9, true)]);

    let all = IsotonicMap::fit_from_gt(&scores, &truth).apply_all(&scores);
    assert_eq!(all.len(), 3);
    assert_eq!(all[0].0, 0x10);
    assert_eq!(value(all[0].1), 0.5);
    assert_eq!(value(all[2].1), 1.0);
}

#[test]
fn auroc_counts_ties_as_half_wins() {
    let s = vec![
        Sample { key: 5, positive: true },
        Sample { key: 5, positive: false },
        Sample { key: 9, positive: true },
        Sample { key: 1, positive: false },
    ];
    let a = auroc(&s).unwrap();
    assert_eq!((a.positives, a.negatives), (2, 2));
    let area = a.wins as f64 / (2.0 * a.positives as f64 * a.negatives as f64);
    assert_eq!(area, 3.5 / 4.0);
    assert!(auroc(&vec![Sample { key: 5, positive: true }]).is_none());
    assert!(auroc(&Vec::new()).is_none());
}

#[test]
fn ranks_average_over_ties() {
    let twice = ranks(&vec![30, 10, 30, 20]);
    assert_eq!(twice.len(), 4);
    assert_eq!(twice[0], twice[2]);
    assert_eq!(twice[3] - twice[1], 2);
    assert_eq!(twice[0] - twice[3], 3);
}

#[test]
fn percentiles_pick_the_nearest_rank() {
    let v: Vec<u64> = (1..=21).rev().collect();
    assert_eq!(percentile(&v, 95, 100), 20);
    assert_eq!(percentile(&v, 0, 100), 1);
    assert_eq!(percentile(&v, 100, 100), 21);
    assert_eq!(median(&v), 11);
    assert_eq!(median(&vec![4]), 4);
}

#[test]
fn ranking_ignores_the_order_of_samples() {
    let mut s: Vec<Sample> =
        [(3, true), (1, false), (3, false), (9, true), (2, false)].map(|(key, positive)| Sample { key, positive }).to_vec();
    let a = auroc(&s);
    assert_eq!(a.map(|a| (a.wins, a.positives, a.negatives)), Some((11, 2, 3)));
    s.reverse();
    s.swap(0, 2);
    assert_eq!(auroc(&s), a);
}
