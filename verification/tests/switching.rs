use probdisasm::calibration::Calibrated;
use probdisasm::credibility::{
    analyze as weigh, count_clusters, detector_samples, map_role, parse_role, Correlations, GoBars,
    Record, Role,
};
use probdisasm::gates::{rethreshold, Bars, Reads, ReplayFault};
use probdisasm::recovery::{
    call_edges, detect, grade_arms, grade_recovery, group_of, key_of, load_boundary_gt, parse_arm,
    read_done_keys, read_existing_recoveries, recover_boundaries, summarize, targets, Arm, Bucket,
    Cell, HeadTruth, Reading, Recovery,
};
use probdisasm::regime::{classify_guard, classify_rule, nearest, parse_regime, Regime};
use probdisasm::superset::Superset;
use probdisasm::switching::{
    analyze, argmin_regime, count_true, fit_bank, graded, pick_arms, train, values_in_window,
    ByRegime, FitTruth, Measures, Outcome, Picks, Pools, Signature, SignatureClassifier,
};
use std::collections::BTreeSet;

fn set(v: &[u64]) -> BTreeSet<u64> {
    v.iter().copied().collect()
}

fn by<T>(benign: T, packed: T, obfuscated: T) -> ByRegime<T> {
    ByRegime { benign, packed, obfuscated }
}

fn all(r: Regime) -> Picks {
    Picks { always_benign: r, oracle: r, mmae: r, mmae_nis: r, clf: r, rule: r, guard: r }
}

#[test]
fn regimes_are_written_and_read_back() {
    for r in Regime::all() {
        assert_eq!(parse_regime(r.tag()), Some(r));
    }
    assert_eq!(Regime::all().len(), 3);
    assert_eq!(Regime::Packed.idx(), 1);
    assert_eq!(parse_regime("other"), None);
    assert!(Regime::Packed.engine().entropy && !Regime::Benign.engine().entropy);
}

#[test]
fn signatures_are_classified() {
    assert_eq!(classify_rule(false, false), Regime::Benign);
    assert_eq!(classify_rule(true, false), Regime::Obfuscated);
    assert_eq!(classify_rule(false, true), Regime::Packed);
    assert_eq!(classify_rule(true, true), Regime::Obfuscated);
    assert_eq!(classify_guard(false, true, Some(false)), Regime::Benign);
    assert_eq!(classify_guard(false, true, Some(true)), Regime::Packed);
    assert_eq!(classify_guard(false, true, None), Regime::Packed);
    assert_eq!(nearest(&vec![Some(5), None, Some(2)]), Regime::Obfuscated);
    assert_eq!(argmin_regime(&by(None, None, None)), Regime::Benign);

    let c = SignatureClassifier { glob_hi: 10, spat_hi: 20, pack_ent_lo: Some(30) };
    assert_eq!(c.classify_rule(10, 21), Regime::Packed);
    assert_eq!(c.classify_guard(10, 21, 30), Regime::Benign);
    assert_eq!(c.classify_guard(10, 21, 31), Regime::Packed);
    let m = Measures {
        glob: by(Some(3), Some(1), Some(2)),
        nis: by(Some(1), Some(3), Some(2)),
        distance: by(None, Some(4), Some(4)),
        sig_glob: 11,
        sig_spat: 0,
        entropy: 0,
    };
    let p = pick_arms(&c, &m, Regime::Packed);
    assert_eq!(p.always_benign, Regime::Benign);
    assert_eq!(p.oracle, Regime::Packed);
    assert_eq!((p.mmae, p.mmae_nis, p.clf), (Regime::Packed, Regime::Benign, Regime::Packed));
    assert_eq!((p.rule, p.guard), (Regime::Obfuscated, Regime::Obfuscated));
}

#[test]
fn training_finds_bars_and_the_entropy_gap() {
    let s = |regime: Regime, glob: u64, spat: u64, entropy: u64| Signature { regime, glob, spat, entropy };
    assert!(train(&Vec::new()).is_none());
    let t = train(&vec![
        s(Regime::Benign, 3, 30, 100),
        s(Regime::Benign, 1, 10, 120),
        s(Regime::Benign, 2, 20, 110),
        s(Regime::Packed, 9, 90, 200),
        s(Regime::Obfuscated, 50, 5, 130),
    ])
    .unwrap();
    assert_eq!((t.glob_p95, t.spat_p95), (Some(3), Some(30)));
    assert_eq!(t.entropy_gap, Some((130, 200)));
    assert!(t.present(Regime::Packed));
    let few = train(&vec![s(Regime::Benign, 1, 1, 5), s(Regime::Packed, 1, 1, 4)]).unwrap();
    assert_eq!((few.glob_p95, few.entropy_gap), (None, None));
    assert!(!few.present(Regime::Obfuscated));
}

#[test]
fn pools_feed_the_bank() {
    let mut pools = Pools::new();
    let scores = vec![(0x10, 1), (0x20, 5), (0x30, 9)];
    pools.pool(Regime::Benign, &scores, &FitTruth::Starts(set(&[0x20, 0x30])));
    pools.pool(Regime::Packed, &scores, &FitTruth::Data(0x10, 0x30));
    let bank = fit_bank(&pools);
    assert!(matches!(bank.map(Regime::Benign).apply(5), Calibrated::Share { positives: 2, count: 2 }
        | Calibrated::Share { positives: 1, count: 1 }));
    assert!(matches!(bank.map(Regime::Packed).apply(5), Calibrated::Share { positives: 0, .. }));
    assert!(matches!(bank.map(Regime::Obfuscated).apply(5), Calibrated::Same(5)));

    let posts = by(scores.clone(), scores.clone(), vec![(0x40, 7)]);
    let v = graded(&bank, &posts, Regime::Obfuscated);
    assert_eq!(v.len(), 1);
    assert!(matches!(v[0], (0x40, Calibrated::Same(7))));
    let packed = graded(&bank, &posts, Regime::Packed);
    assert_eq!(values_in_window(&packed, 0x20, 0x30).len(), 1);
    assert_eq!(count_true(&scores, &set(&[0x10, 0x99])), 1);
}

#[test]
fn outcomes_are_summed_up_by_group() {
    let o = |regime: Regime, sublabel: &str, pick: Regime| Outcome {
        regime,
        sublabel: sublabel.to_string(),
        picks: all(pick),
    };
    let s = analyze(&vec![
        o(Regime::Benign, "clean", Regime::Benign),
        o(Regime::Packed, "upx", Regime::Benign),
        o(Regime::Obfuscated, "tig-virt", Regime::Obfuscated),
        o(Regime::Benign, "vm-lua", Regime::Packed),
    ]);
    assert_eq!(s.n_holdout, 4);
    assert_eq!(s.core.members, vec![0, 1]);
    assert_eq!((s.core.hits.rule, s.core.hits.guard), (1, 1));
    assert_eq!((s.tigress.members.clone(), s.tigress.hits.clf), (vec![2], 1));
    assert_eq!((s.machines.members.clone(), s.machines.hits.clf), (vec![3], 0));
    assert_eq!(s.per_regime.len(), 2);
}

#[test]
fn boundaries_are_the_targets_of_sure_calls() {
    // call +0; call far away; nop
    let s = Superset::new(0x100, &[0xe8, 0, 0, 0, 0, 0xe8, 0, 0, 1, 0, 0x90]).unwrap();
    let edges = call_edges(&s);
    assert!(edges.contains(&(0x100, 0x105)));
    assert!(!edges.iter().any(|e| e.0 == 0x105));
    let e = vec![(1, 10), (2, 20), (3, 10)];
    assert_eq!(targets(&e), set(&[10, 20]));
    assert_eq!(recover_boundaries(&e, &set(&[3, 10, 20])), set(&[10]));
    assert_eq!(recover_boundaries(&e, &set(&[1, 2, 3])), set(&[]));
    assert_eq!(recover_boundaries(&e, &set(&[2, 3, 10, 20])), set(&[10, 20]));
}

#[test]
fn recovery_is_graded() {
    let called = set(&[10, 20, 30]);
    let pred = set(&[10, 20]);
    let g = grade_recovery(&pred, &called, &HeadTruth::Heads(set(&[10, 30, 40])));
    assert_eq!((g.n_gt, g.n_reach, g.n_pred, g.tp, g.fp, g.fn_), (3, 2, 2, 1, 1, 2));
    let d = grade_recovery(&pred, &called, &HeadTruth::Data(15, 40));
    assert_eq!((d.n_window, d.win_pred, d.fp, d.tp, d.n_gt), (2, 1, 1, 0, 0));

    let edges = vec![(1, 10), (2, 20)];
    let sure = vec![set(&[1, 10]), set(&[2, 20]), set(&[1, 2, 10, 20]), set(&[])];
    let v = grade_arms(&edges, &sure, 1, &all(Regime::Benign), &HeadTruth::Heads(set(&[10])));
    assert_eq!(v.len(), 4);
    assert_eq!(v.iter().map(|a| a.grade.n_pred).collect::<Vec<usize>>(), vec![1, 1, 2, 0]);
    assert_eq!(v[0].arm, Arm::Stale);
}

#[test]
fn recoveries_are_summarized_per_cell() {
    let grade = |tp: usize, fp: usize, fn_: usize| probdisasm::recovery::Grade {
        n_gt: tp + fn_,
        n_reach: tp + fn_,
        n_pred: tp + fp,
        tp,
        fp,
        fn_,
        n_window: 0,
        win_pred: 0,
    };
    let rec = |tau: u64, tp: usize, fp: usize, fn_: usize| Recovery {
        regime: Regime::Benign,
        sublabel: "clean".to_string(),
        arm: Arm::Oracle,
        tau,
        grade: grade(tp, fp, fn_),
    };
    let rows = summarize(&vec![rec(5, 3, 1, 0), rec(5, 1, 1, 2), rec(7, 1, 0, 0)], &vec![5]);
    assert_eq!(rows.len(), 1);
    let c: Cell = rows[0].cell;
    assert_eq!((rows[0].bucket, rows[0].arm, rows[0].tau), (Bucket::Benign, Arm::Oracle, 5));
    assert_eq!((c.n_bins, c.tp, c.fp, c.fn_, c.n_gt), (2, 4, 2, 2, 6));
    let p = c.micro_precision().unwrap();
    assert_eq!((p.num, p.den), (4, 6));
    let r = c.micro_recall().unwrap();
    assert_eq!((r.num, r.den), (4, 6));
    let f = c.micro_f1().unwrap();
    assert_eq!(f.num * 3, f.den * 2);
    assert!(c.micro_recall_reach().is_some() && c.micro_f1_reach().is_some());
}

#[test]
fn readings_are_counted_per_bucket() {
    let r = |sublabel: &str, glob_fires: bool, pick: Regime| Reading {
        regime: Regime::Obfuscated,
        sublabel: sublabel.to_string(),
        glob_fires,
        spat_fires: false,
        picks: all(pick),
    };
    let v = vec![r("desync", true, Regime::Obfuscated), r("tig", true, Regime::Benign), r("d", false, Regime::Benign)];
    let d = detect(&v, Bucket::Desync);
    assert_eq!(d.members, vec![0, 2]);
    assert_eq!((d.n_glob_fire, d.n_spat_fire, d.n_rule_correct, d.n_guard_correct), (1, 0, 1, 1));
    assert_eq!(group_of("tig-flat", Regime::Obfuscated), Bucket::Tigress);
    assert_eq!(group_of("vm-lua", Regime::Benign), Bucket::LegitVm);
    assert_eq!(group_of("x", Regime::Packed), Bucket::Packed);
}

#[test]
fn recovery_tables_are_read() {
    let text = "name,regime,sublabel,arm,pick,tau,n_gt,n_reach,n_pred,tp,fp,fn,n_window,win_pred\n\
                a,benign,clean,oracle,packed,0.5,4,3,2,1,1,3,0,0\n\
                b,nonsense,clean,oracle,packed,0.5,4,3,2,1,1,3,0,0\n\
                c,benign\n";
    let v = read_existing_recoveries(text);
    assert_eq!(v.len(), 1);
    assert_eq!((v[0].name.as_str(), v[0].tau.as_str()), ("a", "0.5"));
    assert_eq!((v[0].arm, v[0].pick, v[0].grade.n_gt), (Arm::Oracle, Regime::Packed, 4));
    assert_eq!(read_done_keys(text), vec!["a|clean".to_string(), "b|clean".to_string()]);
    assert_eq!(key_of("a", "clean"), "a|clean");
    for i in 0..4 {
        assert_eq!(parse_arm(Arm::at(i).tag()), Some(Arm::at(i)));
    }
    assert_eq!(parse_arm("nothing"), None);
    assert_eq!(load_boundary_gt("# heads\n0x10\n\n20\n99\n", 0x10, 0x30), Ok(set(&[0x10, 0x20])));
    assert_eq!(load_boundary_gt("10\nzz\n", 0, 1), Err(1));
}

#[test]
fn roles_and_clusters_are_counted() {
    for r in [Role::CleanFit, Role::CleanHoldout, Role::Desync, Role::Packed] {
        assert_eq!(parse_role(r.tag()), Some(r));
    }
    assert_eq!(parse_role("other"), None);
    assert_eq!(map_role("clean_holdout"), "benign");
    assert_eq!(map_role("desync"), "obfuscated");
    assert_eq!(map_role("packed"), "packed");
    let c = count_clusters(&vec![true, true, true, false, true, true, false, true]);
    assert_eq!((c.events, c.clustered), (6, 3));
}

#[test]
fn detectors_are_weighed_against_drift() {
    let r = |role: Role, ece: u64, surprise: u64, moran: u64| Record { role, ece, surprise, moran };
    let v = vec![
        r(Role::CleanFit, 1, 10, 1),
        r(Role::CleanHoldout, 2, 11, 2),
        r(Role::CleanHoldout, 3, 9, 3),
        r(Role::Desync, 50, 90, 1),
        r(Role::Desync, 40, 5, 9),
    ];
    let w = weigh(&v, 0, 20);
    assert_eq!((w.n_bins, w.drift_thr, w.null_p95), (5, 20, 10));
    assert_eq!((w.holdout, w.false_alarms), (2, 1));
    assert_eq!((w.drifted_obf, w.drifted_fires), (2, 1));
    let d = detector_samples(&v, false, 20);
    assert_eq!(d.len(), 5);
    assert_eq!(d.iter().filter(|s| s.positive).count(), 2);
}

#[test]
fn bars_are_replayed_and_floored() {
    let b = Bars { glob_hi: 10, flat: 20, sized: 15, pack_ent_lo: 5 };
    let r = Reads { glob: 0, spat: 17, entropy: Some(9) };
    let v = rethreshold(&r, &b, Some("benign"), Some("benign")).unwrap();
    assert_eq!((v.flat.rule, v.sized.rule, v.floored.rule), (Regime::Benign, Regime::Packed, Regime::Benign));
    assert!(v.floor_binds);
    assert_eq!(rethreshold(&r, &b, Some("packed"), None), Err(ReplayFault::Rule));
    assert_eq!(rethreshold(&r, &b, None, Some("packed")), Err(ReplayFault::Guard));
    let blind = Reads { glob: 0, spat: 17, entropy: None };
    assert_eq!(rethreshold(&blind, &b, None, Some("packed")).unwrap().flat.guard, None);
}

#[test]
fn the_detector_goes_where_all_criteria_are_met() {
    let r = |role: Role, ece: u64, surprise: u64, moran: u64| Record { role, ece, surprise, moran };
    let mut v = vec![
        r(Role::CleanFit, 10, 10, 10),
        r(Role::CleanFit, 11, 12, 9),
        r(Role::CleanHoldout, 12, 11, 11),
        r(Role::Desync, 90, 80, 70),
        r(Role::Desync, 95, 85, 72),
    ];
    let w = weigh(&v, 0, 20);
    assert_eq!((w.n_bins, w.n_drifted, w.drifted_fires, w.false_alarms), (5, 2, 2, 0));
    let bars = GoBars { rho: 40, partial: 25 };
    let c = Correlations {
        rho_surprise: 10,
        rho_nis: 41,
        rho_moran: 0,
        rho_maxrun: 3,
        partial_surprise: 0,
        partial_moran: 25,
    };
    assert!(w.criteria(&c, bars).go());
    let weak = Correlations { rho_nis: 39, ..c };
    let met = w.criteria(&weak, bars);
    assert!(!met.go() && !met.correlates && met.tells && met.fires && met.quiet && met.holds_up);
    assert!(!w.criteria(&c, GoBars { rho: 40, partial: 26 }).holds_up);

    v.push(r(Role::Packed, 99, 1, 1));
    let p = weigh(&v, 0, 20);
    assert_eq!((p.drift_thr, p.n_drifted, p.null_p95), (w.drift_thr, w.n_drifted, w.null_p95));
    assert_eq!((p.auc_surprise, p.auc_moran), (w.auc_surprise, w.auc_moran));

    let silent = weigh(&vec![r(Role::CleanHoldout, 30, 5, 5)], 0, 20);
    let met = silent.criteria(&c, bars);
    assert!(!met.tells && !met.fires && !met.quiet);
}
