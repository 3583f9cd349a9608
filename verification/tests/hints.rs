use probdisasm::hints::{
    extract_all_hints, extract_all_hints_legacy, extract_hint_pairs, extract_hint_pairs_with,
    HintKey, HintLabel, HintPair, Prior,
};
use probdisasm::superset::Superset;

fn has_pair(pairs: &[HintPair], a: u64, b: u64) -> bool {
    pairs
        .iter()
        .any(|p| (p.addr_a == a && p.addr_b == b) || (p.addr_a == b && p.addr_b == a))
}

fn value(p: Prior) -> f64 {
    p.num as f64 / p.den as f64
}

fn log_weight(p: &HintPair) -> f64 {
    -value(p.prior_a).ln() - value(p.prior_b).ln()
}

#[test]
fn test_extract_control_flow_convergence_long() {
    let bytes: &[u8] = &[
        0xE9, 0x07, 0x00, 0x00, 0x00, 0x90, 0xE9, 0x01, 0x00, 0x00, 0x00, 0x90, 0x90,
    ];
    let superset = Superset::new(0x0, bytes).expect("failed to create superset");
    let pairs = extract_hint_pairs(&superset);
    assert!(has_pair(&pairs, 0x0, 0x6), "expected conv pair (0x0, 0x6)");
    let p = pairs
        .iter()
        .find(|p| has_pair(std::slice::from_ref(p), 0x0, 0x6))
        .unwrap();
    assert!((log_weight(p) - 2.0 * value(HintLabel::CtrlConvLong.prior()).ln().abs()).abs() < 1e-9);
}

#[test]
fn test_extract_control_flow_convergence_rel() {
    let bytes: &[u8] = &[0xEB, 0x04, 0x90, 0xEB, 0x01, 0x90, 0x90];
    let superset = Superset::new(0x0, bytes).expect("failed to create superset");
    let pairs = extract_hint_pairs(&superset);
    assert!(has_pair(&pairs, 0x0, 0x3), "expected conv pair (0x0, 0x3)");
}

#[test]
fn test_extract_control_flow_convergence_near() {
    let bytes: &[u8] = &[0x66, 0x74, 0x05, 0x90, 0x66, 0x74, 0x01, 0x90, 0x90];
    let superset = Superset::new(0x0, bytes).expect("failed to create superset");
    let pairs = extract_hint_pairs(&superset);
    assert!(has_pair(&pairs, 0x0, 0x4), "expected conv pair (0x0, 0x4)");
}

#[test]
fn test_extract_weak_control_flow() {
    let bytes: &[u8] = &[0xE9, 0x01, 0x00, 0x00, 0x00, 0x90, 0x90];
    let superset = Superset::new(0x0, bytes).expect("failed to create superset");
    let hints = extract_all_hints(&superset);
    assert!(hints.contains_key(&HintKey {
        source_addr: 0x0,
        label: HintLabel::CtrlWeak
    }));
}

#[test]
fn test_extract_control_flow_crossing_long() {
    let bytes: &[u8] = &[
        0xE9, 0x05, 0x00, 0x00, 0x00, 0xE9, 0x00, 0x00, 0x00, 0x00, 0x90,
    ];
    let superset = Superset::new(0x0, bytes).expect("failed to create superset");
    let pairs = extract_hint_pairs(&superset);
    assert!(has_pair(&pairs, 0x0, 0x5), "expected cross pair (0x0, 0x5)");
}

#[test]
fn test_extract_control_flow_crossing_rel() {
    let bytes: &[u8] = &[0xEB, 0x02, 0xEB, 0x00, 0x90];
    let superset = Superset::new(0x0, bytes).expect("failed to create superset");
    let pairs = extract_hint_pairs(&superset);
    assert!(has_pair(&pairs, 0x0, 0x2), "expected cross pair (0x0, 0x2)");
}

#[test]
fn test_extract_control_flow_crossing_near() {
    let bytes: &[u8] = &[0x66, 0x74, 0x03, 0x66, 0x74, 0x00, 0x90];
    let superset = Superset::new(0x0, bytes).expect("failed to create superset");
    let pairs = extract_hint_pairs(&superset);
    assert!(has_pair(&pairs, 0x0, 0x3), "expected cross pair (0x0, 0x3)");
}

#[test]
fn test_extract_return_addr() {
    let bytes: &[u8] = &[0xe8, 0x00, 0x00, 0x00, 0x00, 0x90];
    let superset = Superset::new(0x0, bytes).expect("failed to create superset");

    let call = superset.at(0x0).expect("expected call at 0x0");
    assert!(call.is_call(), "expected is_call() at 0x0");
    assert_eq!(call.size, 5, "call size should be 5");

    let hints = extract_all_hints(&superset);
    let key = HintKey {
        source_addr: 0x5,
        label: HintLabel::ReturnAddr,
    };
    assert!(
        hints.contains_key(&key),
        "ReturnAddr hint must fire at 0x5 (return target of call at 0x0). \
         Hints present: {:?}",
        hints.keys()
    );
    let prior = value(hints.get(&key).unwrap());
    assert!(
        (prior - value(HintLabel::ReturnAddr.prior())).abs() < 1e-15,
        "prior={prior} expected={}",
        value(HintLabel::ReturnAddr.prior())
    );
}

#[test]
fn test_extract_register_def_use() {
    let bytes: &[u8] = &[0xB8, 0x01, 0x00, 0x00, 0x00, 0x03, 0xD8];
    let superset = Superset::new(0x0, bytes).expect("failed to create superset");
    let pairs = extract_hint_pairs(&superset);
    assert!(
        has_pair(&pairs, 0x0, 0x5),
        "expected def-use pair (0x0, 0x5)"
    );
    let p = pairs
        .iter()
        .find(|p| has_pair(std::slice::from_ref(p), 0x0, 0x5))
        .unwrap();
    let expected_lw = 2.0 * value(HintLabel::RegDefUse.prior()).ln().abs();
    assert!(
        (log_weight(p) - expected_lw).abs() < 1e-9,
        "log_weight={} expected={}",
        log_weight(p),
        expected_lw
    );
}

#[test]
fn dassa_priors_weigh_control_flow_differently() {
    let bytes: &[u8] = &[
        0xE9, 0x07, 0x00, 0x00, 0x00, 0x90, 0xE9, 0x01, 0x00, 0x00, 0x00, 0x90, 0x90,
    ];
    let superset = Superset::new(0x0, bytes).expect("failed to create superset");
    let plain = extract_hint_pairs_with(&superset, false);
    let dassa = extract_hint_pairs_with(&superset, true);
    assert_eq!(plain.len(), dassa.len());
    let find = |v: &[HintPair]| *v.iter().find(|p| has_pair(std::slice::from_ref(p), 0x0, 0x6)).unwrap();
    assert_eq!(find(&plain).prior_a, Prior { num: 1, den: 4294967295 });
    assert_eq!(find(&dassa).prior_a, Prior { num: 1, den: 8192 });
    assert!(log_weight(&find(&dassa)) < log_weight(&find(&plain)));
}

#[test]
fn a_lone_nop_hints_at_nothing() {
    let superset = Superset::new(0x0, &[0x90]).expect("failed to create superset");
    assert!(extract_all_hints(&superset).keys().is_empty());
    assert!(extract_hint_pairs(&superset).is_empty());
    assert!(extract_all_hints_legacy(&superset).keys().is_empty());
}

#[test]
fn legacy_hints_name_both_ends_of_a_convergence() {
    let bytes: &[u8] = &[0xEB, 0x04, 0x90, 0xEB, 0x01, 0x90, 0x90];
    let superset = Superset::new(0x0, bytes).expect("failed to create superset");
    let hints = extract_all_hints_legacy(&superset);
    let key = |a: u64| HintKey { source_addr: a, label: HintLabel::CtrlConvRel };
    assert!(hints.contains_key(&key(0x0)) && hints.contains_key(&key(0x3)));
}

#[test]
fn assumed_priors_count_the_displacements() {
    let of = |l: HintLabel| (l.prior().num, l.prior().den);
    assert_eq!(of(HintLabel::CtrlConvRel), (1, 255));
    assert_eq!(of(HintLabel::CtrlConvNear), (1, 65535));
    assert_eq!(of(HintLabel::CtrlConvLong), (1, 4294967295));
    assert_eq!(of(HintLabel::RegDefUse), (1, 16));
    assert_eq!(of(HintLabel::ReturnAddr), (1, 10000));
    assert_eq!(HintLabel::CtrlWeak.prior(), HintLabel::CtrlWeak.dassa_prior());
}

#[test]
fn three_converging_branches_make_three_pairs_of_full_weight() {
    // jmp 0x8; jmp 0x8; jmp 0x8; two nops; mov eax, eax
    let bytes: &[u8] = &[0xEB, 0x06, 0xEB, 0x04, 0xEB, 0x02, 0x90, 0x90, 0x89, 0xC0];
    let superset = Superset::new(0x0, bytes).expect("failed to create superset");
    let pairs = extract_hint_pairs(&superset);
    for (a, b) in [(0, 2), (0, 4), (2, 4)] {
        let found: Vec<&HintPair> = pairs.iter().filter(|p| p.addr_a == a && p.addr_b == b).collect();
        assert_eq!(found.len(), 1);
        assert!((log_weight(found[0]) - 2.0 * 255f64.ln()).abs() < 1e-9);
    }
}

#[test]
fn priors_change_no_pair() {
    // mov eax, 1; jmp +2; jmp +0; nop; add ebx, eax
    let bytes: &[u8] = &[0xB8, 1, 0, 0, 0, 0xEB, 0x02, 0xEB, 0x00, 0x90, 0x01, 0xC3, 0xF7, 0xE3];
    let superset = Superset::new(0x0, bytes).expect("failed to create superset");
    let p = extract_hint_pairs_with(&superset, false);
    let q = extract_hint_pairs_with(&superset, true);
    let ends = |v: &[HintPair]| -> Vec<(u64, u64)> { v.iter().map(|p| (p.addr_a, p.addr_b)).collect() };
    assert_eq!(ends(&p), ends(&q));
    assert_eq!(ends(&p), ends(&extract_hint_pairs(&superset)));
    let hints = extract_all_hints_legacy(&superset);
    assert!(!hints.keys().iter().any(|k| k.label == HintLabel::ReturnAddr));
}
