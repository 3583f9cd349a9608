use probdisasm::dominators::{reach_without, widest_dominator};
use probdisasm::factors::{
    build_factor_graph, chain_fwd, ft_factor_targets, log_potential, occluding_addrs_of, Factor,
    FactorKind, Potential,
};
use probdisasm::flowgraph::{build_function_cfg, cfg_metrics, discover_entries, Ratio};
use probdisasm::hints::{extract_all_hints_legacy, extract_hint_pairs};
use probdisasm::levels::{
    blocked, initial_levels, least_occluder, peer_keys, propagate_invalidity_backward,
    take_estimates, DataProb,
};
use probdisasm::probe::{contains_text, control_threshold, count_firing, group_members, topology};
use probdisasm::superset::Superset;
use probdisasm::transport::{build_predecessor_map, group_hints_by_source, undecoded, Reaching};
use std::collections::BTreeSet;

fn set(v: &[u64]) -> BTreeSet<u64> {
    v.iter().copied().collect()
}

#[test]
fn potentials_follow_the_kind_of_factor() {
    assert_eq!(log_potential(FactorKind::Overlap, true, true), Potential::Forbidden);
    assert_eq!(log_potential(FactorKind::Overlap, true, false), Potential::Neutral);
    assert_eq!(log_potential(FactorKind::FallThrough, true, false), Potential::FallThroughPenalty);
    assert_eq!(log_potential(FactorKind::FallThrough, false, true), Potential::Neutral);
    assert_eq!(log_potential(FactorKind::HintCoupling(3), true, true), Potential::HintWeight(3));
    assert_eq!(log_potential(FactorKind::Transfer, true, true), Potential::TransferWeight);
}

#[test]
fn overlapping_decodes_exclude_each_other() {
    // jmp +0 (two bytes), then nop
    let s = Superset::new(0x10, &[0xeb, 0x00, 0x90]).unwrap();
    assert!(s.at(0x10).is_some() && s.at(0x12).is_some());
    if s.at(0x11).is_some() {
        assert!(occluding_addrs_of(&s, 0x10).contains(&0x11));
    }
    assert!(!occluding_addrs_of(&s, 0x10).contains(&0x12));
    let g = build_factor_graph(&s, &extract_hint_pairs(&s));
    assert_eq!(g.n, 3);
    assert!(g.factors.contains(&Factor { kind: FactorKind::FallThrough, a: 0, b: 2 })
        || g.factors.contains(&Factor { kind: FactorKind::Transfer, a: 0, b: 2 }));
}

#[test]
fn fall_through_and_chains_are_followed() {
    let s = Superset::new(0, &[0x90, 0x90, 0xc3, 0x90]).unwrap();
    assert_eq!(ft_factor_targets(s.at(0).unwrap(), 0), vec![1]);
    assert_eq!(ft_factor_targets(s.at(2).unwrap(), 2), Vec::<u64>::new());
    assert!(chain_fwd(&s, 0, 16) >= 2);
    assert_eq!(chain_fwd(&s, 0, 1), 1);
    let g = build_factor_graph(&s, &Vec::new());
    assert!(g.factors.contains(&Factor { kind: FactorKind::FallThrough, a: 0, b: 1 }));
    assert!(!g.factors.iter().any(|f| f.a == 2));
}

#[test]
fn hints_travel_along_the_flow() {
    let s = Superset::new(0, &[0x90, 0x90, 0xc3]).unwrap();
    let preds = build_predecessor_map(&s);
    assert_eq!(preds, vec![vec![], vec![0], vec![1]]);
    let mut r = Reaching::new(3);
    let local = vec![vec![7], vec![], vec![8]];
    assert!(r.run_to_fixpoint(&s, &undecoded(&s), &local));
    assert_eq!(r.at(0), &vec![7]);
    assert_eq!(r.at(1), &vec![7]);
    let mut last = r.at(2).clone();
    last.sort();
    assert_eq!(last, vec![7, 8]);
    let again = r.propagate_hints_forward(&s, &undecoded(&s), &local);
    assert!(!again.changed);

    let mut cut = Reaching::new(3);
    cut.run_to_fixpoint(&s, &vec![false, true, false], &local);
    assert_eq!(cut.at(2), &vec![8]);
    let hints = extract_all_hints_legacy(&s);
    assert_eq!(group_hints_by_source(&hints, &s).len(), 3);
}

#[test]
fn invalidity_rises_against_the_flow() {
    let s = Superset::new(0, &[0x90, 0x90, 0x06]).unwrap();
    let mut levels = initial_levels(&s);
    assert_eq!(levels[0], DataProb::Unknown);
    assert_eq!(levels[2], DataProb::DefinitelyData);
    assert_eq!(blocked(&levels), vec![false, false, true]);
    take_estimates(&mut levels, &vec![true, false, false], &vec![40, 50, 60]);
    assert_eq!(levels, vec![DataProb::Estimated(40), DataProb::Unknown, DataProb::DefinitelyData]);
    let preds = build_predecessor_map(&s);
    while propagate_invalidity_backward(&mut levels, &preds, 1000) {}
    assert_eq!(levels, vec![DataProb::DefinitelyData; 3]);
    assert_eq!(DataProb::Estimated(4).key_of(9), Some(4));
    assert_eq!(DataProb::DefinitelyData.key_of(9), Some(9));
    assert_eq!(DataProb::Unknown.key_of(9), None);
}

#[test]
fn the_weakest_rival_is_the_least_occluder() {
    // mov eax, imm32 whose immediate decodes as nops
    let s = Superset::new(0, &[0xb8, 0x90, 0x90, 0x90, 0x90]).unwrap();
    let levels = vec![
        DataProb::Estimated(9),
        DataProb::Estimated(3),
        DataProb::Unknown,
        DataProb::Estimated(5),
        DataProb::Estimated(7),
    ];
    let mut keys = peer_keys(&s, &levels, 0, 100);
    keys.sort();
    assert_eq!(keys, vec![3, 5, 7]);
    assert_eq!(least_occluder(&s, &levels, 0, 100), Some(3));
    assert_eq!(least_occluder(&s, &levels, 1, 100), Some(9));
}

#[test]
fn dominators_are_found_by_cutting() {
    // 0 -> 1 -> {2, 3} -> 4
    let succ = vec![vec![1], vec![2, 3], vec![4], vec![4], vec![]];
    assert_eq!(reach_without(&succ, 0, 2), vec![true, true, false, true, true]);
    assert_eq!(reach_without(&succ, 0, 1), vec![true, false, false, false, false]);
    assert_eq!(widest_dominator(&succ, 0), 3);
    let star = vec![vec![1, 2, 3, 4], vec![], vec![], vec![], vec![]];
    assert_eq!(widest_dominator(&star, 0), 4);
}

#[test]
fn functions_are_graphed_and_measured() {
    // 0: je +1; 2: nop; 3: ret; 4: jmp rax
    let s = Superset::new(0, &[0x74, 0x01, 0x90, 0xc3, 0xff, 0xe0]).unwrap();
    let recovered = set(&[0, 2, 3, 4]);
    let g = build_function_cfg(&s, &recovered, 0, 4, &Vec::new()).unwrap();
    assert_eq!(g.blocks, vec![0, 2, 3]);
    let mut first = g.succ[0].clone();
    first.sort();
    assert_eq!(first, vec![1, 2]);
    assert_eq!(g.succ[1], vec![2]);
    assert_eq!(g.succ[2], Vec::<usize>::new());
    assert_eq!((g.total_edges, g.entry_block), (3, 0));
    let m = cfg_metrics(&g);
    assert_eq!(m.max_blocks, 3);
    assert_eq!((m.dispatcher.num, m.dispatcher.den), (2, 3));
    assert_eq!((m.dom_collapse.num, m.dom_collapse.den), (2, 3));
    assert_eq!(m.indirect.num, 0);
    assert!(build_function_cfg(&s, &recovered, 100, 200, &Vec::new()).is_none());

    assert_eq!(discover_entries(&s, &recovered, &Vec::new(), 0), vec![0, 4]);
    let t = topology(&s, &recovered, &Vec::new(), 0).unwrap();
    assert_eq!((t.n_funcs, t.max_blocks), (1, 3));
    assert!(topology(&s, &BTreeSet::new(), &Vec::new(), 0).is_none());
    let half = Ratio { num: 1, den: 2 };
    assert_eq!(half.greater(Ratio { num: 2, den: 3 }), Ratio { num: 2, den: 3 });
}

#[test]
fn controls_set_the_threshold() {
    let labels: Vec<String> =
        ["normal", "legit-vm", "tig-virt", "normal"].iter().map(|s| s.to_string()).collect();
    let keys = vec![5, 9, 7, 3];
    let controls = group_members(&labels, "normal");
    assert_eq!(controls, vec![0, 3]);
    let t = control_threshold(&keys, &controls);
    assert_eq!(t, Some(5));
    assert_eq!(count_firing(&keys, &controls, t), 0);
    assert_eq!(count_firing(&keys, &vec![1, 2], t), 2);
    assert_eq!(control_threshold(&keys, &Vec::new()), None);
    assert!(contains_text("tig-virt", "virt") && !contains_text("tig", "virt"));
}
