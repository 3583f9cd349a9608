use probdisasm::bench::{
    count_from, count_indirect_sites, count_tp, grade, map_entry, predict, score, sweep,
};
use probdisasm::cli::{parse_address, ArgFault};
use probdisasm::confirm::{
    belief_frontier, boolean_frontier, boolean_reach, called_heads, count_hits, count_kind,
    count_members_from, count_scores, count_targets, index_beliefs, leak_at,
    report_function_calibration, split_heads, CallEdge, Marks, ResolveKind, ResolvedEdge, SoftModel,
};
use probdisasm::cover::{cover, intervals, Interval, Plan};
use probdisasm::forge::parse_forge_args;
use probdisasm::options::{parse_bench_args, BenchRequest};
use probdisasm::reals::{writes_real, writes_reals};
use probdisasm::superset::Superset;
use probdisasm::synth::DataKind;
use std::collections::BTreeSet;

fn strings(v: &[&str]) -> Vec<String> {
    v.iter().map(|s| s.to_string()).collect()
}

fn set(v: &[u64]) -> BTreeSet<u64> {
    v.iter().copied().collect()
}

fn edge(from: u64, to: u64, trust: u64, force: u64) -> CallEdge {
    CallEdge { from, to, trust, force }
}

#[test]
fn entry_outside_the_code_becomes_its_base() {
    assert_eq!(map_entry(0x1005, 0x1000, 16), 0x1005);
    assert_eq!(map_entry(0x1010, 0x1000, 16), 0x1000);
    assert_eq!(map_entry(0x0fff, 0x1000, 16), 0x1000);
}

#[test]
fn predictions_are_scored_against_the_truth() {
    let scores = vec![(0x10, 9), (0x20, 5), (0x30, 7), (0x40, 1)];
    let truth = set(&[0x10, 0x20, 0x50]);
    assert_eq!(predict(&scores, 5), vec![0x10, 0x20, 0x30]);
    let s = score(&predict(&scores, 5), &truth);
    assert_eq!((s.tp, s.pred, s.truth), (2, 3, 3));
    let value = |x: Option<probdisasm::recovery::Share>| x.map(|f| f.num as f64 / f.den as f64);
    assert_eq!(value(s.recall()), Some(2.0 / 3.0));
    assert_eq!(value(s.precision()), Some(2.0 / 3.0));
    assert_eq!(value(s.f1()), Some(2.0 / 3.0));
    let nothing = score(&Vec::new(), &BTreeSet::new());
    assert_eq!(nothing.recall(), None);
    assert_eq!(nothing.precision(), None);

    assert_eq!(count_tp(&vec![0x10, 0x11], &truth), 1);
    assert_eq!(count_from(&vec![0x10, 0x11, 0x20], 0x11), 2);
    let row = grade(&vec![0x10, 0x60, 0x70], &truth, Some(0x60));
    assert_eq!(row.leak, Some(2));
    assert_eq!(grade(&vec![0x10], &truth, None).leak, None);
}

#[test]
fn higher_marks_find_less() {
    let scores = vec![(0x10, 9), (0x20, 5), (0x30, 7), (0x40, 1)];
    let rows = sweep(&scores, &set(&[0x10, 0x20]), &vec![1, 6, 10], Some(0x30));
    let found: Vec<(usize, usize, Option<usize>)> =
        rows.iter().map(|r| (r.score.pred, r.score.tp, r.leak)).collect();
    assert_eq!(found, vec![(4, 2, Some(2)), (2, 1, Some(1)), (0, 0, Some(0))]);
}

#[test]
fn indirect_branches_are_counted() {
    // jmp rax; call rax; ret; jmp +0
    let s = Superset::new(0, &[0xff, 0xe0, 0xff, 0xd0, 0xc3, 0xeb, 0x00]).unwrap();
    assert_eq!(count_indirect_sites(&s), 2);
}

#[test]
fn cover_takes_the_heaviest_disjoint_set() {
    let v = vec![
        Interval { start: 0, end: 4 },
        Interval { start: 1, end: 3 },
        Interval { start: 3, end: 6 },
        Interval { start: 6, end: 7 },
    ];
    let plan = Plan::new(&v);
    let mut got = cover(&v, &plan, &vec![5, 3, 4, -1]);
    got.sort();
    assert_eq!(got, vec![1, 2]);
    assert_eq!(cover(&v, &plan, &vec![9, 3, 4, -1]), vec![0]);
    assert_eq!(cover(&v, &plan, &vec![0, 0, 0, 0]), Vec::<usize>::new());
}

#[test]
fn instructions_span_their_bytes() {
    let s = Superset::new(0x100, &[0x90, 0xeb, 0x00]).unwrap();
    let v = intervals(&s);
    assert!(v.contains(&Interval { start: 0x100, end: 0x101 }));
    assert!(v.contains(&Interval { start: 0x101, end: 0x103 }));
}

#[test]
fn reach_follows_trusted_calls_only() {
    let edges = vec![edge(1, 2, 9, 9), edge(2, 3, 4, 9), edge(3, 1, 9, 9), edge(8, 9, 9, 9)];
    assert_eq!(boolean_reach(&edges, 1, 9), set(&[1, 2]));
    assert_eq!(boolean_reach(&edges, 1, 4), set(&[1, 2, 3]));
    assert_eq!(boolean_reach(&edges, 5, 0), set(&[5]));
    assert_eq!(count_members_from(&set(&[1, 2, 3]), 2), 2);
    let points = boolean_frontier(&edges, &set(&[2, 3, 7]), 1, 3, &vec![4, 9]);
    let got: Vec<(usize, usize)> = points.iter().map(|p| (p.found, p.leak)).collect();
    assert_eq!(got, vec![(2, 1), (1, 0)]);
}

fn model() -> SoftModel {
    SoftModel {
        heads: vec![0x10, 0x20, 0x30, 0x90],
        prior: vec![8, 6, 3, 5],
        belief: vec![(0x10, 9), (0x20, 8), (0x30, 1), (0x90, 5)],
        edges: vec![edge(0x10, 0x20, 9, 9), edge(0x10, 0x30, 2, 1)],
    }
}

#[test]
fn called_and_uncalled_heads_are_told_apart() {
    let m = model();
    assert_eq!(called_heads(&m.edges, 5), set(&[0x20]));
    assert_eq!(split_heads(&m.heads, &m.edges, 0x10, 5), (vec![1], vec![2, 3]));
}

#[test]
fn functions_are_reported_by_belief() {
    let m = model();
    let marks = Marks { trace: 2, half: 5, high: 8 };
    let r = report_function_calibration(&m, &set(&[0x10, 0x20, 0x30]), 0x10, Some(0x80), marks);
    assert_eq!((r.known, r.confirmed), (3, 2));
    assert_eq!((r.core.clone(), r.core_known), (vec![1], 1));
    assert_eq!((r.tail.clone(), r.tail_known), (vec![2, 3], 1));
    let d = r.decoy.unwrap();
    assert_eq!((d.traced, d.half, d.high, d.reached), (1, 1, 0, 2));
    let rivals: Vec<(u64, bool)> = d.rivals.iter().map(|s| (s.key, s.positive)).collect();
    assert_eq!(rivals, vec![(3, true), (5, false)]);
    let none = report_function_calibration(&m, &set(&[0x10]), 0x10, None, marks);
    assert!(none.decoy.is_none());

    let index = index_beliefs(&m.belief);
    assert_eq!(leak_at(&index, &m.belief, &m.heads, 0x80, 5), 1);
    assert_eq!(leak_at(&index, &m.belief, &m.heads, 0x80, 6), 0);
    let points = belief_frontier(&m, &set(&[0x10, 0x20]), 0x80, &vec![5, 9]);
    let got: Vec<(usize, usize)> = points.iter().map(|p| (p.found, p.leak)).collect();
    assert_eq!(got, vec![(2, 1), (1, 0)]);
}

#[test]
fn scores_and_resolved_edges_are_counted() {
    let v = vec![(1, 5), (2, 7), (3, 7)];
    assert_eq!(count_scores(&v, 7), 2);
    assert_eq!(count_hits(&v, &set(&[1, 3]), 7), 1);
    let e = |to: u64, kind: ResolveKind| ResolvedEdge { from: 0, to, trust: 1, kind };
    let edges =
        vec![e(5, ResolveKind::Vtable), e(6, ResolveKind::JumpTable), e(5, ResolveKind::Vtable)];
    assert_eq!(count_kind(&edges, ResolveKind::Vtable), 2);
    assert_eq!(count_kind(&edges, ResolveKind::InitArray), 0);
    assert_eq!(count_targets(&edges), 2);
}

#[test]
fn bench_arguments_are_read() {
    let r = parse_bench_args(&strings(&[
        "a.elf", "a.gt", "--dassa", "--entropy", "1.5", "--decoy-from", "0x40", "--max-fn-span", "9",
    ]))
    .unwrap();
    match r {
        BenchRequest::Help => panic!("no help was asked for"),
        BenchRequest::Run(o) => {
            assert_eq!((o.binary.as_str(), o.gt.as_str()), ("a.elf", "a.gt"));
            assert!(o.switches.dassa && !o.switches.cover);
            assert_eq!(o.entropy.as_deref(), Some("1.5"));
            assert_eq!(o.decoy_from, Some(0x40));
            assert_eq!(o.max_fn_span, 9);
        }
    }
    assert!(matches!(parse_bench_args(&strings(&["--help"])), Ok(BenchRequest::Help)));
    assert_eq!(
        parse_bench_args(&strings(&["a.elf"])).err(),
        Some(ArgFault::WordCount(1))
    );
    assert_eq!(
        parse_bench_args(&strings(&["a", "b", "--gamma"])).err(),
        Some(ArgFault::MissingValue(2))
    );
    assert_eq!(
        parse_bench_args(&strings(&["a", "b", "--decoy-from", "zz"])).err(),
        Some(ArgFault::BadValue(3))
    );
    assert_eq!(
        parse_bench_args(&strings(&["a", "b", "--what"])).err(),
        Some(ArgFault::Unexpected(2))
    );
}

#[test]
fn values_are_held_to_their_form_before_help_is_given() {
    let fault = |v: &[&str]| parse_bench_args(&strings(v)).err();
    assert_eq!(fault(&["--entropy", "abc", "-h"]), Some(ArgFault::BadValue(1)));
    assert_eq!(fault(&["--gamma", "1,5", "-h"]), Some(ArgFault::BadValue(1)));
    assert_eq!(fault(&["--fall-decay", "", "-h"]), Some(ArgFault::BadValue(1)));
    assert_eq!(fault(&["--biases", "1,,2", "-h"]), Some(ArgFault::BadValue(1)));
    assert_eq!(fault(&["a", "--thresholds", "0.5, x", "b"]), Some(ArgFault::BadValue(2)));
    let help = parse_bench_args(&strings(&["--entropy", "-1e3", "--biases", "-.5, 2.,NaN", "-h"]));
    assert!(matches!(help, Ok(BenchRequest::Help)));
    assert!(matches!(parse_bench_args(&strings(&["-h", "--entropy", "abc"])), Ok(BenchRequest::Help)));
}

#[test]
fn real_numbers_are_told_from_other_words() {
    let words = [
        "0", "1.5", ".5", "5.", "-2", "+3", "1e9", "1E-9", "1e+9", "inf", "-Infinity", "+NAN", "1e999",
        "", ".", "+", "-", "e5", "1e", "1e+", "1.2.3", "1e5.", "--1", "+-1", "0x10", "1_0", " 1", "1 ",
        "infinit", "nano", "1f", "-.e1", "\u{0661}", "1e5e5", "1,5",
    ];
    for w in words {
        let chars: Vec<char> = w.chars().collect();
        assert_eq!(writes_real(&chars), w.parse::<f64>().is_ok(), "{w:?}");
    }
    let list = |s: &str| writes_reals(&s.chars().collect());
    assert!(list("1") && list("1, 2 ,\t3") && list("nan,inf"));
    assert!(!list("") && !list("1,") && !list(",1") && !list("1 2"));
}

#[test]
fn addresses_are_hex_behind_0x_and_decimal_else() {
    assert_eq!(parse_address("0x10"), Some(16));
    assert_eq!(parse_address("10"), Some(10));
    assert_eq!(parse_address("ff"), None);
}

#[test]
fn forge_arguments_are_read() {
    let o = parse_forge_args(&strings(&["a", "b", "c", "--kind", "compressed"])).unwrap().unwrap();
    assert_eq!((o.elf.as_str(), o.gt.as_str(), o.out_prefix.as_str()), ("a", "b", "c"));
    assert_eq!(o.kind, DataKind::Compressed);
    assert!(parse_forge_args(&strings(&["-h"])).unwrap().is_none());
    assert_eq!(
        parse_forge_args(&strings(&["a", "b", "c", "--kind", "odd"])).err(),
        Some(ArgFault::BadValue(4))
    );
    assert_eq!(parse_forge_args(&strings(&["a"])).err(), Some(ArgFault::WordCount(1)));
}
