//! Recovery of function boundaries from confident calls, and how it is graded.

use std::collections::BTreeSet;

use vstd::prelude::*;

use crate::addresses::{count_shared, count_window, window};
use crate::regime::{law_tag_round_trip, parse_regime, regime_tagged, Regime};
use crate::superset::{law_kinds_are_groups, Superset};
use crate::switching::Picks;
use crate::table::{cell_number, cell_texts, parse_cell, read_rows, rows_from};
use crate::text::{
    begins_with, chars_of, chars_start_with, digits_of, hex_word, law_numeral_round_trip, lines,
    parse_hex_word, push_text, split_lines, str_eq, string_of, strings, texts, trim, trimmed,
};

verus! {

broadcast use vstd::std_specs::btree::group_btree_axioms;

// ── Arms ───────────────────────────────────────────────────────────────────

/// A way to choose the calibration.
#[derive(Debug, Clone, Copy, PartialEq, Eq, Structural)]
pub enum Arm {
    /// Always the calibration for ordinary code.
    Stale,
    /// The threshold rule.
    SwitchRule,
    /// The guarded rule.
    SwitchGuard,
    /// The true regime.
    Oracle,
}

impl Arm {
    /// The tag of an arm.
    pub open spec fn spec_tag(self) -> Seq<char> {
        match self {
            Arm::Stale => "stale"@,
            Arm::SwitchRule => "switch_rule"@,
            Arm::SwitchGuard => "switch_guard"@,
            Arm::Oracle => "oracle"@,
        }
    }

    /// The arm at position `i`.
    pub open spec fn spec_at(i: int) -> Arm {
        if i == 0 {
            Arm::Stale
        } else if i == 1 {
            Arm::SwitchRule
        } else if i == 2 {
            Arm::SwitchGuard
        } else {
            Arm::Oracle
        }
    }

    /// The tag of an arm.
    pub fn tag(self) -> (r: &'static str)
        ensures
            r@ == self.spec_tag(),
    {
        match self {
            Arm::Stale => "stale",
            Arm::SwitchRule => "switch_rule",
            Arm::SwitchGuard => "switch_guard",
            Arm::Oracle => "oracle",
        }
    }

    /// The arm at position `i`.
    pub fn at(i: usize) -> (r: Arm)
        ensures
            r == Arm::spec_at(i as int),
    {
        if i == 0 {
            Arm::Stale
        } else if i == 1 {
            Arm::SwitchRule
        } else if i == 2 {
            Arm::SwitchGuard
        } else {
            Arm::Oracle
        }
    }

    /// The regime whose calibration an arm uses.
    pub open spec fn spec_pick(self, p: Picks) -> Regime {
        match self {
            Arm::Stale => p.always_benign,
            Arm::SwitchRule => p.rule,
            Arm::SwitchGuard => p.guard,
            Arm::Oracle => p.oracle,
        }
    }

    /// The regime whose calibration an arm uses.
    pub fn pick(self, p: &Picks) -> (r: Regime)
        ensures
            r == self.spec_pick(*p),
    {
        match self {
            Arm::Stale => p.always_benign,
            Arm::SwitchRule => p.rule,
            Arm::SwitchGuard => p.guard,
            Arm::Oracle => p.oracle,
        }
    }
}

/// The arm with the tag `s`.
pub open spec fn arm_tagged(s: Seq<char>) -> Option<Arm> {
    if s == "stale"@ {
        Some(Arm::Stale)
    } else if s == "switch_rule"@ {
        Some(Arm::SwitchRule)
    } else if s == "switch_guard"@ {
        Some(Arm::SwitchGuard)
    } else if s == "oracle"@ {
        Some(Arm::Oracle)
    } else {
        None
    }
}

/// The arm with the tag `s`.
pub fn parse_arm(s: &str) -> (r: Option<Arm>)
    ensures
        r == arm_tagged(s@),
{
    if str_eq(s, "stale") {
        Some(Arm::Stale)
    } else if str_eq(s, "switch_rule") {
        Some(Arm::SwitchRule)
    } else if str_eq(s, "switch_guard") {
        Some(Arm::SwitchGuard)
    } else if str_eq(s, "oracle") {
        Some(Arm::Oracle)
    } else {
        None
    }
}

/// An arm is known by its tag.
pub proof fn law_arm_round_trip(a: Arm)
    ensures
        arm_tagged(a.spec_tag()) == Some(a),
{
    reveal_strlit("stale");
    reveal_strlit("switch_rule");
    reveal_strlit("switch_guard");
    reveal_strlit("oracle");
    assert("stale"@.len() == 5);
    assert("switch_rule"@.len() == 11);
    assert("switch_guard"@.len() == 12);
    assert("oracle"@.len() == 6);
}

// ── The task ───────────────────────────────────────────────────────────────

/// Whether the instruction at offset `o` is a call to an address of the region.
pub open spec fn is_call_edge(s: Superset, o: int, e: (u64, u64)) -> bool {
    &&& s.valid(o)
    &&& s.insn(o).spec_is_call()
    &&& s.insn(o).branch_target == Some(e.1)
    &&& e.0 == s.insn(o).address
    &&& s.base_addr <= e.1 < s.base_addr + s.bytes@.len()
}

/// The calls at the first `k` offsets.
pub open spec fn calls_below(s: Superset, k: int) -> Seq<(u64, u64)>
    decreases k,
{
    if k <= 0 {
        Seq::empty()
    } else {
        let before = calls_below(s, k - 1);
        if s.valid(k - 1) && s.insn(k - 1).spec_is_call() {
            match s.insn(k - 1).branch_target {
                Some(t) => if s.base_addr <= t < s.base_addr + s.bytes@.len() {
                    before.push((s.insn(k - 1).address, t))
                } else {
                    before
                },
                None => before,
            }
        } else {
            before
        }
    }
}

proof fn lemma_calls_push(s: Superset, k: int, e: (u64, u64))
    requires
        0 < k,
    ensures
        calls_below(s, k).contains(e) <==> calls_below(s, k - 1).contains(e) || is_call_edge(
            s,
            k - 1,
            e,
        ),
{
    let before = calls_below(s, k - 1);
    let now = calls_below(s, k);
    if before.contains(e) {
        let j = choose|j: int| 0 <= j < before.len() && before[j] == e;
        assert(now[j] == e);
    }
    if is_call_edge(s, k - 1, e) {
        assert(now[before.len() as int] == e);
    }
    if now.contains(e) {
        let j = choose|j: int| 0 <= j < now.len() && now[j] == e;
        if j < before.len() {
            assert(before[j] == e);
        }
    }
}

/// The list of calls holds exactly the direct calls within the region.
pub proof fn law_calls_are_listed(s: Superset, k: int, e: (u64, u64))
    requires
        0 <= k,
    ensures
        calls_below(s, k).contains(e) <==> exists|o: int| 0 <= o < k && #[trigger] is_call_edge(
            s,
            o,
            e,
        ),
    decreases k,
{
    if k > 0 {
        law_calls_are_listed(s, k - 1, e);
        lemma_calls_push(s, k, e);
    }
}

/// All direct calls within the region: address and target.
pub fn call_edges(s: &Superset) -> (r: Vec<(u64, u64)>)
    requires
        s.wf(),
        s.base_addr + s.bytes@.len() <= u64::MAX,
    ensures
        r@ == calls_below(*s, s.spec_len()),
{
    let n: usize = s.instructions.len();
    let lo: u64 = s.base_addr;
    let hi: u64 = lo + n as u64;
    let mut out: Vec<(u64, u64)> = Vec::new();
    let mut k: usize = 0;
    while k < n
        invariant
            s.wf(),
            n == s.instructions@.len(),
            lo == s.base_addr,
            hi == s.base_addr + s.bytes@.len(),
            k <= n,
            out@ == calls_below(*s, k as int),
        decreases n - k,
    {
        if let Some(i) = &s.instructions[k] {
            proof {
                assert(s.valid(k as int));
                assert(s.insn(k as int) == *i);
            }
            if i.is_call() {
                if let Some(t) = i.branch_target {
                    if lo <= t && t < hi {
                        out.push((i.address, t));
                    }
                }
            }
        }
        k += 1;
    }
    out
}

/// Whether `t` is called.
pub open spec fn is_target(edges: Seq<(u64, u64)>, t: u64) -> bool {
    exists|k: int| 0 <= k < edges.len() && (#[trigger] edges[k]).1 == t
}

/// Whether `t` is called and both ends of the call are among the sure addresses.
pub open spec fn is_recovered(edges: Seq<(u64, u64)>, sure: Set<u64>, t: u64) -> bool {
    exists|k: int|
        0 <= k < edges.len() && (#[trigger] edges[k]).1 == t && sure.contains(edges[k].0)
            && sure.contains(t)
}

/// The addresses that are called.
pub fn targets(edges: &Vec<(u64, u64)>) -> (r: BTreeSet<u64>)
    ensures
        forall|t: u64| #[trigger] r@.contains(t) <==> is_target(edges@, t),
{
    let mut out: BTreeSet<u64> = BTreeSet::new();
    let mut k: usize = 0;
    while k < edges.len()
        invariant
            k <= edges@.len(),
            forall|t: u64| #[trigger] out@.contains(t) <==> is_target(edges@.take(k as int), t),
        decreases edges@.len() - k,
    {
        let ghost before = out@;
        out.insert(edges[k].1);
        proof {
            let a = edges@.take(k as int);
            let b = edges@.take(k + 1);
            assert forall|t: u64| #[trigger] out@.contains(t) <==> is_target(b, t) by {
                assert(before.contains(t) <==> is_target(a, t));
                if is_target(a, t) {
                    let j = choose|j: int| 0 <= j < a.len() && (#[trigger] a[j]).1 == t;
                    assert(b[j] == a[j]);
                }
                assert(b[k as int] == edges@[k as int]);
                if is_target(b, t) {
                    let j = choose|j: int| 0 <= j < b.len() && (#[trigger] b[j]).1 == t;
                    if j < k {
                        assert(a[j] == b[j]);
                    }
                }
            }
        }
        k += 1;
    }
    proof {
        assert(edges@.take(k as int) =~= edges@);
    }
    out
}

/// The function heads that confident calls show: both ends of the call have to
/// be sure.
pub fn recover_boundaries(edges: &Vec<(u64, u64)>, sure: &BTreeSet<u64>) -> (r: BTreeSet<u64>)
    ensures
        forall|t: u64| #[trigger] r@.contains(t) <==> is_recovered(edges@, sure@, t),
{
    let mut out: BTreeSet<u64> = BTreeSet::new();
    let mut k: usize = 0;
    while k < edges.len()
        invariant
            k <= edges@.len(),
            forall|t: u64| #[trigger]
                out@.contains(t) <==> is_recovered(edges@.take(k as int), sure@, t),
        decreases edges@.len() - k,
    {
        let ghost before = out@;
        let (c, t): (u64, u64) = edges[k];
        if sure.contains(&c) && sure.contains(&t) {
            out.insert(t);
        }
        proof {
            let a = edges@.take(k as int);
            let b = edges@.take(k + 1);
            assert forall|x: u64| #[trigger] out@.contains(x) <==> is_recovered(
                b,
                sure@,
                x,
            ) by {
                assert(before.contains(x) <==> is_recovered(a, sure@, x));
                if is_recovered(a, sure@, x) {
                    let j = choose|j: int|
                        0 <= j < a.len() && (#[trigger] a[j]).1 == x && sure@.contains(a[j].0)
                            && sure@.contains(x);
                    assert(b[j] == a[j]);
                }
                assert(b[k as int] == edges@[k as int]);
                if is_recovered(b, sure@, x) {
                    let j = choose|j: int|
                        0 <= j < b.len() && (#[trigger] b[j]).1 == x && sure@.contains(b[j].0)
                            && sure@.contains(x);
                    if j < k {
                        assert(a[j] == b[j]);
                    }
                }
            }
        }
        k += 1;
    }
    proof {
        assert(edges@.take(k as int) =~= edges@);
    }
    out
}

/// A recovered head is sure and called.
pub proof fn law_recovered_is_called(edges: Seq<(u64, u64)>, sure: Set<u64>, t: u64)
    requires
        is_recovered(edges, sure, t),
    ensures
        is_target(edges, t),
        sure.contains(t),
{
}

/// With more sure addresses no head is lost.
pub proof fn law_recovery_grows(edges: Seq<(u64, u64)>, sure: Set<u64>, more: Set<u64>, t: u64)
    requires
        sure.subset_of(more),
        is_recovered(edges, sure, t),
    ensures
        is_recovered(edges, more, t),
{
}

// ── Grades ─────────────────────────────────────────────────────────────────

/// What the true heads are known to be.
#[derive(Debug)]
pub enum HeadTruth {
    /// These.
    Heads(BTreeSet<u64>),
    /// None of `[lo, hi)`, which is data.
    Data(u64, u64),
}

/// How well heads were recovered.
#[derive(Debug, Clone, Copy, PartialEq, Eq, Structural)]
pub struct Grade {
    /// True heads.
    pub n_gt: usize,
    /// True heads that anything calls.
    pub n_reach: usize,
    /// Recovered heads.
    pub n_pred: usize,
    /// Recovered heads that are true.
    pub tp: usize,
    /// Recovered heads that are provably false.
    pub fp: usize,
    /// True heads that were not recovered.
    pub fn_: usize,
    /// Called addresses in the data.
    pub n_window: usize,
    /// Recovered heads in the data.
    pub win_pred: usize,
}

impl Grade {
    /// Whether this is the grade of the recovered heads `pred`.
    pub open spec fn is_grade(self, pred: Set<u64>, called: Set<u64>, truth: HeadTruth) -> bool {
        &&& self.n_pred == pred.len()
        &&& match truth {
            HeadTruth::Heads(g) => {
                &&& self.n_gt == g@.len()
                &&& self.n_reach == called.intersect(g@).len()
                &&& self.tp == pred.intersect(g@).len()
                &&& self.tp + self.fp == self.n_pred
                &&& self.tp + self.fn_ == self.n_gt
                &&& self.n_window == 0
                &&& self.win_pred == 0
            },
            HeadTruth::Data(lo, hi) => {
                &&& self.n_gt == 0
                &&& self.n_reach == 0
                &&& self.tp == 0
                &&& self.fp == self.win_pred
                &&& self.fn_ == 0
                &&& self.n_window == called.intersect(window(lo, hi)).len()
                &&& self.win_pred == pred.intersect(window(lo, hi)).len()
            },
        }
    }
}

/// Grades recovered heads. Where only data is known, the heads in the data are
/// the ones that are provably false.
pub fn grade_recovery(pred: &BTreeSet<u64>, called: &BTreeSet<u64>, truth: &HeadTruth) -> (r: Grade)
    ensures
        r.is_grade(pred@, called@, *truth),
{
    let n_pred: usize = pred.len();
    match truth {
        HeadTruth::Heads(g) => {
            let tp: usize = count_shared(pred, g);
            Grade {
                n_gt: g.len(),
                n_reach: count_shared(called, g),
                n_pred,
                tp,
                fp: n_pred - tp,
                fn_: g.len() - tp,
                n_window: 0,
                win_pred: 0,
            }
        },
        HeadTruth::Data(lo, hi) => {
            let win_pred: usize = count_window(pred, *lo, *hi);
            Grade {
                n_gt: 0,
                n_reach: 0,
                n_pred,
                tp: 0,
                fp: win_pred,
                fn_: 0,
                n_window: count_window(called, *lo, *hi),
                win_pred,
            }
        },
    }
}

/// The grade of one arm at one threshold.
#[derive(Debug, Clone, Copy, PartialEq, Eq, Structural)]
pub struct ArmGrade {
    /// The arm.
    pub arm: Arm,
    /// The regime whose calibration it used.
    pub pick: Regime,
    /// The number of the threshold.
    pub tau: usize,
    /// The grade.
    pub grade: Grade,
}

/// Whether `p` is the set of heads recovered from the calls.
pub open spec fn is_recovery(p: Set<u64>, edges: Seq<(u64, u64)>, sure: Set<u64>) -> bool {
    forall|t: u64| #[trigger] p.contains(t) <==> is_recovered(edges, sure, t)
}

/// Whether `called` is the set of called addresses.
pub open spec fn is_called_set(called: Set<u64>, edges: Seq<(u64, u64)>) -> bool {
    forall|t: u64| #[trigger] called.contains(t) <==> is_target(edges, t)
}

/// Whether `g` grades arm `a` at threshold `t`.
pub open spec fn is_arm_grade(
    g: ArmGrade,
    a: int,
    t: int,
    picks: Picks,
    edges: Seq<(u64, u64)>,
    sure: Set<u64>,
    truth: HeadTruth,
) -> bool {
    &&& g.arm == Arm::spec_at(a)
    &&& g.pick == Arm::spec_at(a).spec_pick(picks)
    &&& g.tau == t
    &&& exists|pred: Set<u64>, called: Set<u64>|
        #![trigger is_recovery(pred, edges, sure), is_called_set(called, edges)]
        is_recovery(pred, edges, sure) && is_called_set(called, edges) && g.grade.is_grade(
            pred,
            called,
            truth,
        )
}

/// Recovers and grades the heads of one binary under every arm and threshold.
/// `sure` holds the addresses that clear threshold `t` under arm `a`, at `a`
/// times the number of thresholds plus `t`.
pub fn grade_arms(
    edges: &Vec<(u64, u64)>,
    sure: &Vec<BTreeSet<u64>>,
    taus: usize,
    picks: &Picks,
    truth: &HeadTruth,
) -> (r: Vec<ArmGrade>)
    requires
        sure@.len() == 4 * taus,
    ensures
        r@.len() == 4 * taus,
        forall|a: int, t: int|
            #![trigger r@[a * taus + t]]
            0 <= a < 4 && 0 <= t < taus ==> is_arm_grade(
                r@[a * taus + t],
                a,
                t,
                *picks,
                edges@,
                sure@[a * taus + t]@,
                *truth,
            ),
{
    let called: BTreeSet<u64> = targets(edges);
    let mut out: Vec<ArmGrade> = Vec::new();
    let mut a: usize = 0;
    let n: usize = sure.len();
    while a < 4
        invariant
            a <= 4,
            n == sure@.len() == 4 * taus,
            is_called_set(called@, edges@),
            out@.len() == a * taus,
            forall|b: int, t: int|
                #![trigger out@[b * taus + t]]
                0 <= b < a && 0 <= t < taus ==> is_arm_grade(
                    out@[b * taus + t],
                    b,
                    t,
                    *picks,
                    edges@,
                    sure@[b * taus + t]@,
                    *truth,
                ),
        decreases 4 - a,
    {
        let arm: Arm = Arm::at(a);
        let pick: Regime = arm.pick(picks);
        let mut t: usize = 0;
        while t < taus
            invariant
                a < 4,
                t <= taus,
                n == sure@.len() == 4 * taus,
                arm == Arm::spec_at(a as int),
                pick == arm.spec_pick(*picks),
                is_called_set(called@, edges@),
                out@.len() == a * taus + t,
                forall|b: int, u: int|
                    #![trigger out@[b * taus + u]]
                    0 <= b <= a && 0 <= u < taus && b * taus + u < a * taus + t ==> is_arm_grade(
                        out@[b * taus + u],
                        b,
                        u,
                        *picks,
                        edges@,
                        sure@[b * taus + u]@,
                        *truth,
                    ),
            decreases taus - t,
        {
            proof {
                assert(a * taus + t < 4 * taus && a * taus <= 4 * taus) by (nonlinear_arith)
                    requires
                        0 <= a < 4,
                        0 <= t < taus,
                ;
            }
            let at: usize = out.len();
            let pred: BTreeSet<u64> = recover_boundaries(edges, &sure[at]);
            let grade: Grade = grade_recovery(&pred, &called, truth);
            let ghost before = out@;
            out.push(ArmGrade { arm, pick, tau: t, grade });
            proof {
                assert(is_recovery(pred@, edges@, sure@[at as int]@));
                assert(is_arm_grade(
                    out@[at as int],
                    a as int,
                    t as int,
                    *picks,
                    edges@,
                    sure@[at as int]@,
                    *truth,
                ));
                assert forall|b: int, u: int|
                    #![trigger out@[b * taus + u]]
                    0 <= b <= a && 0 <= u < taus && b * taus + u < a * taus + t
                        + 1 implies is_arm_grade(
                    out@[b * taus + u],
                    b,
                    u,
                    *picks,
                    edges@,
                    sure@[b * taus + u]@,
                    *truth,
                ) by {
                    if b * taus + u < a * taus + t {
                        assert(out@[b * taus + u] == before[b * taus + u]);
                    } else {
                        assert(b == a && u == t) by (nonlinear_arith)
                            requires
                                b * taus + u == a * taus + t,
                                0 <= u < taus,
                                0 <= t < taus,
                                0 <= b <= a,
                        ;
                    }
                }
            }
            t += 1;
        }
        proof {
            assert((a + 1) * taus == a * taus + taus) by (nonlinear_arith);
            assert forall|b: int, u: int|
                #![trigger out@[b * taus + u]]
                0 <= b < a + 1 && 0 <= u < taus implies is_arm_grade(
                out@[b * taus + u],
                b,
                u,
                *picks,
                edges@,
                sure@[b * taus + u]@,
                *truth,
            ) by {
                assert(b * taus + u < a * taus + taus) by (nonlinear_arith)
                    requires
                        0 <= b <= a,
                        0 <= u < taus,
                ;
            }
        }
        a += 1;
    }
    out
}

// ── Totals ─────────────────────────────────────────────────────────────────

/// A group that is reported on.
#[derive(Debug, Clone, Copy, PartialEq, Eq, Structural)]
pub enum Bucket {
    /// Ordinary code.
    Benign,
    /// Packed code.
    Packed,
    /// Code obfuscated by junk.
    Desync,
    /// Code obfuscated semantically.
    Tigress,
    /// Interpreters.
    LegitVm,
}

impl Bucket {
    /// The name of a group.
    pub open spec fn spec_tag(self) -> Seq<char> {
        match self {
            Bucket::Benign => "benign"@,
            Bucket::Packed => "packed"@,
            Bucket::Desync => "desync"@,
            Bucket::Tigress => "tigress"@,
            Bucket::LegitVm => "legit_vm"@,
        }
    }

    /// The group at position `i`.
    pub open spec fn spec_at(i: int) -> Bucket {
        if i == 0 {
            Bucket::Benign
        } else if i == 1 {
            Bucket::Packed
        } else if i == 2 {
            Bucket::Desync
        } else if i == 3 {
            Bucket::Tigress
        } else {
            Bucket::LegitVm
        }
    }

    /// The name of a group.
    pub fn tag(self) -> (r: &'static str)
        ensures
            r@ == self.spec_tag(),
    {
        match self {
            Bucket::Benign => "benign",
            Bucket::Packed => "packed",
            Bucket::Desync => "desync",
            Bucket::Tigress => "tigress",
            Bucket::LegitVm => "legit_vm",
        }
    }

    /// The group at position `i`.
    pub fn at(i: usize) -> (r: Bucket)
        ensures
            r == Bucket::spec_at(i as int),
    {
        if i == 0 {
            Bucket::Benign
        } else if i == 1 {
            Bucket::Packed
        } else if i == 2 {
            Bucket::Desync
        } else if i == 3 {
            Bucket::Tigress
        } else {
            Bucket::LegitVm
        }
    }
}

/// The group of a binary.
pub open spec fn bucket_of(sublabel: Seq<char>, regime: Regime) -> Bucket {
    if begins_with(sublabel, "tig"@) {
        Bucket::Tigress
    } else if begins_with(sublabel, "vm"@) {
        Bucket::LegitVm
    } else {
        match regime {
            Regime::Benign => Bucket::Benign,
            Regime::Packed => Bucket::Packed,
            Regime::Obfuscated => Bucket::Desync,
        }
    }
}

/// The group of a binary.
pub fn group_of(sublabel: &str, regime: Regime) -> (r: Bucket)
    ensures
        r == bucket_of(sublabel@, regime),
{
    let label: Vec<char> = chars_of(sublabel);
    if chars_start_with(&label, &chars_of("tig")) {
        Bucket::Tigress
    } else if chars_start_with(&label, &chars_of("vm")) {
        Bucket::LegitVm
    } else {
        match regime {
            Regime::Benign => Bucket::Benign,
            Regime::Packed => Bucket::Packed,
            Regime::Obfuscated => Bucket::Desync,
        }
    }
}

/// The recovery of one binary under one arm and threshold.
#[derive(Debug)]
pub struct Recovery {
    /// Its regime.
    pub regime: Regime,
    /// The part of the corpus it belongs to.
    pub sublabel: String,
    /// The arm.
    pub arm: Arm,
    /// The threshold, by its key.
    pub tau: u64,
    /// The grade.
    pub grade: Grade,
}

/// Grades added up.
#[derive(Debug, Clone, Copy, PartialEq, Eq, Structural)]
pub struct Cell {
    /// Number of binaries.
    pub n_bins: u64,
    /// Recovered heads that are true.
    pub tp: u128,
    /// Recovered heads that are provably false.
    pub fp: u128,
    /// True heads that were not recovered.
    pub fn_: u128,
    /// Recovered heads.
    pub n_pred: u128,
    /// True heads.
    pub n_gt: u128,
    /// True heads that anything calls.
    pub n_reach: u128,
    /// Called addresses in data.
    pub n_window: u128,
    /// Recovered heads in data.
    pub win_pred: u128,
    /// Binaries of which nothing was recovered.
    pub n_empty: u64,
}

impl Cell {
    /// No binary yet.
    pub open spec fn none() -> Cell {
        Cell {
            n_bins: 0,
            tp: 0,
            fp: 0,
            fn_: 0,
            n_pred: 0,
            n_gt: 0,
            n_reach: 0,
            n_window: 0,
            win_pred: 0,
            n_empty: 0,
        }
    }

    /// With one more grade.
    pub open spec fn added(self, g: Grade) -> Cell {
        Cell {
            n_bins: (self.n_bins + 1) as u64,
            tp: (self.tp + g.tp) as u128,
            fp: (self.fp + g.fp) as u128,
            fn_: (self.fn_ + g.fn_) as u128,
            n_pred: (self.n_pred + g.n_pred) as u128,
            n_gt: (self.n_gt + g.n_gt) as u128,
            n_reach: (self.n_reach + g.n_reach) as u128,
            n_window: (self.n_window + g.n_window) as u128,
            win_pred: (self.win_pred + g.win_pred) as u128,
            n_empty: if g.n_pred == 0 {
                (self.n_empty + 1) as u64
            } else {
                self.n_empty
            },
        }
    }

    /// Whether the sums are those of at most `k` grades.
    pub open spec fn within(self, k: int) -> bool {
        &&& self.n_bins <= k
        &&& self.n_empty <= k
        &&& self.tp <= k * u64::MAX
        &&& self.fp <= k * u64::MAX
        &&& self.fn_ <= k * u64::MAX
        &&& self.n_pred <= k * u64::MAX
        &&& self.n_gt <= k * u64::MAX
        &&& self.n_reach <= k * u64::MAX
        &&& self.n_window <= k * u64::MAX
        &&& self.win_pred <= k * u64::MAX
    }

    /// Adds a grade.
    fn push(&mut self, g: &Grade, Ghost(k): Ghost<int>)
        requires
            old(self).within(k),
            0 <= k < u64::MAX,
        ensures
            *final(self) == old(self).added(*g),
            final(self).within(k + 1),
    {
        self.n_bins = self.n_bins + 1;
        self.tp = self.tp + g.tp as u128;
        self.fp = self.fp + g.fp as u128;
        self.fn_ = self.fn_ + g.fn_ as u128;
        self.n_pred = self.n_pred + g.n_pred as u128;
        self.n_gt = self.n_gt + g.n_gt as u128;
        self.n_reach = self.n_reach + g.n_reach as u128;
        self.n_window = self.n_window + g.n_window as u128;
        self.win_pred = self.win_pred + g.win_pred as u128;
        if g.n_pred == 0 {
            self.n_empty = self.n_empty + 1;
        }
    }
}

/// Whether a recovery belongs to a cell.
pub open spec fn in_cell(r: Recovery, b: Bucket, a: Arm, tau: u64) -> bool {
    bucket_of(r.sublabel@, r.regime) == b && r.arm == a && r.tau == tau
}

/// The cell of a group, an arm and a threshold, from the first `k` recoveries.
pub open spec fn cell_below(v: Seq<Recovery>, b: Bucket, a: Arm, tau: u64, k: int) -> Cell
    decreases k,
{
    if k <= 0 {
        Cell::none()
    } else if in_cell(v[k - 1], b, a, tau) {
        cell_below(v, b, a, tau, k - 1).added(v[k - 1].grade)
    } else {
        cell_below(v, b, a, tau, k - 1)
    }
}

/// A cell with its place.
#[derive(Debug, Clone, Copy, PartialEq, Eq, Structural)]
pub struct CellRow {
    /// The group.
    pub bucket: Bucket,
    /// The arm.
    pub arm: Arm,
    /// The threshold, by its key.
    pub tau: u64,
    /// The sums.
    pub cell: Cell,
}

fn fill_cell(v: &Vec<Recovery>, b: Bucket, a: Arm, tau: u64) -> (r: Cell)
    requires
        v@.len() <= u64::MAX,
    ensures
        r == cell_below(v@, b, a, tau, v@.len() as int),
        r.n_bins <= v@.len(),
{
    let mut c: Cell = Cell {
        n_bins: 0,
        tp: 0,
        fp: 0,
        fn_: 0,
        n_pred: 0,
        n_gt: 0,
        n_reach: 0,
        n_window: 0,
        win_pred: 0,
        n_empty: 0,
    };
    let n: usize = v.len();
    let mut k: usize = 0;
    while k < n
        invariant
            n == v@.len(),
            k <= n,
            c == cell_below(v@, b, a, tau, k as int),
            c.within(k as int),
        decreases n - k,
    {
        let r: &Recovery = &v[k];
        if group_of(r.sublabel.as_str(), r.regime) == b && r.arm == a && r.tau == tau {
            c.push(&r.grade, Ghost(k as int));
        }
        k += 1;
    }
    c
}

/// Whether the threshold at `t` did not come before.
pub open spec fn first_of(taus: Seq<u64>, t: int) -> bool {
    forall|j: int| 0 <= j < t ==> #[trigger] taus[j] != taus[t]
}

/// The cells at the first `i` places: by group, then arm, then threshold. Empty
/// cells are left out, and so is a threshold that came before.
pub open spec fn cells_below(v: Seq<Recovery>, taus: Seq<u64>, i: int) -> Seq<CellRow>
    decreases i,
{
    if i <= 0 {
        Seq::empty()
    } else {
        let before = cells_below(v, taus, i - 1);
        let n = taus.len() as int;
        let t = (i - 1) % n;
        let arm = Arm::spec_at(((i - 1) / n) % 4);
        let bucket = Bucket::spec_at((i - 1) / n / 4);
        let cell = cell_below(v, bucket, arm, taus[t], v.len() as int);
        if cell.n_bins > 0 && first_of(taus, t) {
            before.push(CellRow { bucket, arm, tau: taus[t], cell })
        } else {
            before
        }
    }
}

fn came_before(taus: &Vec<u64>, t: usize) -> (r: bool)
    requires
        t < taus@.len(),
    ensures
        r == !first_of(taus@, t as int),
{
    let mut j: usize = 0;
    while j < t
        invariant
            j <= t < taus@.len(),
            forall|i: int| 0 <= i < j ==> #[trigger] taus@[i] != taus@[t as int],
        decreases t - j,
    {
        if taus[j] == taus[t] {
            return true;
        }
        j += 1;
    }
    false
}

/// All cells, by group, then arm, then threshold.
pub fn summarize(v: &Vec<Recovery>, taus: &Vec<u64>) -> (r: Vec<CellRow>)
    requires
        20 * taus@.len() <= usize::MAX,
    ensures
        r@ == cells_below(v@, taus@, (20 * taus@.len()) as int),
{
    let n: usize = taus.len();
    let total: usize = n * 20;
    let len: usize = v.len();
    let mut out: Vec<CellRow> = Vec::new();
    let mut i: usize = 0;
    while i < total
        invariant
            n == taus@.len(),
            len == v@.len(),
            total == 20 * n,
            i <= total,
            out@ == cells_below(v@, taus@, i as int),
        decreases total - i,
    {
        let t: usize = i % n;
        let arm: Arm = Arm::at((i / n) % 4);
        let bucket: Bucket = Bucket::at(i / n / 4);
        let cell: Cell = fill_cell(v, bucket, arm, taus[t]);
        if cell.n_bins > 0 && !came_before(taus, t) {
            out.push(CellRow { bucket, arm, tau: taus[t], cell });
        }
        i += 1;
    }
    out
}

/// A share: `num` out of `den`.
#[derive(Debug, Clone, Copy, PartialEq, Eq, Structural)]
pub struct Share {
    /// How many.
    pub num: u128,
    /// Out of how many.
    pub den: u128,
}

/// The share of `num` in `den`, where there is anything to share.
pub open spec fn share_of(num: int, den: int) -> Option<Share> {
    if den == 0 {
        None
    } else {
        Some(Share { num: num as u128, den: den as u128 })
    }
}

/// The harmonic mean of precision and recall, where both are known.
pub open spec fn f1_of(tp: int, fp: int, known: int) -> Option<Share> {
    if tp + fp == 0 || known == 0 {
        None
    } else {
        Some(Share { num: (2 * tp) as u128, den: (tp + fp + known) as u128 })
    }
}

impl Cell {
    /// Whether the sums are small enough to be added up again.
    pub open spec fn summable(self) -> bool {
        2 * self.tp + self.fp + self.n_gt + self.n_reach <= u128::MAX
    }

    /// The share of the recovered heads that are true.
    pub fn micro_precision(&self) -> (r: Option<Share>)
        requires
            self.summable(),
        ensures
            r == share_of(self.tp as int, self.tp + self.fp),
    {
        if self.tp + self.fp == 0 {
            None
        } else {
            Some(Share { num: self.tp, den: self.tp + self.fp })
        }
    }

    /// The share of the true heads that were recovered.
    pub fn micro_recall(&self) -> (r: Option<Share>)
        ensures
            r == share_of(self.tp as int, self.n_gt as int),
    {
        if self.n_gt == 0 {
            None
        } else {
            Some(Share { num: self.tp, den: self.n_gt })
        }
    }

    /// The share of the true heads that anything calls that were recovered.
    pub fn micro_recall_reach(&self) -> (r: Option<Share>)
        ensures
            r == share_of(self.tp as int, self.n_reach as int),
    {
        if self.n_reach == 0 {
            None
        } else {
            Some(Share { num: self.tp, den: self.n_reach })
        }
    }

    /// The harmonic mean of precision and recall.
    pub fn micro_f1(&self) -> (r: Option<Share>)
        requires
            self.summable(),
        ensures
            r == f1_of(self.tp as int, self.fp as int, self.n_gt as int),
    {
        if self.tp + self.fp == 0 || self.n_gt == 0 {
            None
        } else {
            Some(Share { num: 2 * self.tp, den: self.tp + self.fp + self.n_gt })
        }
    }

    /// The harmonic mean of precision and recall among what anything calls.
    pub fn micro_f1_reach(&self) -> (r: Option<Share>)
        requires
            self.summable(),
        ensures
            r == f1_of(self.tp as int, self.fp as int, self.n_reach as int),
    {
        if self.tp + self.fp == 0 || self.n_reach == 0 {
            None
        } else {
            Some(Share { num: 2 * self.tp, den: self.tp + self.fp + self.n_reach })
        }
    }
}

/// The combined score is the harmonic mean: `f` times the sum of precision and
/// recall is twice their product, over common denominators.
pub proof fn law_f1_is_harmonic(tp: int, fp: int, known: int)
    requires
        0 <= tp,
        0 <= fp,
        0 < known,
        0 < tp + fp,
        2 * tp + fp + known <= u128::MAX,
    ensures
        f1_of(tp, fp, known) matches Some(f) && f.num * (tp * known + tp * (tp + fp)) == f.den * (2
            * tp * tp),
{
    assert((2 * tp) * (tp * known + tp * (tp + fp)) == (tp + fp + known) * (2 * tp * tp))
        by (nonlinear_arith);
}

/// What the detector made of a binary.
#[derive(Debug)]
pub struct Reading {
    /// Its regime.
    pub regime: Regime,
    /// The part of the corpus it belongs to.
    pub sublabel: String,
    /// Whether the mean surprise is above its threshold.
    pub glob_fires: bool,
    /// Whether the clustering is above its threshold.
    pub spat_fires: bool,
    /// What the rules picked.
    pub picks: Picks,
}

/// What the detector made of a group.
#[derive(Debug)]
pub struct Detect {
    /// The numbers of the binaries.
    pub members: Vec<usize>,
    /// How many have a mean surprise above its threshold.
    pub n_glob_fire: usize,
    /// How many have a clustering above its threshold.
    pub n_spat_fire: usize,
    /// How often the threshold rule was right.
    pub n_rule_correct: usize,
    /// How often the guarded rule was right.
    pub n_guard_correct: usize,
}

/// The binaries of a group among the first `k`.
pub open spec fn members_below(v: Seq<Reading>, b: Bucket, k: int) -> Seq<usize>
    decreases k,
{
    if k <= 0 {
        Seq::empty()
    } else if bucket_of(v[k - 1].sublabel@, v[k - 1].regime) == b {
        members_below(v, b, k - 1).push((k - 1) as usize)
    } else {
        members_below(v, b, k - 1)
    }
}

/// For how many of the first `k` members `f` holds.
pub open spec fn count_where(v: Seq<Reading>, at: Seq<usize>, f: spec_fn(Reading) -> bool, k: int) -> int
    decreases k,
{
    if k <= 0 {
        0
    } else {
        count_where(v, at, f, k - 1) + (if f(v[at[k - 1] as int]) {
            1int
        } else {
            0
        })
    }
}

/// Whether a binary has a mean surprise above its threshold.
pub open spec fn glob_fires() -> spec_fn(Reading) -> bool {
    |r: Reading| r.glob_fires
}

/// Whether a binary has a clustering above its threshold.
pub open spec fn spat_fires() -> spec_fn(Reading) -> bool {
    |r: Reading| r.spat_fires
}

/// Whether the threshold rule is right.
pub open spec fn rule_is_right() -> spec_fn(Reading) -> bool {
    |r: Reading| r.picks.rule == r.regime
}

/// Whether the guarded rule is right.
pub open spec fn guard_is_right() -> spec_fn(Reading) -> bool {
    |r: Reading| r.picks.guard == r.regime
}

impl Detect {
    /// Whether this is what the detector made of a group.
    pub open spec fn is_detect(self, v: Seq<Reading>, b: Bucket) -> bool {
        let at = self.members@;
        let n = at.len() as int;
        &&& at == members_below(v, b, v.len() as int)
        &&& self.n_glob_fire == count_where(v, at, glob_fires(), n)
        &&& self.n_spat_fire == count_where(v, at, spat_fires(), n)
        &&& self.n_rule_correct == count_where(v, at, rule_is_right(), n)
        &&& self.n_guard_correct == count_where(v, at, guard_is_right(), n)
    }
}

/// What the detector made of a group.
pub fn detect(v: &Vec<Reading>, b: Bucket) -> (r: Detect)
    ensures
        r.is_detect(v@, b),
{
    let mut members: Vec<usize> = Vec::new();
    let mut k: usize = 0;
    while k < v.len()
        invariant
            k <= v@.len(),
            members@ == members_below(v@, b, k as int),
            forall|j: int| 0 <= j < members@.len() ==> #[trigger] members@[j] < k,
        decreases v@.len() - k,
    {
        if group_of(v[k].sublabel.as_str(), v[k].regime) == b {
            members.push(k);
        }
        k += 1;
    }
    let mut glob: usize = 0;
    let mut spat: usize = 0;
    let mut rule: usize = 0;
    let mut guard: usize = 0;
    let mut j: usize = 0;
    while j < members.len()
        invariant
            j <= members@.len(),
            forall|i: int| 0 <= i < members@.len() ==> #[trigger] members@[i] < v@.len(),
            glob == count_where(v@, members@, glob_fires(), j as int),
            spat == count_where(v@, members@, spat_fires(), j as int),
            rule == count_where(v@, members@, rule_is_right(), j as int),
            guard == count_where(v@, members@, guard_is_right(), j as int),
            glob <= j,
            spat <= j,
            rule <= j,
            guard <= j,
        decreases members@.len() - j,
    {
        let r: &Reading = &v[members[j]];
        if r.glob_fires {
            glob += 1;
        }
        if r.spat_fires {
            spat += 1;
        }
        if r.picks.rule == r.regime {
            rule += 1;
        }
        if r.picks.guard == r.regime {
            guard += 1;
        }
        j += 1;
    }
    Detect {
        members,
        n_glob_fire: glob,
        n_spat_fire: spat,
        n_rule_correct: rule,
        n_guard_correct: guard,
    }
}

// ── Text forms ─────────────────────────────────────────────────────────────

/// Whether a line names a head: it is not blank and no comment.
pub open spec fn names_head(line: Seq<char>) -> bool {
    let t = trimmed(line);
    t.len() > 0 && t[0] != '#'
}

/// The first line, counted from `k`, that names a head by something other than a
/// hexadecimal number.
pub open spec fn first_bad_head(v: Seq<Seq<char>>, k: int) -> Option<int>
    decreases v.len() - k,
{
    if k >= v.len() {
        None
    } else if names_head(v[k]) && hex_word(v[k]) is None {
        Some(k)
    } else {
        first_bad_head(v, k + 1)
    }
}

/// Whether one of the first `k` lines names the head `a`.
pub open spec fn head_named(v: Seq<Seq<char>>, a: u64, k: int) -> bool {
    exists|i: int| 0 <= i < k && names_head(#[trigger] v[i]) && hex_word(v[i]) == Some(a)
}

/// The heads in `[lo, hi)` that a text names; or the number of the first line
/// that names none.
pub fn load_boundary_gt(text: &str, lo: u64, hi: u64) -> (r: Result<BTreeSet<u64>, usize>)
    ensures
        match r {
            Ok(set) => first_bad_head(lines(text@), 0) is None && forall|a: u64| #[trigger]
                set@.contains(a) <==> lo <= a < hi && head_named(
                    lines(text@),
                    a,
                    lines(text@).len() as int,
                ),
            Err(k) => first_bad_head(lines(text@), 0) == Some(k as int),
        },
{
    let rows: Vec<Vec<char>> = split_lines(&chars_of(text));
    let ghost v = lines(text@);
    let mut set: BTreeSet<u64> = BTreeSet::new();
    let mut k: usize = 0;
    proof {
        assert(texts(rows@).len() == rows@.len());
    }
    while k < rows.len()
        invariant
            k <= rows@.len(),
            texts(rows@) == v,
            rows@.len() == v.len(),
            v == lines(text@),
            first_bad_head(v, 0) == first_bad_head(v, k as int),
            forall|a: u64| #[trigger]
                set@.contains(a) <==> lo <= a < hi && head_named(v, a, k as int),
        decreases rows@.len() - k,
    {
        let line: &Vec<char> = &rows[k];
        proof {
            assert(texts(rows@)[k as int] == line@);
        }
        let t: Vec<char> = trim(line);
        let ghost before = set@;
        if t.len() > 0 && t[0] != '#' {
            match parse_hex_word(line) {
                None => {
                    return Err(k);
                },
                Some(a) => {
                    if lo <= a && a < hi {
                        set.insert(a);
                    }
                },
            }
        }
        proof {
            assert forall|a: u64| #[trigger] set@.contains(a) <==> lo <= a < hi && head_named(
                v,
                a,
                k + 1,
            ) by {
                assert(before.contains(a) <==> lo <= a < hi && head_named(v, a, k as int));
                if head_named(v, a, k as int) {
                    let i = choose|i: int|
                        0 <= i < k && names_head(#[trigger] v[i]) && hex_word(v[i]) == Some(a);
                    assert(names_head(v[i]));
                }
                if names_head(v[k as int]) && hex_word(v[k as int]) == Some(a) {
                    assert(head_named(v, a, k + 1));
                }
            }
        }
        k += 1;
    }
    Ok(set)
}

/// The key of a tested binary.
pub open spec fn row_key(name: Seq<char>, sublabel: Seq<char>) -> Seq<char> {
    name + seq!['|'] + sublabel
}

/// The keys of the first `k` rows that have a name and a label.
pub open spec fn keys_below(rows: Seq<Seq<Seq<char>>>, k: int) -> Seq<Seq<char>>
    decreases k,
{
    if k <= 0 {
        Seq::empty()
    } else if rows[k - 1].len() >= 3 {
        keys_below(rows, k - 1).push(row_key(rows[k - 1][0], rows[k - 1][2]))
    } else {
        keys_below(rows, k - 1)
    }
}

/// The key of a tested binary.
pub fn key_of(name: &str, sublabel: &str) -> (r: String)
    ensures
        r@ == row_key(name@, sublabel@),
{
    let mut out: Vec<char> = chars_of(name);
    out.push('|');
    push_text(&mut out, sublabel);
    proof {
        assert(out@ =~= row_key(name@, sublabel@));
    }
    string_of(&out)
}

/// The keys of the binaries that a table holds already.
pub fn read_done_keys(text: &str) -> (r: Vec<String>)
    ensures
        strings(r@) == keys_below(rows_from(text@, 1), rows_from(text@, 1).len() as int),
{
    let rows: Vec<Vec<String>> = read_rows(text);
    let ghost v = rows_from(text@, 1);
    let mut out: Vec<String> = Vec::new();
    let mut k: usize = 0;
    proof {
        assert(cell_texts(rows@).len() == rows@.len());
        assert(strings(out@) =~= Seq::empty());
    }
    while k < rows.len()
        invariant
            k <= rows@.len(),
            cell_texts(rows@) == v,
            rows@.len() == v.len(),
            strings(out@) == keys_below(v, k as int),
        decreases rows@.len() - k,
    {
        let row: &Vec<String> = &rows[k];
        proof {
            assert(cell_texts(rows@)[k as int] == strings(row@));
            assert(strings(row@).len() == row@.len());
        }
        if row.len() >= 3 {
            let ghost before = out@;
            proof {
                assert(strings(row@)[0] == row@[0]@);
                assert(strings(row@)[2] == row@[2]@);
            }
            out.push(key_of(row[0].as_str(), row[2].as_str()));
            proof {
                assert(strings(out@) =~= strings(before).push(row_key(row@[0]@, row@[2]@)));
            }
        }
        k += 1;
    }
    out
}

/// A recovery as a table holds it; the threshold is kept as text.
#[derive(Debug)]
pub struct RecoveryRow {
    /// Name of the binary.
    pub name: String,
    /// Its regime.
    pub regime: Regime,
    /// The part of the corpus it belongs to.
    pub sublabel: String,
    /// The arm.
    pub arm: Arm,
    /// The regime whose calibration it used.
    pub pick: Regime,
    /// The threshold.
    pub tau: String,
    /// The grade.
    pub grade: Grade,
}

/// The contents of a [`RecoveryRow`].
pub struct RecoveryRowView {
    /// Name of the binary.
    pub name: Seq<char>,
    /// Its regime.
    pub regime: Regime,
    /// The part of the corpus it belongs to.
    pub sublabel: Seq<char>,
    /// The arm.
    pub arm: Arm,
    /// The regime whose calibration it used.
    pub pick: Regime,
    /// The threshold.
    pub tau: Seq<char>,
    /// The grade.
    pub grade: Grade,
}

impl View for RecoveryRow {
    type V = RecoveryRowView;

    open spec fn view(&self) -> RecoveryRowView {
        RecoveryRowView {
            name: self.name@,
            regime: self.regime,
            sublabel: self.sublabel@,
            arm: self.arm,
            pick: self.pick,
            tau: self.tau@,
            grade: self.grade,
        }
    }
}

/// The grade in the cells from the seventh on.
pub open spec fn grade_cells(c: Seq<Seq<char>>) -> Option<Grade> {
    match (
        cell_number(c[6]),
        cell_number(c[7]),
        cell_number(c[8]),
        cell_number(c[9]),
        cell_number(c[10]),
        cell_number(c[11]),
        cell_number(c[12]),
        cell_number(c[13]),
    ) {
        (
            Some(n_gt),
            Some(n_reach),
            Some(n_pred),
            Some(tp),
            Some(fp),
            Some(fn_),
            Some(n_window),
            Some(win_pred),
        ) => Some(Grade { n_gt, n_reach, n_pred, tp, fp, fn_, n_window, win_pred }),
        _ => None,
    }
}

/// The recovery in the cells of a row, where they hold one.
pub open spec fn recovery_in(c: Seq<Seq<char>>) -> Option<RecoveryRowView> {
    if c.len() < 14 {
        None
    } else {
        match (regime_tagged(c[1]), regime_tagged(c[4]), arm_tagged(c[3]), grade_cells(c)) {
            (Some(regime), Some(pick), Some(arm), Some(grade)) => Some(
                RecoveryRowView {
                    name: c[0],
                    regime,
                    sublabel: c[2],
                    arm,
                    pick,
                    tau: c[5],
                    grade,
                },
            ),
            _ => None,
        }
    }
}

/// The recoveries in the first `k` rows.
pub open spec fn recoveries_below(rows: Seq<Seq<Seq<char>>>, k: int) -> Seq<RecoveryRowView>
    decreases k,
{
    if k <= 0 {
        Seq::empty()
    } else {
        match recovery_in(rows[k - 1]) {
            Some(r) => recoveries_below(rows, k - 1).push(r),
            None => recoveries_below(rows, k - 1),
        }
    }
}

/// The contents of a list of rows.
pub open spec fn recovery_views(v: Seq<RecoveryRow>) -> Seq<RecoveryRowView> {
    v.map_values(|r: RecoveryRow| r@)
}

fn read_grade(row: &Vec<String>) -> (r: Option<Grade>)
    requires
        row@.len() >= 14,
    ensures
        r == grade_cells(strings(row@)),
{
    proof {
        assert forall|k: int| 0 <= k < row@.len() implies #[trigger] strings(row@)[k]
            == row@[k]@ by {}
    }
    match (
        parse_cell(row[6].as_str()),
        parse_cell(row[7].as_str()),
        parse_cell(row[8].as_str()),
        parse_cell(row[9].as_str()),
        parse_cell(row[10].as_str()),
        parse_cell(row[11].as_str()),
        parse_cell(row[12].as_str()),
        parse_cell(row[13].as_str()),
    ) {
        (
            Some(n_gt),
            Some(n_reach),
            Some(n_pred),
            Some(tp),
            Some(fp),
            Some(fn_),
            Some(n_window),
            Some(win_pred),
        ) => Some(Grade { n_gt, n_reach, n_pred, tp, fp, fn_, n_window, win_pred }),
        _ => None,
    }
}

fn read_recovery(row: &Vec<String>) -> (r: Option<RecoveryRow>)
    ensures
        match r {
            Some(x) => recovery_in(strings(row@)) == Some(x@),
            None => recovery_in(strings(row@)) is None,
        },
{
    proof {
        assert(strings(row@).len() == row@.len());
        assert forall|k: int| 0 <= k < row@.len() implies #[trigger] strings(row@)[k]
            == row@[k]@ by {}
    }
    if row.len() < 14 {
        return None;
    }
    match (
        parse_regime(row[1].as_str()),
        parse_regime(row[4].as_str()),
        parse_arm(row[3].as_str()),
        read_grade(row),
    ) {
        (Some(regime), Some(pick), Some(arm), Some(grade)) => Some(
            RecoveryRow {
                name: row[0].clone(),
                regime,
                sublabel: row[2].clone(),
                arm,
                pick,
                tau: row[5].clone(),
                grade,
            },
        ),
        _ => None,
    }
}

/// The recoveries that a table holds already. Rows that hold none are skipped.
#[verifier::rlimit(60)]
#[verifier::spinoff_prover]
pub fn read_existing_recoveries(text: &str) -> (r: Vec<RecoveryRow>)
    ensures
        recovery_views(r@) == recoveries_below(
            rows_from(text@, 1),
            rows_from(text@, 1).len() as int,
        ),
{
    let rows: Vec<Vec<String>> = read_rows(text);
    let ghost v = rows_from(text@, 1);
    let mut out: Vec<RecoveryRow> = Vec::new();
    let mut k: usize = 0;
    proof {
        assert(cell_texts(rows@).len() == rows@.len());
        assert(recovery_views(out@) =~= Seq::empty());
    }
    while k < rows.len()
        invariant
            k <= rows@.len(),
            cell_texts(rows@) == v,
            rows@.len() == v.len(),
            recovery_views(out@) == recoveries_below(v, k as int),
        decreases rows@.len() - k,
    {
        proof {
            assert(cell_texts(rows@)[k as int] == strings(rows@[k as int]@));
        }
        if let Some(x) = read_recovery(&rows[k]) {
            let ghost before = out@;
            out.push(x);
            proof {
                assert(recovery_views(out@) =~= recovery_views(before).push(x@));
            }
        }
        k += 1;
    }
    out
}

// ── What is recovered, and how it is told ──────────────────────────────────

/// The stale arm never switches; the others use the threshold rule, the guarded rule and
/// the truth, in that order.
pub proof fn law_arms_pick_their_own(p: Picks)
    ensures
        Arm::spec_at(0).spec_pick(p) == p.always_benign,
        Arm::spec_at(1).spec_pick(p) == p.rule,
        Arm::spec_at(2).spec_pick(p) == p.guard,
        Arm::spec_at(3).spec_pick(p) == p.oracle,
{
}

/// The calls listed are those at an offset whose instruction calls (group 2) an address
/// of the region.
pub proof fn law_listed_calls_are_calls(s: Superset, e: (u64, u64))
    ensures
        calls_below(s, s.spec_len()).contains(e) <==> exists|o: int|
            0 <= o < s.instructions@.len() && (#[trigger] s.instructions@[o] matches Some(i)
                && i.groups@.contains(2u8) && i.address == e.0 && i.branch_target == Some(e.1)
                && s.base_addr <= e.1 < s.base_addr + s.bytes@.len()),
{
    let n = s.spec_len();
    law_calls_are_listed(s, n, e);
    if calls_below(s, n).contains(e) {
        let o = choose|o: int| 0 <= o < n && #[trigger] is_call_edge(s, o, e);
        law_kinds_are_groups(s.insn(o));
        assert(s.instructions@[o] is Some);
    }
    if exists|o: int|
        0 <= o < s.instructions@.len() && (#[trigger] s.instructions@[o] matches Some(i)
            && i.groups@.contains(2u8) && i.address == e.0 && i.branch_target == Some(e.1)
            && s.base_addr <= e.1 < s.base_addr + s.bytes@.len()) {
        let o = choose|o: int|
            0 <= o < s.instructions@.len() && (#[trigger] s.instructions@[o] matches Some(i)
                && i.groups@.contains(2u8) && i.address == e.0 && i.branch_target == Some(e.1)
                && s.base_addr <= e.1 < s.base_addr + s.bytes@.len());
        law_kinds_are_groups(s.insn(o));
        assert(is_call_edge(s, o, e));
    }
}

/// A head is recovered exactly where a call leads to it and both the caller and the head
/// are sure.
pub proof fn law_sure_calls_recover(edges: Seq<(u64, u64)>, sure: Set<u64>, k: int)
    requires
        0 <= k < edges.len(),
    ensures
        sure.contains(edges[k].0) && sure.contains(edges[k].1) ==> is_recovered(
            edges,
            sure,
            edges[k].1,
        ),
        is_recovered(edges, sure, edges[k].1) ==> sure.contains(edges[k].1) && exists|j: int|
            0 <= j < edges.len() && sure.contains((#[trigger] edges[j]).0) && edges[j].1
                == edges[k].1,
        is_target(edges, edges[k].1),
{
}

/// A grade against known heads counts what is found, missed and false; one against data
/// counts every head in the data as false.
pub proof fn law_grades(g: Grade, pred: Set<u64>, called: Set<u64>, truth: HeadTruth)
    requires
        g.is_grade(pred, called, truth),
    ensures
        g.n_pred == pred.len(),
        truth matches HeadTruth::Heads(h) ==> {
            &&& g.tp == pred.filter(|a: u64| h@.contains(a)).len()
            &&& g.n_reach == called.filter(|a: u64| h@.contains(a)).len()
            &&& g.fp == pred.len() - g.tp
            &&& g.fn_ == h@.len() - g.tp
            &&& g.n_gt == h@.len()
            &&& g.n_window == 0 && g.win_pred == 0
        },
        truth matches HeadTruth::Data(lo, hi) ==> {
            &&& g.fp == pred.filter(|a: u64| lo <= a < hi).len()
            &&& g.win_pred == g.fp
            &&& g.n_window == called.filter(|a: u64| lo <= a < hi).len()
            &&& g.tp == 0 && g.fn_ == 0 && g.n_gt == 0 && g.n_reach == 0
        },
{
    match truth {
        HeadTruth::Heads(h) => {
            assert(pred.filter(|a: u64| h@.contains(a)) =~= pred.intersect(h@));
            assert(called.filter(|a: u64| h@.contains(a)) =~= called.intersect(h@));
        },
        HeadTruth::Data(lo, hi) => {
            assert(pred.filter(|a: u64| lo <= a < hi) =~= pred.intersect(window(lo, hi)));
            assert(called.filter(|a: u64| lo <= a < hi) =~= called.intersect(window(lo, hi)));
        },
    }
}

/// The name of a variant that begins with `tig` or `vm` puts a binary in a group of its
/// own; the others go by regime.
pub proof fn law_groups_by_name(sublabel: Seq<char>, regime: Regime)
    ensures
        ({
            let tig = sublabel.len() >= 3 && sublabel[0] == 't' && sublabel[1] == 'i' && sublabel[2]
                == 'g';
            let vm = sublabel.len() >= 2 && sublabel[0] == 'v' && sublabel[1] == 'm';
            let b = bucket_of(sublabel, regime);
            &&& b == Bucket::Tigress <==> tig
            &&& b == Bucket::LegitVm <==> vm
            &&& b == Bucket::Benign <==> !tig && !vm && regime == Regime::Benign
            &&& b == Bucket::Packed <==> !tig && !vm && regime == Regime::Packed
            &&& b == Bucket::Desync <==> !tig && !vm && regime == Regime::Obfuscated
        }),
{
    reveal_strlit("tig");
    reveal_strlit("vm");
    if sublabel.len() >= 3 {
        let t = sublabel.take(3);
        assert(t[0] == sublabel[0] && t[1] == sublabel[1] && t[2] == sublabel[2]);
        if sublabel[0] == 't' && sublabel[1] == 'i' && sublabel[2] == 'g' {
            assert(t =~= "tig"@);
        }
    }
    if sublabel.len() >= 2 {
        let t = sublabel.take(2);
        assert(t[0] == sublabel[0] && t[1] == sublabel[1]);
        if sublabel[0] == 'v' && sublabel[1] == 'm' {
            assert(t =~= "vm"@);
        }
    }
}

proof fn lemma_cell_prefix(v: Seq<Recovery>, r: Recovery, b: Bucket, a: Arm, tau: u64, k: int)
    requires
        0 <= k <= v.len(),
    ensures
        cell_below(v.push(r), b, a, tau, k) == cell_below(v, b, a, tau, k),
    decreases k,
{
    if k > 0 {
        lemma_cell_prefix(v, r, b, a, tau, k - 1);
        assert(v.push(r)[k - 1] == v[k - 1]);
    }
}

proof fn lemma_cell_within(v: Seq<Recovery>, b: Bucket, a: Arm, tau: u64, k: int)
    requires
        0 <= k <= v.len() <= u64::MAX,
    ensures
        cell_below(v, b, a, tau, k).within(k),
    decreases k,
{
    if k > 0 {
        lemma_cell_within(v, b, a, tau, k - 1);
        let m = u64::MAX as int;
        assert(k * m == (k - 1) * m + m) by (nonlinear_arith);
        assert(k * m <= m * m) by (nonlinear_arith)
            requires
                0 <= k <= m,
        ;
    }
}

/// One more recovery adds its figures to the cell of its group, arm and threshold, and
/// to no other.
pub proof fn law_cells_add_up(v: Seq<Recovery>, r: Recovery, b: Bucket, a: Arm, tau: u64)
    requires
        v.len() < u64::MAX,
    ensures
        ({
            let before = cell_below(v, b, a, tau, v.len() as int);
            let now = cell_below(v.push(r), b, a, tau, v.len() + 1int);
            let g = r.grade;
            if bucket_of(r.sublabel@, r.regime) == b && r.arm == a && r.tau == tau {
                &&& now.n_bins == before.n_bins + 1
                &&& now.tp == before.tp + g.tp
                &&& now.fp == before.fp + g.fp
                &&& now.fn_ == before.fn_ + g.fn_
                &&& now.n_pred == before.n_pred + g.n_pred
                &&& now.n_gt == before.n_gt + g.n_gt
                &&& now.n_reach == before.n_reach + g.n_reach
                &&& now.n_window == before.n_window + g.n_window
                &&& now.win_pred == before.win_pred + g.win_pred
                &&& now.n_empty == before.n_empty + (if g.n_pred == 0 {
                    1int
                } else {
                    0
                })
            } else {
                now == before
            }
        }),
        cell_below(Seq::empty(), b, a, tau, 0).n_bins == 0,
        cell_below(Seq::empty(), b, a, tau, 0).tp == 0,
{
    lemma_cell_prefix(v, r, b, a, tau, v.len() as int);
    lemma_cell_within(v, b, a, tau, v.len() as int);
    let k = v.len() as int;
    let m = u64::MAX as int;
    assert(k * m + m <= m * m) by (nonlinear_arith)
        requires
            0 <= k < m,
    ;
    assert(m * m <= u128::MAX) by (nonlinear_arith)
        requires
            m == 0xffff_ffff_ffff_ffff,
    ;
}

proof fn lemma_cells(v: Seq<Recovery>, taus: Seq<u64>, i: int, row: CellRow)
    requires
        0 <= i,
        taus.len() > 0,
    ensures
        cells_below(v, taus, i).contains(row) <==> exists|j: int|
            0 <= j < i && #[trigger] is_row_at(v, taus, j, row),
    decreases i,
{
    if i > 0 {
        lemma_cells(v, taus, i - 1, row);
        let before = cells_below(v, taus, i - 1);
        let n = taus.len() as int;
        let t = (i - 1) % n;
        let arm = Arm::spec_at(((i - 1) / n) % 4);
        let bucket = Bucket::spec_at((i - 1) / n / 4);
        let cell = cell_below(v, bucket, arm, taus[t], v.len() as int);
        let x = CellRow { bucket, arm, tau: taus[t], cell };
        vstd::seq_lib::lemma_seq_contains_after_push(before, x, row);
        assert(is_row_at(v, taus, i - 1, row) <==> cell.n_bins > 0 && first_of(taus, t) && row
            == x);
    }
}

/// Whether `row` is the row at place `j`.
spec fn is_row_at(v: Seq<Recovery>, taus: Seq<u64>, j: int, row: CellRow) -> bool {
    let n = taus.len() as int;
    &&& first_of(taus, j % n)
    &&& row.tau == taus[j % n]
    &&& row.arm == Arm::spec_at((j / n) % 4)
    &&& row.bucket == Bucket::spec_at(j / n / 4)
    &&& row.cell == cell_below(v, row.bucket, row.arm, row.tau, v.len() as int)
    &&& row.cell.n_bins > 0
}

/// The summary has a row for every group, arm and threshold that has any recovery, with
/// its cell, and no other row.
pub proof fn law_summary_has_every_cell(
    v: Seq<Recovery>,
    taus: Seq<u64>,
    b: Bucket,
    a: Arm,
    t: int,
    row: CellRow,
)
    requires
        0 <= t < taus.len(),
    ensures
        ({
            let rows = cells_below(v, taus, (20 * taus.len()) as int);
            let cell = cell_below(v, b, a, taus[t], v.len() as int);
            &&& cell.n_bins > 0 ==> rows.contains(
                CellRow { bucket: b, arm: a, tau: taus[t], cell },
            )
            &&& rows.contains(row) ==> taus.contains(row.tau) && row.cell.n_bins > 0 && row.cell
                == cell_below(v, row.bucket, row.arm, row.tau, v.len() as int)
        }),
{
    let n = taus.len() as int;
    let cell = cell_below(v, b, a, taus[t], v.len() as int);
    lemma_cells(v, taus, 20 * n, row);
    if cells_below(v, taus, 20 * n).contains(row) {
        let j = choose|j: int| 0 <= j < 20 * n && #[trigger] is_row_at(v, taus, j, row);
        assert(0 <= j % n < n) by (nonlinear_arith)
            requires
                n > 0,
        ;
        assert(taus[j % n] == row.tau);
    }
    if cell.n_bins > 0 {
        let x = CellRow { bucket: b, arm: a, tau: taus[t], cell };
        lemma_cells(v, taus, 20 * n, x);
        let f = first_place(taus, t);
        lemma_first_place(taus, t);
        let bi: int = match b {
            Bucket::Benign => 0,
            Bucket::Packed => 1,
            Bucket::Desync => 2,
            Bucket::Tigress => 3,
            Bucket::LegitVm => 4,
        };
        let ai: int = match a {
            Arm::Stale => 0,
            Arm::SwitchRule => 1,
            Arm::SwitchGuard => 2,
            Arm::Oracle => 3,
        };
        let m = 4 * bi + ai;
        let j = m * n + f;
        vstd::arithmetic::div_mod::lemma_fundamental_div_mod_converse(j, n, m, f);
        assert(m / 4 == bi && m % 4 == ai);
        assert(0 <= j < 20 * n) by (nonlinear_arith)
            requires
                0 <= m < 20,
                0 <= f < n,
                j == m * n + f,
        ;
        assert(is_row_at(v, taus, j, x));
    }
}

/// The first place of the threshold at `t`.
spec fn first_place(taus: Seq<u64>, t: int) -> int
    decreases t,
{
    if t <= 0 || first_of(taus, t) {
        t
    } else {
        let j = choose|j: int| 0 <= j < t && #[trigger] taus[j] == taus[t];
        if 0 <= j < t {
            first_place(taus, j)
        } else {
            t
        }
    }
}

proof fn lemma_first_place(taus: Seq<u64>, t: int)
    requires
        0 <= t < taus.len(),
    ensures
        0 <= first_place(taus, t) <= t,
        first_of(taus, first_place(taus, t)),
        taus[first_place(taus, t)] == taus[t],
    decreases t,
{
    if t > 0 && !first_of(taus, t) {
        let j = choose|j: int| 0 <= j < t && #[trigger] taus[j] == taus[t];
        lemma_first_place(taus, j);
    }
}

/// A share is what it is of: where there is anything to share, its parts are to each
/// other as the numbers are.
pub proof fn law_shares(num: int, den: int)
    requires
        0 <= num <= u128::MAX,
        0 <= den <= u128::MAX,
    ensures
        share_of(num, den) is None <==> den == 0,
        share_of(num, den) matches Some(s) ==> s.den > 0 && s.num * den == num * s.den,
{
}

proof fn lemma_members(v: Seq<Reading>, b: Bucket, k: int)
    requires
        0 <= k <= v.len() <= usize::MAX,
    ensures
        forall|i: usize| #[trigger]
            members_below(v, b, k).contains(i) <==> i < k && bucket_of(
                v[i as int].sublabel@,
                v[i as int].regime,
            ) == b,
        forall|i: int, j: int|
            0 <= i < j < members_below(v, b, k).len() ==> members_below(v, b, k)[i]
                < members_below(v, b, k)[j],
    decreases k,
{
    if k > 0 {
        lemma_members(v, b, k - 1);
        let before = members_below(v, b, k - 1);
        let now = members_below(v, b, k);
        assert forall|i: usize| #[trigger] now.contains(i) <==> i < k && bucket_of(
            v[i as int].sublabel@,
            v[i as int].regime,
        ) == b by {
            vstd::seq_lib::lemma_seq_contains_after_push(before, (k - 1) as usize, i);
            assert(before.contains(i) <==> i < k - 1 && bucket_of(
                v[i as int].sublabel@,
                v[i as int].regime,
            ) == b);
        }
        assert forall|i: int, j: int| 0 <= i < j < now.len() implies now[i] < now[j] by {
            if now.len() > before.len() && i < before.len() {
                assert(before.contains(before[i]));
            }
        }
    }
}

proof fn lemma_count_where(
    v: Seq<Reading>,
    at: Seq<usize>,
    f: spec_fn(Reading) -> bool,
    k: int,
)
    requires
        0 <= k <= at.len(),
    ensures
        count_where(v, at, f, k) == at.take(k).filter(|i: usize| f(v[i as int])).len(),
    decreases k,
{
    reveal(Seq::filter);
    if k > 0 {
        lemma_count_where(v, at, f, k - 1);
        assert(at.take(k).drop_last() =~= at.take(k - 1));
        assert(at.take(k).last() == at[k - 1]);
    } else {
        assert(at.take(k) =~= Seq::empty());
    }
}

/// What the detector made of a group: its members in order, and of them those whose
/// statistics fire and those whose regime each rule finds.
pub proof fn law_detector_of_a_group(d: Detect, v: Seq<Reading>, b: Bucket, i: usize)
    requires
        d.is_detect(v, b),
        i < v.len() <= usize::MAX,
    ensures
        d.members@.contains(i) <==> bucket_of(v[i as int].sublabel@, v[i as int].regime) == b,
        forall|x: int, y: int| 0 <= x < y < d.members@.len() ==> d.members@[x] < d.members@[y],
        d.n_glob_fire == d.members@.filter(|k: usize| v[k as int].glob_fires).len(),
        d.n_spat_fire == d.members@.filter(|k: usize| v[k as int].spat_fires).len(),
        d.n_rule_correct == d.members@.filter(
            |k: usize| v[k as int].picks.rule == v[k as int].regime,
        ).len(),
        d.n_guard_correct == d.members@.filter(
            |k: usize| v[k as int].picks.guard == v[k as int].regime,
        ).len(),
{
    let at = d.members@;
    let n = at.len() as int;
    lemma_members(v, b, v.len() as int);
    assert(at.take(n) =~= at);
    lemma_count_where(v, at, glob_fires(), n);
    lemma_count_where(v, at, spat_fires(), n);
    lemma_count_where(v, at, rule_is_right(), n);
    lemma_count_where(v, at, guard_is_right(), n);
    assert((|k: usize| v[k as int].glob_fires) =~= (|k: usize| glob_fires()(v[k as int])));
    assert((|k: usize| v[k as int].spat_fires) =~= (|k: usize| spat_fires()(v[k as int])));
    assert((|k: usize| v[k as int].picks.rule == v[k as int].regime) =~= (|k: usize|
        rule_is_right()(v[k as int])));
    assert((|k: usize| v[k as int].picks.guard == v[k as int].regime) =~= (|k: usize|
        guard_is_right()(v[k as int])));
}

proof fn lemma_first_bad(v: Seq<Seq<char>>, k: int)
    requires
        0 <= k <= v.len(),
    ensures
        match first_bad_head(v, k) {
            Some(i) => k <= i < v.len() && names_head(v[i]) && hex_word(v[i]) is None && forall|
                j: int,
            |
                k <= j < i ==> !(names_head(#[trigger] v[j]) && hex_word(v[j]) is None),
            None => forall|j: int|
                k <= j < v.len() ==> !(names_head(#[trigger] v[j]) && hex_word(v[j]) is None),
        },
    decreases v.len() - k,
{
    if k < v.len() && !(names_head(v[k]) && hex_word(v[k]) is None) {
        lemma_first_bad(v, k + 1);
    }
}

/// Blank lines and lines that begin with a number sign name no head; of the others the
/// first that is no hexadecimal number is at fault.
pub proof fn law_bad_heads(v: Seq<Seq<char>>, i: int)
    requires
        0 <= i < v.len(),
    ensures
        trimmed(v[i]).len() == 0 ==> !names_head(v[i]),
        trimmed(v[i]).len() > 0 ==> (names_head(v[i]) <==> trimmed(v[i])[0] != '#'),
        names_head(v[i]) && hex_word(v[i]) is None ==> (first_bad_head(v, 0) matches Some(k) && k
            <= i),
        first_bad_head(v, 0) == Some(i) ==> names_head(v[i]) && hex_word(v[i]) is None,
{
    lemma_first_bad(v, 0);
    if first_bad_head(v, 0) is None {
        assert(!(names_head(v[i]) && hex_word(v[i]) is None));
    }
}

proof fn lemma_keys(rows: Seq<Seq<Seq<char>>>, k: int, key: Seq<char>)
    requires
        0 <= k <= rows.len(),
    ensures
        keys_below(rows, k).contains(key) <==> exists|j: int|
            0 <= j < k && (#[trigger] rows[j]).len() >= 3 && key == rows[j][0] + seq!['|']
                + rows[j][2],
    decreases k,
{
    if k > 0 {
        lemma_keys(rows, k - 1, key);
        vstd::seq_lib::lemma_seq_contains_after_push(
            keys_below(rows, k - 1),
            row_key(rows[k - 1][0], rows[k - 1][2]),
            key,
        );
    }
}

/// A binary is done where a row with its name and its variant stands in the table.
pub proof fn law_done_keys(rows: Seq<Seq<Seq<char>>>, name: Seq<char>, sublabel: Seq<char>, k: int)
    ensures
        0 <= k < rows.len() && rows[k].len() >= 3 && rows[k][0] == name && rows[k][2] == sublabel
            ==> keys_below(rows, rows.len() as int).contains(row_key(name, sublabel)),
        keys_below(rows, rows.len() as int).contains(row_key(name, sublabel)) ==> exists|j: int|
            0 <= j < rows.len() && (#[trigger] rows[j]).len() >= 3 && name + seq!['|'] + sublabel
                == rows[j][0] + seq!['|'] + rows[j][2],
{
    lemma_keys(rows, rows.len() as int, row_key(name, sublabel));
}

/// A row of the table reads back: name, regime, variant, arm, pick, threshold, and the
/// eight figures of the grade.
pub proof fn law_recovery_row_reads_back(v: RecoveryRowView)
    ensures
        recovery_in(
            seq![
                v.name,
                v.regime.spec_tag(),
                v.sublabel,
                v.arm.spec_tag(),
                v.pick.spec_tag(),
                v.tau,
                digits_of(v.grade.n_gt as int, 10),
                digits_of(v.grade.n_reach as int, 10),
                digits_of(v.grade.n_pred as int, 10),
                digits_of(v.grade.tp as int, 10),
                digits_of(v.grade.fp as int, 10),
                digits_of(v.grade.fn_ as int, 10),
                digits_of(v.grade.n_window as int, 10),
                digits_of(v.grade.win_pred as int, 10),
            ],
        ) == Some(v),
{
    law_tag_round_trip(v.regime);
    law_tag_round_trip(v.pick);
    law_arm_round_trip(v.arm);
    law_numeral_round_trip(v.grade.n_gt as u64, 10);
    law_numeral_round_trip(v.grade.n_reach as u64, 10);
    law_numeral_round_trip(v.grade.n_pred as u64, 10);
    law_numeral_round_trip(v.grade.tp as u64, 10);
    law_numeral_round_trip(v.grade.fp as u64, 10);
    law_numeral_round_trip(v.grade.fn_ as u64, 10);
    law_numeral_round_trip(v.grade.n_window as u64, 10);
    law_numeral_round_trip(v.grade.win_pred as u64, 10);
}

proof fn lemma_recoveries(rows: Seq<Seq<Seq<char>>>, k: int, r: RecoveryRowView)
    requires
        0 <= k <= rows.len(),
    ensures
        recoveries_below(rows, k).contains(r) <==> exists|j: int|
            0 <= j < k && recovery_in(#[trigger] rows[j]) == Some(r),
    decreases k,
{
    if k > 0 {
        lemma_recoveries(rows, k - 1, r);
        if let Some(x) = recovery_in(rows[k - 1]) {
            vstd::seq_lib::lemma_seq_contains_after_push(recoveries_below(rows, k - 1), x, r);
        }
    }
}

/// The recoveries of a table are those of its rows that hold one.
pub proof fn law_rows_that_hold_a_recovery(rows: Seq<Seq<Seq<char>>>, r: RecoveryRowView)
    ensures
        recoveries_below(rows, rows.len() as int).contains(r) <==> exists|j: int|
            0 <= j < rows.len() && recovery_in(#[trigger] rows[j]) == Some(r),
{
    lemma_recoveries(rows, rows.len() as int, r);
}

} // verus!
