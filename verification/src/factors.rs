//! The factor graph over candidate instruction starts.
//!
//! One binary variable per offset says whether an instruction starts there.
//! Pairwise factors tie the variables together: overlapping candidates exclude
//! each other, an instruction asks for the one it falls through to, relational
//! hints and direct branches reward joint code. The graph is built here; its
//! numeric potentials are attached by the caller.

use vstd::prelude::*;

use crate::hints::HintPair;
use crate::superset::{law_kinds_are_groups, Instruction, Superset};

verus! {

/// How inference treats conflicting candidates.
#[derive(Debug, Clone, Copy, PartialEq, Eq, Structural)]
pub enum AnalysisMode {
    /// Candidates that lose a conflict are ruled out for good.
    Hard,
    /// Conflicts only shift probabilities.
    Soft,
}

/// What a factor expresses.
#[derive(Debug, Clone, Copy, PartialEq, Eq, Structural)]
pub enum FactorKind {
    /// Not both.
    Overlap,
    /// The first asks for the second.
    FallThrough,
    /// Both, with the weight of the relational hint of that number.
    HintCoupling(usize),
    /// Both, because the first branches to the second.
    Transfer,
}

/// A factor between the variables of two offsets.
#[derive(Debug, Clone, Copy, PartialEq, Eq, Structural)]
pub struct Factor {
    /// What it expresses.
    pub kind: FactorKind,
    /// First offset.
    pub a: usize,
    /// Second offset.
    pub b: usize,
}

/// The log-potential of one corner of a factor, by name.
#[derive(Debug, Clone, Copy, PartialEq, Eq, Structural)]
pub enum Potential {
    /// Log-potential zero: the corner is neither favoured nor punished.
    Neutral,
    /// The corner is impossible.
    Forbidden,
    /// The fall-through penalty.
    FallThroughPenalty,
    /// The weight of the relational hint of that number.
    HintWeight(usize),
    /// The weight of a direct branch.
    TransferWeight,
}

/// The potential of `kind` where the first variable is `xa` and the second `xb`.
///
/// Overlap forbids joint code. Fall-through is one-sided: code followed by data
/// is punished, data followed by anything is free. Hints and branches reward
/// joint code.
pub open spec fn potential(kind: FactorKind, xa: bool, xb: bool) -> Potential {
    match kind {
        FactorKind::Overlap => if xa && xb {
            Potential::Forbidden
        } else {
            Potential::Neutral
        },
        FactorKind::FallThrough => if xa && !xb {
            Potential::FallThroughPenalty
        } else {
            Potential::Neutral
        },
        FactorKind::HintCoupling(p) => if xa && xb {
            Potential::HintWeight(p)
        } else {
            Potential::Neutral
        },
        FactorKind::Transfer => if xa && xb {
            Potential::TransferWeight
        } else {
            Potential::Neutral
        },
    }
}

/// The potential of one corner of a factor.
pub fn log_potential(kind: FactorKind, xa: bool, xb: bool) -> (r: Potential)
    ensures
        r == potential(kind, xa, xb),
{
    match kind {
        FactorKind::Overlap => {
            if xa && xb {
                Potential::Forbidden
            } else {
                Potential::Neutral
            }
        },
        FactorKind::FallThrough => {
            if xa && !xb {
                Potential::FallThroughPenalty
            } else {
                Potential::Neutral
            }
        },
        FactorKind::HintCoupling(p) => {
            if xa && xb {
                Potential::HintWeight(p)
            } else {
                Potential::Neutral
            }
        },
        FactorKind::Transfer => {
            if xa && xb {
                Potential::TransferWeight
            } else {
                Potential::Neutral
            }
        },
    }
}

// ── Decode chains ──────────────────────────────────────────────────────────

/// The longest fall-through chain that [`chain_fwd`] follows.
pub const CHAINFWD_CAP: usize = 16;

/// How many decodes in a row, each starting where the last one ended, begin at
/// offset `o`, counted up to `cap`.
pub open spec fn chain(s: Superset, o: int, cap: nat) -> nat
    decreases cap,
{
    if cap == 0 || !s.valid(o) || s.insn(o).size == 0 {
        0
    } else {
        1 + chain(s, o + s.insn(o).size, (cap - 1) as nat)
    }
}

/// The length of the fall-through chain from `offset`, up to `cap`.
pub fn chain_fwd(s: &Superset, offset: usize, cap: usize) -> (r: usize)
    ensures
        r == chain(*s, offset as int, cap as nat),
        r <= cap,
{
    let n: usize = s.instructions.len();
    let mut o: usize = offset;
    let mut steps: usize = 0;
    while steps < cap && o < n
        invariant_except_break
            steps <= cap,
            n == s.instructions@.len(),
            chain(*s, offset as int, cap as nat) == steps + chain(
                *s,
                o as int,
                (cap - steps) as nat,
            ),
        ensures
            steps == chain(*s, offset as int, cap as nat),
            steps <= cap,
        decreases cap - steps,
    {
        let size: usize = match &s.instructions[o] {
            Some(i) => i.size as usize,
            None => 0,
        };
        if size == 0 {
            break;
        }
        proof {
            assert(s.valid(o as int) && s.insn(o as int).size == size);
            assert(chain(*s, o as int, (cap - steps) as nat) == 1 + chain(
                *s,
                o + size,
                (cap - steps - 1) as nat,
            ));
        }
        steps += 1;
        if size > n - o {
            proof {
                assert(!s.valid(o + size) && !s.valid(n as int));
                assert(chain(*s, o + size, (cap - steps) as nat) == 0);
                assert(chain(*s, n as int, (cap - steps) as nat) == 0);
            }
            o = n;
        } else {
            o += size;
        }
    }
    steps
}

// ── Occlusion ──────────────────────────────────────────────────────────────

/// How far before an instruction an overlapping one can start: no x86
/// instruction is longer than fifteen bytes.
pub const OCCLUSION_REACH: u64 = 14;

/// Whether the instructions at `a` and `b` are two and share a byte.
pub open spec fn occludes(s: Superset, a: int, b: int) -> bool {
    &&& a != b
    &&& s.spec_at(a) is Some
    &&& s.spec_at(b) is Some
    &&& b < s.spec_at(a)->0.spec_end(a)
    &&& a < s.spec_at(b)->0.spec_end(b)
}

/// The addresses from `lo` up to `hi` that occlude `a`, in order.
pub open spec fn occluders_between(s: Superset, a: int, lo: int, hi: int) -> Seq<u64>
    decreases hi - lo,
{
    if hi <= lo {
        Seq::empty()
    } else if occludes(s, a, hi - 1) {
        occluders_between(s, a, lo, hi - 1).push((hi - 1) as u64)
    } else {
        occluders_between(s, a, lo, hi - 1)
    }
}

/// Where the search for occluders of `a` starts.
pub open spec fn occlusion_start(a: int) -> int {
    if a < OCCLUSION_REACH {
        0
    } else {
        a - OCCLUSION_REACH
    }
}

/// The addresses whose instructions overlap the one at `a`.
pub open spec fn occluders(s: Superset, a: int) -> Seq<u64> {
    match s.spec_at(a) {
        Some(i) => occluders_between(s, a, occlusion_start(a), i.spec_end(a)),
        None => Seq::empty(),
    }
}

/// The addresses whose instructions overlap the one at `addr`, in order.
pub fn occluding_addrs_of(s: &Superset, addr: u64) -> (r: Vec<u64>)
    requires
        s.wf(),
    ensures
        r@ == occluders(*s, addr as int),
{
    let mut out: Vec<u64> = Vec::new();
    let insn: &Instruction = match s.at(addr) {
        Some(i) => i,
        None => {
            return out;
        },
    };
    proof {
        assert(s.valid(addr - s.base_addr));
    }
    let end: u64 = addr + insn.size as u64;
    let start: u64 = if addr < OCCLUSION_REACH {
        0
    } else {
        addr - OCCLUSION_REACH
    };
    let mut a: u64 = start;
    while a < end
        invariant
            s.wf(),
            start <= a,
            start <= end ==> a <= end,
            s.spec_at(addr as int) == Some(*insn),
            end == insn.spec_end(addr as int),
            out@ == occluders_between(*s, addr as int, start as int, a as int),
        decreases end - a,
    {
        if a != addr {
            if let Some(j) = s.at(a) {
                proof {
                    assert(s.valid(a - s.base_addr));
                }
                if addr < a + j.size as u64 {
                    out.push(a);
                }
            }
        }
        a += 1;
    }
    out
}

// ── Factors ────────────────────────────────────────────────────────────────

/// The offset of address `a` if something decodes there.
pub open spec fn decoded_offset(s: Superset, a: u64) -> Option<int> {
    if s.spec_at(a as int) is Some {
        Some(a - s.base_addr)
    } else {
        None
    }
}

fn decoded_offset_of(s: &Superset, a: u64) -> (r: Option<usize>)
    ensures
        match r {
            Some(o) => decoded_offset(*s, a) == Some(o as int) && s.valid(o as int),
            None => decoded_offset(*s, a) is None,
        },
{
    let n: usize = s.instructions.len();
    if s.at(a).is_some() {
        proof {
            assert(a - s.base_addr < n);
        }
        Some((a - s.base_addr) as usize)
    } else {
        None
    }
}

/// The overlap factors of offset `i` with the offsets before `j`.
pub open spec fn overlap_row(s: Superset, i: int, j: int) -> Seq<Factor>
    decreases j - i,
{
    if j <= i + 1 {
        Seq::empty()
    } else if s.valid(j - 1) {
        overlap_row(s, i, j - 1).push(
            Factor { kind: FactorKind::Overlap, a: i as usize, b: (j - 1) as usize },
        )
    } else {
        overlap_row(s, i, j - 1)
    }
}

/// Where the instruction at offset `i` ends, or the region does.
pub open spec fn row_end(s: Superset, i: int) -> int {
    if i + s.insn(i).size < s.spec_len() {
        i + s.insn(i).size
    } else {
        s.spec_len()
    }
}

/// The overlap factors of the offsets below `n`: one for every two candidates
/// that share a byte.
pub open spec fn overlap_factors(s: Superset, n: int) -> Seq<Factor>
    decreases n,
{
    if n <= 0 {
        Seq::empty()
    } else if s.valid(n - 1) {
        overlap_factors(s, n - 1) + overlap_row(s, n - 1, row_end(s, n - 1))
    } else {
        overlap_factors(s, n - 1)
    }
}

/// The addresses that the instruction `i` at `a` asks for: the next instruction
/// after anything but a return or a jump, the target of a direct jump, and the
/// next instruction too after a conditional one. Call targets are left out.
pub open spec fn ft_targets(i: Instruction, a: int) -> Seq<u64> {
    let next = i.spec_end(a) as u64;
    if i.spec_is_ret() {
        Seq::empty()
    } else if i.spec_is_call() {
        seq![next]
    } else if i.spec_is_jump() {
        match i.branch_target {
            Some(t) => if i.spec_is_plain_jmp() {
                seq![t]
            } else {
                seq![t, next]
            },
            None => Seq::empty(),
        }
    } else {
        seq![next]
    }
}

/// The addresses that get a fall-through factor from `insn` at `addr`.
pub fn ft_factor_targets(insn: &Instruction, addr: u64) -> (r: Vec<u64>)
    requires
        addr + insn.size <= u64::MAX,
    ensures
        r@ == ft_targets(*insn, addr as int),
{
    let next: u64 = addr + insn.size as u64;
    let mut out: Vec<u64> = Vec::new();
    if insn.is_ret() {
        return out;
    }
    if insn.is_call() {
        out.push(next);
        return out;
    }
    if insn.is_jump() {
        if let Some(t) = insn.branch_target {
            out.push(t);
            if !insn.is_plain_jmp() {
                out.push(next);
            }
        }
        return out;
    }
    out.push(next);
    out
}

/// The fall-through factors from offset `o` to those of `targets` that decode.
pub open spec fn ft_row(s: Superset, o: int, targets: Seq<u64>) -> Seq<Factor>
    decreases targets.len(),
{
    if targets.len() == 0 {
        Seq::empty()
    } else {
        let before = ft_row(s, o, targets.drop_last());
        match decoded_offset(s, targets.last()) {
            Some(t) => before.push(
                Factor { kind: FactorKind::FallThrough, a: o as usize, b: t as usize },
            ),
            None => before,
        }
    }
}

/// The fall-through factors of the offsets below `n`.
pub open spec fn ft_factors(s: Superset, n: int) -> Seq<Factor>
    decreases n,
{
    if n <= 0 {
        Seq::empty()
    } else if s.valid(n - 1) {
        ft_factors(s, n - 1) + ft_row(s, n - 1, ft_targets(s.insn(n - 1), s.addr(n - 1)))
    } else {
        ft_factors(s, n - 1)
    }
}

/// The coupling factors of the first `k` relational hints: one for each whose
/// two addresses decode.
pub open spec fn coupling_factors(s: Superset, pairs: Seq<HintPair>, k: int) -> Seq<Factor>
    decreases k,
{
    if k <= 0 {
        Seq::empty()
    } else {
        let before = coupling_factors(s, pairs, k - 1);
        match (decoded_offset(s, pairs[k - 1].addr_a), decoded_offset(s, pairs[k - 1].addr_b)) {
            (Some(a), Some(b)) => before.push(
                Factor {
                    kind: FactorKind::HintCoupling((k - 1) as usize),
                    a: a as usize,
                    b: b as usize,
                },
            ),
            _ => before,
        }
    }
}

/// Where the direct branch at offset `o` goes, if that decodes.
pub open spec fn transfer_target(s: Superset, o: int) -> Option<int> {
    if s.valid(o) && s.insn(o).spec_is_branch() {
        match s.insn(o).branch_target {
            Some(t) => decoded_offset(s, t),
            None => None,
        }
    } else {
        None
    }
}

/// The transfer factors of the offsets below `n`.
pub open spec fn transfer_factors(s: Superset, n: int) -> Seq<Factor>
    decreases n,
{
    if n <= 0 {
        Seq::empty()
    } else {
        let before = transfer_factors(s, n - 1);
        match transfer_target(s, n - 1) {
            Some(t) => before.push(
                Factor { kind: FactorKind::Transfer, a: (n - 1) as usize, b: t as usize },
            ),
            None => before,
        }
    }
}

/// All factors of the graph.
pub open spec fn graph_factors(s: Superset, pairs: Seq<HintPair>) -> Seq<Factor> {
    overlap_factors(s, s.spec_len()) + ft_factors(s, s.spec_len()) + coupling_factors(
        s,
        pairs,
        pairs.len() as int,
    ) + transfer_factors(s, s.spec_len())
}

/// A factor graph: one variable per offset, and the factors between them.
pub struct FactorGraph {
    /// Number of variables.
    pub n: usize,
    /// The factors.
    pub factors: Vec<Factor>,
}

fn push_overlap_row(s: &Superset, i: usize, out: &mut Vec<Factor>)
    requires
        s.valid(i as int),
    ensures
        final(out)@ == old(out)@ + overlap_row(*s, i as int, row_end(*s, i as int)),
{
    let n: usize = s.instructions.len();
    let size: usize = match &s.instructions[i] {
        Some(insn) => insn.size as usize,
        None => 0,
    };
    let end: usize = if size < n - i {
        i + size
    } else {
        n
    };
    let mut j: usize = i + 1;
    proof {
        assert(out@ =~= old(out)@ + overlap_row(*s, i as int, j as int));
    }
    while j < end
        invariant
            i < j,
            i + 1 <= end ==> j <= end,
            end <= i ==> j == i + 1,
            end <= s.instructions@.len(),
            n == s.instructions@.len(),
            out@ == old(out)@ + overlap_row(*s, i as int, j as int),
        decreases end - j,
    {
        if s.instructions[j].is_some() {
            out.push(Factor { kind: FactorKind::Overlap, a: i, b: j });
        }
        proof {
            assert(out@ =~= old(out)@ + overlap_row(*s, i as int, j + 1));
        }
        j += 1;
    }
    proof {
        assert(overlap_row(*s, i as int, j as int) == overlap_row(*s, i as int, end as int));
    }
}

fn push_ft_row(s: &Superset, o: usize, targets: &Vec<u64>, out: &mut Vec<Factor>)
    ensures
        final(out)@ == old(out)@ + ft_row(*s, o as int, targets@),
{
    let mut k: usize = 0;
    proof {
        assert(out@ =~= old(out)@ + ft_row(*s, o as int, targets@.take(0)));
    }
    while k < targets.len()
        invariant
            k <= targets@.len(),
            out@ == old(out)@ + ft_row(*s, o as int, targets@.take(k as int)),
        decreases targets@.len() - k,
    {
        proof {
            assert(targets@.take(k + 1).drop_last() =~= targets@.take(k as int));
        }
        if let Some(t) = decoded_offset_of(s, targets[k]) {
            out.push(Factor { kind: FactorKind::FallThrough, a: o, b: t });
        }
        proof {
            assert(out@ =~= old(out)@ + ft_row(*s, o as int, targets@.take(k + 1)));
        }
        k += 1;
    }
    proof {
        assert(targets@.take(k as int) =~= targets@);
    }
}

fn push_overlaps(s: &Superset, out: &mut Vec<Factor>)
    ensures
        final(out)@ == old(out)@ + overlap_factors(*s, s.spec_len()),
{
    let mut o: usize = 0;
    proof {
        assert(out@ =~= old(out)@ + overlap_factors(*s, 0));
    }
    while o < s.instructions.len()
        invariant
            o <= s.instructions@.len(),
            out@ == old(out)@ + overlap_factors(*s, o as int),
        decreases s.instructions@.len() - o,
    {
        if s.instructions[o].is_some() {
            push_overlap_row(s, o, out);
        }
        proof {
            assert(out@ =~= old(out)@ + overlap_factors(*s, o + 1));
        }
        o += 1;
    }
}

fn push_fall_throughs(s: &Superset, out: &mut Vec<Factor>)
    requires
        s.wf(),
    ensures
        final(out)@ == old(out)@ + ft_factors(*s, s.spec_len()),
{
    let mut o: usize = 0;
    proof {
        assert(out@ =~= old(out)@ + ft_factors(*s, 0));
    }
    while o < s.instructions.len()
        invariant
            o <= s.instructions@.len(),
            s.wf(),
            out@ == old(out)@ + ft_factors(*s, o as int),
        decreases s.instructions@.len() - o,
    {
        if let Some(insn) = &s.instructions[o] {
            proof {
                assert(s.valid(o as int));
            }
            let targets: Vec<u64> = ft_factor_targets(insn, insn.address);
            push_ft_row(s, o, &targets, out);
        }
        proof {
            assert(out@ =~= old(out)@ + ft_factors(*s, o + 1));
        }
        o += 1;
    }
}

fn push_couplings(s: &Superset, pairs: &Vec<HintPair>, out: &mut Vec<Factor>)
    ensures
        final(out)@ == old(out)@ + coupling_factors(*s, pairs@, pairs@.len() as int),
{
    let mut k: usize = 0;
    proof {
        assert(out@ =~= old(out)@ + coupling_factors(*s, pairs@, 0));
    }
    while k < pairs.len()
        invariant
            k <= pairs@.len(),
            out@ == old(out)@ + coupling_factors(*s, pairs@, k as int),
        decreases pairs@.len() - k,
    {
        let oa: Option<usize> = decoded_offset_of(s, pairs[k].addr_a);
        let ob: Option<usize> = decoded_offset_of(s, pairs[k].addr_b);
        if let (Some(a), Some(b)) = (oa, ob) {
            out.push(Factor { kind: FactorKind::HintCoupling(k), a, b });
        }
        proof {
            assert(out@ =~= old(out)@ + coupling_factors(*s, pairs@, k + 1));
        }
        k += 1;
    }
}

fn push_transfers(s: &Superset, out: &mut Vec<Factor>)
    ensures
        final(out)@ == old(out)@ + transfer_factors(*s, s.spec_len()),
{
    let mut o: usize = 0;
    proof {
        assert(out@ =~= old(out)@ + transfer_factors(*s, 0));
    }
    while o < s.instructions.len()
        invariant
            o <= s.instructions@.len(),
            out@ == old(out)@ + transfer_factors(*s, o as int),
        decreases s.instructions@.len() - o,
    {
        if let Some(insn) = &s.instructions[o] {
            if insn.is_jump() || insn.is_call() {
                if let Some(t) = insn.branch_target {
                    if let Some(to) = decoded_offset_of(s, t) {
                        out.push(Factor { kind: FactorKind::Transfer, a: o, b: to });
                    }
                }
            }
        }
        proof {
            assert(out@ =~= old(out)@ + transfer_factors(*s, o + 1));
        }
        o += 1;
    }
}

/// Builds the factor graph of a superset and its relational hints.
pub fn build_factor_graph(s: &Superset, pairs: &Vec<HintPair>) -> (g: FactorGraph)
    requires
        s.wf(),
    ensures
        g.n == s.spec_len(),
        g.factors@ == graph_factors(*s, pairs@),
{
    let mut factors: Vec<Factor> = Vec::new();
    push_overlaps(s, &mut factors);
    push_fall_throughs(s, &mut factors);
    push_couplings(s, pairs, &mut factors);
    push_transfers(s, &mut factors);
    proof {
        assert(factors@ =~= graph_factors(*s, pairs@));
    }
    FactorGraph { n: s.instructions.len(), factors }
}

// ── Laws ───────────────────────────────────────────────────────────────────

/// Occlusion goes both ways.
pub proof fn law_occlusion_is_symmetric(s: Superset, a: int, b: int)
    ensures
        occludes(s, a, b) == occludes(s, b, a),
{
}

proof fn lemma_occluders_between(s: Superset, a: int, lo: int, hi: int, b: u64)
    requires
        0 <= lo,
        hi <= u64::MAX + 1,
    ensures
        occluders_between(s, a, lo, hi).contains(b) <==> lo <= b < hi && occludes(s, a, b as int),
    decreases hi - lo,
{
    if hi > lo {
        lemma_occluders_between(s, a, lo, hi - 1, b);
        let before = occluders_between(s, a, lo, hi - 1);
        let now = occluders_between(s, a, lo, hi);
        if occludes(s, a, hi - 1) {
            if before.contains(b) {
                let i = choose|i: int| 0 <= i < before.len() && before[i] == b;
                assert(now[i] == b);
            }
            if b == hi - 1 {
                assert(now[before.len() as int] == b);
            }
            if now.contains(b) && b != hi - 1 {
                let i = choose|i: int| 0 <= i < now.len() && now[i] == b;
                assert(before[i] == b);
            }
        }
    }
}

/// Where no instruction is longer than fifteen bytes, the search finds exactly
/// the instructions that overlap.
pub proof fn law_occluders_are_exact(s: Superset, a: int, b: u64)
    requires
        s.wf(),
        s.spec_at(b as int) matches Some(j) ==> j.size <= 15,
    ensures
        occluders(s, a).contains(b) <==> occludes(s, a, b as int),
{
    if let Some(i) = s.spec_at(a) {
        assert(s.valid(a - s.base_addr));
        lemma_occluders_between(s, a, occlusion_start(a), i.spec_end(a), b);
    }
}

proof fn lemma_overlap_row(s: Superset, i: int, j: int, f: Factor)
    requires
        0 <= i,
        j <= usize::MAX,
    ensures
        overlap_row(s, i, j).contains(f) <==> f.kind == FactorKind::Overlap && f.a == i && i < f.b
            < j && s.valid(f.b as int),
        overlap_row(s, i, j).no_duplicates(),
    decreases j - i,
{
    if j > i + 1 {
        lemma_overlap_row(s, i, j - 1, f);
        let before = overlap_row(s, i, j - 1);
        let now = overlap_row(s, i, j);
        if s.valid(j - 1) {
            let last = Factor { kind: FactorKind::Overlap, a: i as usize, b: (j - 1) as usize };
            lemma_overlap_row(s, i, j - 1, last);
            if before.contains(f) {
                let k = choose|k: int| 0 <= k < before.len() && before[k] == f;
                assert(now[k] == f);
            }
            if f == last {
                assert(now[before.len() as int] == f);
            }
            if now.contains(f) && f != last {
                let k = choose|k: int| 0 <= k < now.len() && now[k] == f;
                assert(before[k] == f);
            }
        }
    }
}

proof fn lemma_overlap_factors(s: Superset, n: int, f: Factor)
    requires
        n <= s.spec_len() <= usize::MAX,
    ensures
        overlap_factors(s, n).contains(f) <==> f.kind == FactorKind::Overlap && f.a < n && s.valid(
            f.a as int,
        ) && s.valid(f.b as int) && f.a < f.b < f.a + s.insn(f.a as int).size,
        overlap_factors(s, n).no_duplicates(),
    decreases n,
{
    if n > 0 {
        lemma_overlap_factors(s, n - 1, f);
        if s.valid(n - 1) {
            let before = overlap_factors(s, n - 1);
            let row = overlap_row(s, n - 1, row_end(s, n - 1));
            let now = before + row;
            lemma_overlap_row(s, n - 1, row_end(s, n - 1), f);
            if before.contains(f) {
                let k = choose|k: int| 0 <= k < before.len() && before[k] == f;
                assert(now[k] == f);
            }
            if row.contains(f) {
                let k = choose|k: int| 0 <= k < row.len() && row[k] == f;
                assert(now[before.len() + k] == f);
            }
            if now.contains(f) {
                let k = choose|k: int| 0 <= k < now.len() && now[k] == f;
                if k < before.len() {
                    assert(before[k] == f);
                } else {
                    assert(row[k - before.len()] == f);
                }
            }
            assert forall|x: int, y: int| 0 <= x < y < now.len() implies now[x] != now[y] by {
                if x < before.len() && y >= before.len() {
                    let g = now[x];
                    assert(before[x] == g);
                    lemma_overlap_factors(s, n - 1, g);
                    assert(row[y - before.len()] == now[y]);
                    lemma_overlap_row(s, n - 1, row_end(s, n - 1), now[y]);
                    assert(row.contains(now[y]));
                } else if y < before.len() {
                    assert(before[x] == now[x] && before[y] == now[y]);
                } else {
                    assert(row[x - before.len()] == now[x] && row[y - before.len()] == now[y]);
                }
            }
        }
    }
}

/// Two candidates exclude each other exactly when they share a byte, and each
/// such pair has one factor.
pub proof fn law_overlap_factors_are_the_occlusions(s: Superset, i: usize, j: usize)
    requires
        s.wf(),
        s.spec_len() <= usize::MAX,
        i < j,
    ensures
        overlap_factors(s, s.spec_len()).contains(
            Factor { kind: FactorKind::Overlap, a: i, b: j },
        ) <==> occludes(s, s.addr(i as int), s.addr(j as int)),
        overlap_factors(s, s.spec_len()).no_duplicates(),
{
    lemma_overlap_factors(s, s.spec_len(), Factor { kind: FactorKind::Overlap, a: i, b: j });
}

/// The potentials of overlap, hint and branch factors do not depend on the order
/// of the two variables; that of a fall-through factor does.
pub proof fn law_potential_symmetry(kind: FactorKind, xa: bool, xb: bool)
    ensures
        kind != FactorKind::FallThrough ==> potential(kind, xa, xb) == potential(kind, xb, xa),
        potential(FactorKind::FallThrough, true, false) != potential(
            FactorKind::FallThrough,
            false,
            true,
        ),
{
}

/// Data constrains nothing: a factor whose first variable is data is neutral.
pub proof fn law_data_constrains_nothing(kind: FactorKind, xb: bool)
    ensures
        potential(kind, false, xb) == Potential::Neutral,
{
}

/// What each corner of a factor is worth: joint code is forbidden to two that
/// overlap and rewarded by a hint or a branch; code that falls through to data is
/// punished; nothing else counts.
pub proof fn law_potential_corners(p: usize, xa: bool, xb: bool)
    ensures
        potential(FactorKind::Overlap, true, true) == Potential::Forbidden,
        potential(FactorKind::FallThrough, true, false) == Potential::FallThroughPenalty,
        potential(FactorKind::FallThrough, true, true) == Potential::Neutral,
        potential(FactorKind::HintCoupling(p), true, true) == Potential::HintWeight(p),
        potential(FactorKind::Transfer, true, true) == Potential::TransferWeight,
        !(xa && xb) ==> potential(FactorKind::Overlap, xa, xb) == Potential::Neutral && potential(
            FactorKind::HintCoupling(p),
            xa,
            xb,
        ) == Potential::Neutral && potential(FactorKind::Transfer, xa, xb) == Potential::Neutral,
{
}

/// A factor stands in one list that was put together of two exactly where it stands
/// in one of them.
proof fn lemma_concat_contains(a: Seq<Factor>, b: Seq<Factor>, f: Factor)
    ensures
        (a + b).contains(f) <==> a.contains(f) || b.contains(f),
{
    if a.contains(f) {
        let k = choose|k: int| 0 <= k < a.len() && a[k] == f;
        assert((a + b)[k] == f);
    }
    if b.contains(f) {
        let k = choose|k: int| 0 <= k < b.len() && b[k] == f;
        assert((a + b)[a.len() + k] == f);
    }
    if (a + b).contains(f) {
        let k = choose|k: int| 0 <= k < (a + b).len() && (a + b)[k] == f;
        if k < a.len() {
            assert(a[k] == f);
        } else {
            assert(b[k - a.len()] == f);
        }
    }
}

proof fn lemma_push_contains(a: Seq<Factor>, x: Factor, f: Factor)
    ensures
        a.push(x).contains(f) <==> a.contains(f) || f == x,
{
    lemma_concat_contains(a, seq![x], f);
    assert(a.push(x) =~= a + seq![x]);
    assert(seq![x][0] == x);
}

proof fn lemma_ft_row(s: Superset, o: int, targets: Seq<u64>, f: Factor)
    requires
        0 <= o <= usize::MAX,
        s.spec_len() <= usize::MAX,
    ensures
        ft_row(s, o, targets).contains(f) <==> f.kind == FactorKind::FallThrough && f.a == o
            && s.valid(f.b as int) && exists|k: int|
            0 <= k < targets.len() && #[trigger] targets[k] == s.base_addr + f.b,
    decreases targets.len(),
{
    if targets.len() > 0 {
        let rest = targets.drop_last();
        lemma_ft_row(s, o, rest, f);
        let t = targets.last();
        if exists|k: int| 0 <= k < rest.len() && #[trigger] rest[k] == s.base_addr + f.b {
            let k = choose|k: int| 0 <= k < rest.len() && #[trigger] rest[k] == s.base_addr + f.b;
            assert(targets[k] == s.base_addr + f.b);
        }
        if exists|k: int| 0 <= k < targets.len() && #[trigger] targets[k] == s.base_addr + f.b {
            let k = choose|k: int|
                0 <= k < targets.len() && #[trigger] targets[k] == s.base_addr + f.b;
            if k < rest.len() {
                assert(rest[k] == s.base_addr + f.b);
            }
        }
        if let Some(d) = decoded_offset(s, t) {
            let x = Factor { kind: FactorKind::FallThrough, a: o as usize, b: d as usize };
            lemma_push_contains(ft_row(s, o, rest), x, f);
            assert(targets[targets.len() - 1] == t);
        }
    }
}

proof fn lemma_ft_factors(s: Superset, n: int, f: Factor)
    requires
        n <= s.spec_len() <= usize::MAX,
    ensures
        ft_factors(s, n).contains(f) <==> f.kind == FactorKind::FallThrough && f.a < n && s.valid(
            f.a as int,
        ) && s.valid(f.b as int) && exists|k: int|
            0 <= k < ft_targets(s.insn(f.a as int), s.addr(f.a as int)).len()
                && #[trigger] ft_targets(s.insn(f.a as int), s.addr(f.a as int))[k] == s.base_addr
                + f.b,
    decreases n,
{
    if n > 0 {
        lemma_ft_factors(s, n - 1, f);
        if s.valid(n - 1) {
            let targets = ft_targets(s.insn(n - 1), s.addr(n - 1));
            lemma_ft_row(s, n - 1, targets, f);
            lemma_concat_contains(ft_factors(s, n - 1), ft_row(s, n - 1, targets), f);
        }
    }
}

proof fn lemma_transfer_factors(s: Superset, n: int, f: Factor)
    requires
        n <= s.spec_len() <= usize::MAX,
    ensures
        transfer_factors(s, n).contains(f) <==> f.kind == FactorKind::Transfer && f.a < n
            && transfer_target(s, f.a as int) == Some(f.b as int),
    decreases n,
{
    if n > 0 {
        lemma_transfer_factors(s, n - 1, f);
        if let Some(t) = transfer_target(s, n - 1) {
            let x = Factor { kind: FactorKind::Transfer, a: (n - 1) as usize, b: t as usize };
            lemma_push_contains(transfer_factors(s, n - 1), x, f);
        }
    }
}

proof fn lemma_coupling_factors(s: Superset, pairs: Seq<HintPair>, k: int, f: Factor)
    requires
        0 <= k <= pairs.len() <= usize::MAX,
        s.spec_len() <= usize::MAX,
    ensures
        coupling_factors(s, pairs, k).contains(f) <==> exists|p: int|
            0 <= p < k && f.kind == FactorKind::HintCoupling(p as usize) && (#[trigger] pairs[p])
                .addr_a == s.base_addr + f.a && pairs[p].addr_b == s.base_addr + f.b && s.valid(
                f.a as int,
            ) && s.valid(f.b as int),
    decreases k,
{
    if k > 0 {
        lemma_coupling_factors(s, pairs, k - 1, f);
        let before = coupling_factors(s, pairs, k - 1);
        let q = pairs[k - 1];
        if let (Some(a), Some(b)) = (decoded_offset(s, q.addr_a), decoded_offset(s, q.addr_b)) {
            let x = Factor {
                kind: FactorKind::HintCoupling((k - 1) as usize),
                a: a as usize,
                b: b as usize,
            };
            lemma_push_contains(before, x, f);
            if f == x {
                assert(pairs[k - 1].addr_a == s.base_addr + f.a);
            }
        }
    }
}

proof fn lemma_graph_contains(s: Superset, pairs: Seq<HintPair>, f: Factor)
    ensures
        graph_factors(s, pairs).contains(f) <==> overlap_factors(s, s.spec_len()).contains(f)
            || ft_factors(s, s.spec_len()).contains(f) || coupling_factors(
            s,
            pairs,
            pairs.len() as int,
        ).contains(f) || transfer_factors(s, s.spec_len()).contains(f),
{
    let a = overlap_factors(s, s.spec_len());
    let b = ft_factors(s, s.spec_len());
    let c = coupling_factors(s, pairs, pairs.len() as int);
    let d = transfer_factors(s, s.spec_len());
    lemma_concat_contains(a, b, f);
    lemma_concat_contains(a + b, c, f);
    lemma_concat_contains(a + b + c, d, f);
}

/// One candidate asks for another exactly where control goes from the first to the
/// second inside a procedure: to the next instruction, unless the first returns or
/// always jumps or jumps to a place unknown; and to the target of a direct jump, but
/// not to that of a call.
pub proof fn law_fall_through_factors(s: Superset, pairs: Seq<HintPair>, a: usize, b: usize)
    requires
        s.wf(),
        s.spec_len() <= usize::MAX,
        pairs.len() <= usize::MAX,
        a < s.instructions@.len(),
        b < s.instructions@.len(),
    ensures
        graph_factors(s, pairs).contains(Factor { kind: FactorKind::FallThrough, a, b }) <==> {
            &&& s.instructions@[a as int] matches Some(i)
            &&& s.instructions@[b as int] is Some
            &&& !i.groups@.contains(3u8)
            &&& {
                ||| b == a + i.size && (i.groups@.contains(2u8) || !i.groups@.contains(1u8) || (
                i.branch_target is Some && i.mnemonic@ != "jmp"@))
                ||| i.groups@.contains(1u8) && !i.groups@.contains(2u8) && i.branch_target == Some(
                    (s.base_addr + b) as u64,
                )
            }
        },
{
    let f = Factor { kind: FactorKind::FallThrough, a, b };
    lemma_graph_contains(s, pairs, f);
    lemma_ft_factors(s, s.spec_len(), f);
    lemma_overlap_factors(s, s.spec_len(), f);
    lemma_coupling_factors(s, pairs, pairs.len() as int, f);
    lemma_transfer_factors(s, s.spec_len(), f);
    if let Some(i) = s.instructions@[a as int] {
        law_kinds_are_groups(i);
        assert(s.valid(a as int));
        let t = ft_targets(i, s.addr(a as int));
        if t.len() > 0 && t[0] == s.base_addr + b {
            assert(0 <= 0 < t.len() && t[0] == s.base_addr + b);
        }
        if t.len() > 1 && t[1] == s.base_addr + b {
            assert(0 <= 1 < t.len() && t[1] == s.base_addr + b);
        }
    }
}

/// A direct jump or call is tied to its target, where that decodes, and nothing else
/// is.
pub proof fn law_transfer_factors(s: Superset, pairs: Seq<HintPair>, a: usize, b: usize)
    requires
        s.wf(),
        s.spec_len() <= usize::MAX,
        pairs.len() <= usize::MAX,
        a < s.instructions@.len(),
        b < s.instructions@.len(),
    ensures
        graph_factors(s, pairs).contains(Factor { kind: FactorKind::Transfer, a, b }) <==> {
            &&& s.instructions@[a as int] matches Some(i)
            &&& s.instructions@[b as int] is Some
            &&& i.groups@.contains(1u8) || i.groups@.contains(2u8)
            &&& i.branch_target == Some((s.base_addr + b) as u64)
        },
{
    let f = Factor { kind: FactorKind::Transfer, a, b };
    lemma_graph_contains(s, pairs, f);
    lemma_ft_factors(s, s.spec_len(), f);
    lemma_overlap_factors(s, s.spec_len(), f);
    lemma_coupling_factors(s, pairs, pairs.len() as int, f);
    lemma_transfer_factors(s, s.spec_len(), f);
    if let Some(i) = s.instructions@[a as int] {
        law_kinds_are_groups(i);
    }
}

/// Every relational hint whose two addresses decode couples them, with its own
/// weight, and nothing else does.
pub proof fn law_coupling_factors(
    s: Superset,
    pairs: Seq<HintPair>,
    p: usize,
    a: usize,
    b: usize,
)
    requires
        s.wf(),
        s.spec_len() <= usize::MAX,
        p < pairs.len() <= usize::MAX,
        a < s.instructions@.len(),
        b < s.instructions@.len(),
    ensures
        graph_factors(s, pairs).contains(Factor { kind: FactorKind::HintCoupling(p), a, b }) <==> {
            &&& s.instructions@[a as int] is Some
            &&& s.instructions@[b as int] is Some
            &&& pairs[p as int].addr_a == s.base_addr + a
            &&& pairs[p as int].addr_b == s.base_addr + b
        },
{
    let f = Factor { kind: FactorKind::HintCoupling(p), a, b };
    lemma_graph_contains(s, pairs, f);
    lemma_ft_factors(s, s.spec_len(), f);
    lemma_overlap_factors(s, s.spec_len(), f);
    lemma_coupling_factors(s, pairs, pairs.len() as int, f);
    lemma_transfer_factors(s, s.spec_len(), f);
}

/// Two candidates exclude each other in the graph exactly where the second starts
/// inside the first.
pub proof fn law_overlap_factors(s: Superset, pairs: Seq<HintPair>, a: usize, b: usize)
    requires
        s.wf(),
        s.spec_len() <= usize::MAX,
        pairs.len() <= usize::MAX,
        a < s.instructions@.len(),
        b < s.instructions@.len(),
    ensures
        graph_factors(s, pairs).contains(Factor { kind: FactorKind::Overlap, a, b }) <==> {
            &&& s.instructions@[a as int] matches Some(i)
            &&& s.instructions@[b as int] is Some
            &&& a < b < a + i.size
        },
{
    let f = Factor { kind: FactorKind::Overlap, a, b };
    lemma_graph_contains(s, pairs, f);
    lemma_ft_factors(s, s.spec_len(), f);
    lemma_overlap_factors(s, s.spec_len(), f);
    lemma_coupling_factors(s, pairs, pairs.len() as int, f);
    lemma_transfer_factors(s, s.spec_len(), f);
}

/// Two instructions occlude each other exactly where some byte belongs to both.
pub proof fn law_occlusion_is_a_shared_byte(s: Superset, a: int, b: int)
    requires
        s.base_addr <= a < s.base_addr + s.instructions@.len(),
        s.base_addr <= b < s.base_addr + s.instructions@.len(),
        s.instructions@[a - s.base_addr] matches Some(i) ==> i.size > 0,
        s.instructions@[b - s.base_addr] matches Some(j) ==> j.size > 0,
    ensures
        occludes(s, a, b) <==> {
            &&& a != b
            &&& s.instructions@[a - s.base_addr] matches Some(i)
            &&& s.instructions@[b - s.base_addr] matches Some(j)
            &&& exists|x: int| a <= x < a + i.size && #[trigger] in_bytes(x, b, b + j.size)
        },
{
    if let (Some(i), Some(j)) = (
        s.instructions@[a - s.base_addr],
        s.instructions@[b - s.base_addr],
    ) {
        if occludes(s, a, b) {
            let x = if a < b {
                b
            } else {
                a
            };
            assert(a <= x < a + i.size && in_bytes(x, b, b + j.size));
        }
    }
}

/// Whether `x` lies between two ends, the upper one excluded.
pub open spec fn in_bytes(x: int, lo: int, hi: int) -> bool {
    lo <= x < hi
}

/// Whether `q` is a run of decodes, each starting where the one before it ends.
pub open spec fn is_run(s: Superset, q: Seq<int>) -> bool {
    forall|k: int|
        0 <= k < q.len() ==> 0 <= #[trigger] q[k] < s.instructions@.len() && (
        s.instructions@[q[k]] matches Some(i) && i.size > 0 && (k + 1 < q.len() ==> q[k + 1] == q[k]
            + i.size))
}

/// A chain is as long as the longest run of decodes from there, up to the cap: no run
/// is longer, and one is as long. The cap is sixteen where one is needed.
pub proof fn law_chain_is_the_longest_run(s: Superset, o: int, cap: nat, q: Seq<int>)
    requires
        is_run(s, q),
        q.len() > 0 ==> q[0] == o,
        q.len() <= cap,
    ensures
        CHAINFWD_CAP == 16,
        q.len() <= chain(s, o, cap) <= cap,
        exists|p: Seq<int>|
            #[trigger] is_run(s, p) && p.len() == chain(s, o, cap) && (p.len() > 0 ==> p[0] == o),
    decreases cap,
{
    if cap > 0 && s.valid(o) && s.insn(o).size != 0 {
        let next = o + s.insn(o).size;
        let rest = if q.len() > 0 {
            q.drop_first()
        } else {
            q
        };
        if q.len() > 0 {
            assert(q[0] == o);
            if q.len() > 1 {
                assert(rest[0] == q[1]);
            }
            assert forall|k: int| 0 <= k < rest.len() implies 0 <= #[trigger] rest[k]
                < s.instructions@.len() && (s.instructions@[rest[k]] matches Some(i) && i.size > 0
                && (k + 1 < rest.len() ==> rest[k + 1] == rest[k] + i.size)) by {
                assert(rest[k] == q[k + 1]);
            }
            law_chain_is_the_longest_run(s, next, (cap - 1) as nat, rest);
        } else {
            law_chain_is_the_longest_run(s, next, (cap - 1) as nat, Seq::empty());
        }
        let n = chain(s, next, (cap - 1) as nat);
        let p = choose|p: Seq<int>|
            #[trigger] is_run(s, p) && p.len() == n && (p.len() > 0 ==> p[0] == next);
        let w = seq![o] + p;
        assert(is_run(s, w)) by {
            assert forall|k: int| 0 <= k < w.len() implies 0 <= #[trigger] w[k]
                < s.instructions@.len() && (s.instructions@[w[k]] matches Some(i) && i.size > 0 && (
            k + 1 < w.len() ==> w[k + 1] == w[k] + i.size)) by {
                if k > 0 {
                    assert(w[k] == p[k - 1]);
                }
            }
        }
        assert(w[0] == o);
    } else {
        if q.len() > 0 {
            assert(0 <= q[0] < s.instructions@.len());
        }
        let p = Seq::<int>::empty();
        assert(is_run(s, p));
    }
}

} // verus!
