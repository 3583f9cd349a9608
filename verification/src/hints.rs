//! Hints: evidence that an address starts an instruction.
//!
//! A unary hint sits at one address. A relational hint couples two addresses: two
//! branches that converge on one target, a branch that lands just behind
//! another, a register definition and its use.

use std::collections::{HashMap, HashSet};

use vstd::prelude::*;

use crate::superset::{law_kinds_are_groups, Instruction, Superset};

verus! {

broadcast use vstd::std_specs::hash::group_hash_axioms;

/// Relational hints stop being collected once this many exist. Ordinary code
/// stays far below it; it binds on dense jump tables only.
pub const HINT_PAIR_CAP: usize = 5_000_000;

/// How many steps a def-use walk looks ahead.
pub const MAX_WALK_DEPTH: usize = 50;

/// What a hint is about.
#[derive(Debug, Clone, Copy, PartialEq, Eq, Hash, Structural)]
pub enum HintLabel {
    /// Converging branch, two bytes long.
    CtrlConvRel,
    /// Converging branch, three or four bytes long.
    CtrlConvNear,
    /// Converging branch of any other length.
    CtrlConvLong,
    /// Crossing branch, two bytes long.
    CtrlCrossRel,
    /// Crossing branch, three or four bytes long.
    CtrlCrossNear,
    /// Crossing branch of any other length.
    CtrlCrossLong,
    /// A branch whose target decodes and does not overlap it.
    CtrlWeak,
    /// A register definition with a use, or such a use.
    RegDefUse,
    /// The instruction a call returns to.
    ReturnAddr,
}

/// An exact probability `num / den`.
#[derive(Debug, Clone, Copy, PartialEq, Eq, Structural)]
pub struct Prior {
    /// Numerator.
    pub num: u32,
    /// Denominator.
    pub den: u32,
}

impl HintLabel {
    /// How often the hint fires by coincidence, were data uniformly random: a branch
    /// displacement of one, two or four bytes then has one chance in all its nonzero
    /// values.
    pub open spec fn spec_prior(self) -> Prior {
        match self {
            HintLabel::CtrlConvRel | HintLabel::CtrlCrossRel => Prior { num: 1, den: 255 },
            HintLabel::CtrlConvNear | HintLabel::CtrlCrossNear => Prior { num: 1, den: 65535 },
            HintLabel::CtrlConvLong | HintLabel::CtrlCrossLong => Prior { num: 1, den: 4294967295 },
            HintLabel::CtrlWeak => Prior { num: 2, den: 7 },
            HintLabel::RegDefUse => Prior { num: 1, den: 16 },
            HintLabel::ReturnAddr => Prior { num: 1, den: 10000 },
        }
    }

    /// The same with the control-flow rates measured on data.
    pub open spec fn spec_dassa_prior(self) -> Prior {
        match self {
            HintLabel::CtrlConvRel | HintLabel::CtrlCrossRel => Prior { num: 1, den: 32 },
            HintLabel::CtrlConvNear | HintLabel::CtrlCrossNear => Prior { num: 1, den: 256 },
            HintLabel::CtrlConvLong | HintLabel::CtrlCrossLong => Prior { num: 1, den: 8192 },
            HintLabel::CtrlWeak => Prior { num: 2, den: 7 },
            HintLabel::RegDefUse => Prior { num: 1, den: 16 },
            HintLabel::ReturnAddr => Prior { num: 1, den: 10000 },
        }
    }

    /// The coincidence prior, measured or assumed.
    pub open spec fn spec_rate(self, use_dassa: bool) -> Prior {
        if use_dassa {
            self.spec_dassa_prior()
        } else {
            self.spec_prior()
        }
    }

    /// How often the hint fires by coincidence.
    pub fn prior(self) -> (r: Prior)
        ensures
            r == self.spec_prior(),
    {
        match self {
            HintLabel::CtrlConvRel => Prior { num: 1, den: 255 },
            HintLabel::CtrlCrossRel => Prior { num: 1, den: 255 },
            HintLabel::CtrlConvNear => Prior { num: 1, den: 65535 },
            HintLabel::CtrlCrossNear => Prior { num: 1, den: 65535 },
            HintLabel::CtrlConvLong => Prior { num: 1, den: 4294967295 },
            HintLabel::CtrlCrossLong => Prior { num: 1, den: 4294967295 },
            HintLabel::CtrlWeak => Prior { num: 2, den: 7 },
            HintLabel::RegDefUse => Prior { num: 1, den: 16 },
            HintLabel::ReturnAddr => Prior { num: 1, den: 10000 },
        }
    }

    /// The same with the control-flow rates measured on data.
    pub fn dassa_prior(self) -> (r: Prior)
        ensures
            r == self.spec_dassa_prior(),
    {
        match self {
            HintLabel::CtrlConvRel => Prior { num: 1, den: 32 },
            HintLabel::CtrlCrossRel => Prior { num: 1, den: 32 },
            HintLabel::CtrlConvNear => Prior { num: 1, den: 256 },
            HintLabel::CtrlCrossNear => Prior { num: 1, den: 256 },
            HintLabel::CtrlConvLong => Prior { num: 1, den: 8192 },
            HintLabel::CtrlCrossLong => Prior { num: 1, den: 8192 },
            HintLabel::CtrlWeak => Prior { num: 2, den: 7 },
            HintLabel::RegDefUse => Prior { num: 1, den: 16 },
            HintLabel::ReturnAddr => Prior { num: 1, den: 10000 },
        }
    }

    /// Position in the list of labels.
    pub open spec fn spec_code(self) -> int {
        match self {
            HintLabel::CtrlConvRel => 0,
            HintLabel::CtrlConvNear => 1,
            HintLabel::CtrlConvLong => 2,
            HintLabel::CtrlCrossRel => 3,
            HintLabel::CtrlCrossNear => 4,
            HintLabel::CtrlCrossLong => 5,
            HintLabel::CtrlWeak => 6,
            HintLabel::RegDefUse => 7,
            HintLabel::ReturnAddr => 8,
        }
    }

    fn code(self) -> (r: usize)
        ensures
            r == self.spec_code(),
            r < 9,
    {
        match self {
            HintLabel::CtrlConvRel => 0,
            HintLabel::CtrlConvNear => 1,
            HintLabel::CtrlConvLong => 2,
            HintLabel::CtrlCrossRel => 3,
            HintLabel::CtrlCrossNear => 4,
            HintLabel::CtrlCrossLong => 5,
            HintLabel::CtrlWeak => 6,
            HintLabel::RegDefUse => 7,
            HintLabel::ReturnAddr => 8,
        }
    }
}

/// A hint: what it is about and where it stands.
#[derive(Debug, Clone, Copy, PartialEq, Eq, Hash, Structural)]
pub struct HintKey {
    /// The address that produced the hint.
    pub source_addr: u64,
    /// What it is about.
    pub label: HintLabel,
}

/// A relational hint. Its log-weight is
/// `-ln(prior_a) - ln(prior_b)`.
#[derive(Debug, Clone, Copy, PartialEq, Eq, Structural)]
pub struct HintPair {
    /// First address.
    pub addr_a: u64,
    /// Second address.
    pub addr_b: u64,
    /// Coincidence prior at the first address.
    pub prior_a: Prior,
    /// Coincidence prior at the second address.
    pub prior_b: Prior,
}

// ── A set of hints ─────────────────────────────────────────────────────────

/// A set of hints that remembers the order in which they first came.
pub struct Hints {
    keys: Vec<HintKey>,
    seen: Vec<HashSet<u64>>,
}

impl View for Hints {
    type V = Set<HintKey>;

    closed spec fn view(&self) -> Set<HintKey> {
        self.keys@.to_set()
    }
}

impl Hints {
    /// No hint is listed twice, and the index agrees with the list.
    pub closed spec fn wf(self) -> bool {
        &&& self.seen@.len() == 9
        &&& self.keys@.no_duplicates()
        &&& forall|k: HintKey| #[trigger]
            self.keys@.contains(k) <==> self.seen@[k.label.spec_code()]@.contains(k.source_addr)
    }

    /// The hints in the order in which they first came.
    pub closed spec fn listed(self) -> Seq<HintKey> {
        self.keys@
    }

    /// The list holds each hint of the set once.
    pub proof fn lemma_listed(self)
        requires
            self.wf(),
        ensures
            self.listed().no_duplicates(),
            self.listed().to_set() == self@,
    {
    }

    /// No hints.
    pub fn new() -> (r: Hints)
        ensures
            r.wf(),
            r@ == Set::<HintKey>::empty(),
            r.listed() == Seq::<HintKey>::empty(),
    {
        let mut seen: Vec<HashSet<u64>> = Vec::new();
        let mut k: usize = 0;
        while k < 9
            invariant
                k <= 9,
                seen@.len() == k,
                forall|j: int| 0 <= j < k ==> (#[trigger] seen@[j])@ == Set::<u64>::empty(),
            decreases 9 - k,
        {
            seen.push(HashSet::new());
            k += 1;
        }
        let r: Hints = Hints { keys: Vec::new(), seen };
        proof {
            assert(r.keys@.to_set() =~= Set::empty());
            assert forall|k: HintKey| #[trigger]
                r.keys@.contains(k) <==> r.seen@[k.label.spec_code()]@.contains(k.source_addr) by {
                assert(0 <= k.label.spec_code() < 9);
            }
        }
        r
    }

    /// Adds a hint; one that is there already stays as it is.
    pub fn emit_hint(&mut self, source_addr: u64, label: HintLabel)
        requires
            old(self).wf(),
        ensures
            final(self).wf(),
            final(self)@ == old(self)@.insert(HintKey { source_addr, label }),
            final(self).listed() == (if old(self)@.contains(HintKey { source_addr, label }) {
                old(self).listed()
            } else {
                old(self).listed().push(HintKey { source_addr, label })
            }),
    {
        let c: usize = label.code();
        let key: HintKey = HintKey { source_addr, label };
        let ghost before = *self;
        if !self.seen[c].contains(&source_addr) {
            self.seen[c].insert(source_addr);
            self.keys.push(key);
            proof {
                assert(self.keys@.to_set() =~= before.keys@.to_set().insert(key)) by {
                    assert forall|k: HintKey| #[trigger]
                        self.keys@.to_set().contains(k) <==> before.keys@.to_set().insert(
                            key,
                        ).contains(k) by {
                        Self::lemma_push_contains(before.keys@, key, k);
                    }
                }
                assert forall|k: HintKey| #[trigger]
                    self.keys@.contains(k) <==> self.seen@[k.label.spec_code()]@.contains(
                        k.source_addr,
                    ) by {
                    Self::lemma_push_contains(before.keys@, key, k);
                    assert(before.keys@.contains(k)
                        <==> before.seen@[k.label.spec_code()]@.contains(k.source_addr));
                    if k.label.spec_code() == c {
                        assert(k.label == label);
                    }
                }
                assert(!before.keys@.contains(key));
            }
        } else {
            proof {
                assert(before.keys@.contains(key));
                assert(self.keys@.to_set() =~= before.keys@.to_set().insert(key));
            }
        }
    }

    proof fn lemma_push_contains(s: Seq<HintKey>, x: HintKey, k: HintKey)
        ensures
            s.push(x).contains(k) <==> s.contains(k) || k == x,
    {
        if s.contains(k) {
            let i = choose|i: int| 0 <= i < s.len() && s[i] == k;
            assert(s.push(x)[i] == k);
        }
        if k == x {
            assert(s.push(x)[s.len() as int] == k);
        }
        if s.push(x).contains(k) && k != x {
            let i = choose|i: int| 0 <= i < s.push(x).len() && s.push(x)[i] == k;
            assert(s[i] == k);
        }
    }

    /// Whether the hint is in the set.
    pub fn contains_key(&self, key: &HintKey) -> (r: bool)
        requires
            self.wf(),
        ensures
            r == self@.contains(*key),
    {
        proof {
            assert(self.keys@.contains(*key) <==> self.seen@[key.label.spec_code()]@.contains(
                key.source_addr,
            ));
        }
        self.seen[key.label.code()].contains(&key.source_addr)
    }

    /// The coincidence prior of a hint in the set.
    pub fn get(&self, key: &HintKey) -> (r: Option<Prior>)
        requires
            self.wf(),
        ensures
            r == (if self@.contains(*key) {
                Some(key.label.spec_prior())
            } else {
                None
            }),
    {
        if self.contains_key(key) {
            Some(key.label.prior())
        } else {
            None
        }
    }

    /// The hints in the order in which they first came.
    pub fn keys(&self) -> (r: &Vec<HintKey>)
        ensures
            r@ == self.listed(),
    {
        &self.keys
    }
}

// ── Unary hints ────────────────────────────────────────────────────────────

/// A direct branch at `a` whose target decodes and does not overlap it.
pub open spec fn is_weak_branch(s: Superset, a: int) -> bool {
    match s.spec_at(a) {
        Some(i) => i.spec_is_branch() && match i.branch_target {
            Some(t) => match s.spec_at(t as int) {
                Some(j) => !(a < j.spec_end(t as int) && t < i.spec_end(a)),
                None => false,
            },
            None => false,
        },
        None => false,
    }
}

/// Whether a call at `c` returns to `a`.
pub open spec fn returns_to(s: Superset, c: int, a: int) -> bool {
    s.spec_at(c) matches Some(i) && i.spec_is_call() && i.spec_end(c) == a
}

/// An address that decodes and that some call returns to.
pub open spec fn is_return_site(s: Superset, a: int) -> bool {
    s.spec_at(a) is Some && exists|c: int| #[trigger] returns_to(s, c, a)
}

/// The unary hints of a superset.
pub open spec fn is_unary_hint(s: Superset, k: HintKey) -> bool {
    match k.label {
        HintLabel::CtrlWeak => is_weak_branch(s, k.source_addr as int),
        HintLabel::ReturnAddr => is_return_site(s, k.source_addr as int),
        _ => false,
    }
}

/// `key` is a weak-branch hint below offset `n`.
pub open spec fn weak_below(s: Superset, n: int, k: HintKey) -> bool {
    &&& k.label == HintLabel::CtrlWeak
    &&& k.source_addr < s.base_addr + n
    &&& is_weak_branch(s, k.source_addr as int)
}

/// `key` is a return-site hint from a call below offset `n`.
pub open spec fn return_below(s: Superset, n: int, k: HintKey) -> bool {
    &&& k.label == HintLabel::ReturnAddr
    &&& s.spec_at(k.source_addr as int) is Some
    &&& exists|c: int| #[trigger]
        returns_to(s, c, k.source_addr as int) && c < s.base_addr + n
}

/// Whether the instruction at offset `o` is a weak branch.
fn weak_branch_at(s: &Superset, o: usize) -> (r: bool)
    requires
        s.wf(),
        o < s.instructions@.len(),
    ensures
        r == is_weak_branch(*s, s.base_addr + o),
{
    let insn: &Instruction = match &s.instructions[o] {
        Some(i) => i,
        None => {
            return false;
        },
    };
    proof {
        assert(s.valid(o as int));
    }
    if !insn.is_branch() {
        return false;
    }
    let target: u64 = match insn.branch_target {
        Some(t) => t,
        None => {
            return false;
        },
    };
    match s.at(target) {
        Some(target_insn) => {
            proof {
                assert(s.valid(target - s.base_addr));
            }
            let source_end: u64 = insn.address + insn.size as u64;
            let target_end: u64 = target + target_insn.size as u64;
            !(insn.address < target_end && target < source_end)
        },
        None => false,
    }
}

/// Adds a weak-branch hint at every direct branch whose target decodes and
/// does not overlap it.
pub fn extract_weak_control_flow(s: &Superset, hints: &mut Hints)
    requires
        s.wf(),
        old(hints).wf(),
    ensures
        final(hints).wf(),
        forall|k: HintKey| #[trigger]
            final(hints)@.contains(k) <==> old(hints)@.contains(k) || (k.label
                == HintLabel::CtrlWeak && is_weak_branch(*s, k.source_addr as int)),
{
    let mut o: usize = 0;
    while o < s.instructions.len()
        invariant
            o <= s.instructions@.len(),
            s.wf(),
            hints.wf(),
            forall|k: HintKey| #[trigger]
                hints@.contains(k) <==> old(hints)@.contains(k) || weak_below(*s, o as int, k),
        decreases s.instructions@.len() - o,
    {
        let ghost before = hints@;
        if weak_branch_at(s, o) {
            hints.emit_hint(s.base_addr + o as u64, HintLabel::CtrlWeak);
        }
        proof {
            assert forall|k: HintKey| #[trigger]
                hints@.contains(k) <==> old(hints)@.contains(k) || weak_below(*s, o + 1, k) by {
                assert(before.contains(k) <==> old(hints)@.contains(k) || weak_below(
                    *s,
                    o as int,
                    k,
                ));
            }
        }
        o += 1;
    }
}

/// Adds a return-address hint behind every call whose return site decodes.
pub fn extract_return_addr_hints(s: &Superset, hints: &mut Hints)
    requires
        s.wf(),
        old(hints).wf(),
    ensures
        final(hints).wf(),
        forall|k: HintKey| #[trigger]
            final(hints)@.contains(k) <==> old(hints)@.contains(k) || (k.label
                == HintLabel::ReturnAddr && is_return_site(*s, k.source_addr as int)),
{
    let mut o: usize = 0;
    while o < s.instructions.len()
        invariant
            o <= s.instructions@.len(),
            s.wf(),
            hints.wf(),
            forall|k: HintKey| #[trigger]
                hints@.contains(k) <==> old(hints)@.contains(k) || return_below(*s, o as int, k),
        decreases s.instructions@.len() - o,
    {
        let ghost before = hints@;
        let ghost here = s.base_addr + o;
        match &s.instructions[o] {
            Some(insn) => {
                proof {
                    assert(s.valid(o as int));
                }
                if insn.is_call() {
                    let ret: u64 = insn.address + insn.size as u64;
                    if s.at(ret).is_some() {
                        hints.emit_hint(ret, HintLabel::ReturnAddr);
                        proof {
                            assert(returns_to(*s, here, ret as int));
                        }
                    }
                }
            },
            None => {},
        }
        proof {
            assert forall|k: HintKey| #[trigger]
                hints@.contains(k) <==> old(hints)@.contains(k) || return_below(*s, o + 1, k) by {
                assert(before.contains(k) <==> old(hints)@.contains(k) || return_below(
                    *s,
                    o as int,
                    k,
                ));
                if return_below(*s, o + 1, k) && !return_below(*s, o as int, k) {
                    let c = choose|c: int| #[trigger]
                        returns_to(*s, c, k.source_addr as int) && c < s.base_addr + o + 1;
                    assert(c == here);
                }
            }
        }
        o += 1;
    }
    proof {
        assert forall|k: HintKey| #[trigger]
            hints@.contains(k) <==> old(hints)@.contains(k) || (k.label == HintLabel::ReturnAddr
                && is_return_site(*s, k.source_addr as int)) by {
            if is_return_site(*s, k.source_addr as int) {
                let c = choose|c: int| #[trigger] returns_to(*s, c, k.source_addr as int);
                assert(c < s.base_addr + o);
            }
        }
    }
}

/// The unary hints: weak branches and return addresses.
pub fn extract_all_hints(s: &Superset) -> (r: Hints)
    requires
        s.wf(),
    ensures
        r.wf(),
        forall|k: HintKey| #[trigger] r@.contains(k) <==> is_unary_hint(*s, k),
{
    let mut hints: Hints = Hints::new();
    extract_weak_control_flow(s, &mut hints);
    extract_return_addr_hints(s, &mut hints);
    hints
}

// ── Convergence ────────────────────────────────────────────────────────────

/// The convergence label of a branch of `size` bytes.
pub open spec fn conv_label(size: u8) -> HintLabel {
    if size == 2 {
        HintLabel::CtrlConvRel
    } else if size == 3 || size == 4 {
        HintLabel::CtrlConvNear
    } else {
        HintLabel::CtrlConvLong
    }
}

/// The crossing label of a branch of `size` bytes.
pub open spec fn cross_label(size: u8) -> HintLabel {
    if size == 2 {
        HintLabel::CtrlCrossRel
    } else if size == 3 || size == 4 {
        HintLabel::CtrlCrossNear
    } else {
        HintLabel::CtrlCrossLong
    }
}

fn conv_label_of(size: u8) -> (r: HintLabel)
    ensures
        r == conv_label(size),
{
    if size == 2 {
        HintLabel::CtrlConvRel
    } else if size == 3 || size == 4 {
        HintLabel::CtrlConvNear
    } else {
        HintLabel::CtrlConvLong
    }
}

fn cross_label_of(size: u8) -> (r: HintLabel)
    ensures
        r == cross_label(size),
{
    if size == 2 {
        HintLabel::CtrlCrossRel
    } else if size == 3 || size == 4 {
        HintLabel::CtrlCrossNear
    } else {
        HintLabel::CtrlCrossLong
    }
}

fn rate(label: HintLabel, use_dassa: bool) -> (r: Prior)
    ensures
        r == label.spec_rate(use_dassa),
{
    if use_dassa {
        label.dassa_prior()
    } else {
        label.prior()
    }
}

/// The coincidence prior of a converging branch.
pub fn conv_prior(insn: &Instruction, use_dassa: bool) -> (r: Prior)
    ensures
        r == conv_label(insn.size).spec_rate(use_dassa),
{
    rate(conv_label_of(insn.size), use_dassa)
}

/// The coincidence prior of a crossing branch.
pub fn cross_prior(insn: &Instruction, use_dassa: bool) -> (r: Prior)
    ensures
        r == cross_label(insn.size).spec_rate(use_dassa),
{
    rate(cross_label_of(insn.size), use_dassa)
}

/// The static target of the branch at offset `o`.
pub open spec fn target_at(s: Superset, o: int) -> Option<u64> {
    if s.valid(o) && s.insn(o).spec_is_branch() {
        s.insn(o).branch_target
    } else {
        None
    }
}

/// The branch targets below offset `n`, in the order in which they first occur.
pub open spec fn targets_below(s: Superset, n: int) -> Seq<u64>
    decreases n,
{
    if n <= 0 {
        Seq::empty()
    } else {
        let before = targets_below(s, n - 1);
        match target_at(s, n - 1) {
            Some(t) => if before.contains(t) {
                before
            } else {
                before.push(t)
            },
            None => before,
        }
    }
}

/// The offsets below `n` whose branch goes to `t`, in order.
pub open spec fn branches_to(s: Superset, t: u64, n: int) -> Seq<int>
    decreases n,
{
    if n <= 0 {
        Seq::empty()
    } else if target_at(s, n - 1) == Some(t) {
        branches_to(s, t, n - 1).push(n - 1)
    } else {
        branches_to(s, t, n - 1)
    }
}

/// A vector of offsets as mathematical integers.
pub open spec fn ints(v: Seq<usize>) -> Seq<int> {
    v.map_values(|x: usize| x as int)
}

/// A target is listed exactly when some branch goes there.
proof fn lemma_targets_below(s: Superset, n: int, t: u64)
    ensures
        targets_below(s, n).contains(t) <==> branches_to(s, t, n).len() > 0,
        targets_below(s, n).no_duplicates(),
    decreases n,
{
    if n > 0 {
        lemma_targets_below(s, n - 1, t);
        let before = targets_below(s, n - 1);
        let now = targets_below(s, n);
        match target_at(s, n - 1) {
            Some(u) => {
                if !before.contains(u) {
                    if before.contains(t) {
                        let i = choose|i: int| 0 <= i < before.len() && before[i] == t;
                        assert(now[i] == t);
                    }
                    if u == t {
                        assert(now[before.len() as int] == t);
                    }
                    if now.contains(t) && u != t {
                        let i = choose|i: int| 0 <= i < now.len() && now[i] == t;
                        assert(before[i] == t);
                    }
                }
            },
            None => {},
        }
    }
}

/// The offsets in a group are branches to its target, in increasing order.
proof fn lemma_branches_to(s: Superset, t: u64, n: int)
    ensures
        forall|k: int|
            0 <= k < branches_to(s, t, n).len() ==> {
                &&& 0 <= #[trigger] branches_to(s, t, n)[k] < n
                &&& target_at(s, branches_to(s, t, n)[k]) == Some(t)
            },
        forall|j: int, k: int|
            0 <= j < k < branches_to(s, t, n).len() ==> branches_to(s, t, n)[j] < branches_to(
                s,
                t,
                n,
            )[k],
        forall|o: int|
            0 <= o < n && #[trigger] target_at(s, o) == Some(t) ==> branches_to(s, t, n).contains(
                o,
            ),
    decreases n,
{
    if n > 0 {
        lemma_branches_to(s, t, n - 1);
        let before = branches_to(s, t, n - 1);
        let now = branches_to(s, t, n);
        assert forall|o: int| 0 <= o < n && #[trigger] target_at(s, o) == Some(t) implies
            now.contains(o) by {
            if o < n - 1 {
                let i = choose|i: int| 0 <= i < before.len() && before[i] == o;
                assert(now[i] == o);
            } else {
                assert(now[before.len() as int] == o);
            }
        }
    }
}

/// Branches grouped by target.
pub struct BranchGroups {
    /// The targets, in the order in which they first occur.
    pub targets: Vec<u64>,
    /// For each target the offsets of the branches to it.
    pub members: Vec<Vec<usize>>,
}

impl BranchGroups {
    /// The groups of all branches of `s` below offset `n`.
    pub open spec fn of(self, s: Superset, n: int) -> bool {
        &&& self.targets@ == targets_below(s, n)
        &&& self.members@.len() == self.targets@.len()
        &&& forall|g: int|
            0 <= g < self.members@.len() ==> ints((#[trigger] self.members@[g])@) == branches_to(
                s,
                self.targets@[g],
                n,
            )
    }
}

/// Groups the branches of a superset by target.
pub fn group_branches(s: &Superset) -> (r: BranchGroups)
    ensures
        r.of(*s, s.spec_len()),
{
    let mut index: HashMap<u64, usize> = HashMap::new();
    let mut r: BranchGroups = BranchGroups { targets: Vec::new(), members: Vec::new() };
    let mut o: usize = 0;
    while o < s.instructions.len()
        invariant
            o <= s.instructions@.len(),
            r.of(*s, o as int),
            forall|t: u64| #[trigger]
                index@.dom().contains(t) ==> index@[t] < r.targets@.len()
                    && r.targets@[index@[t] as int] == t,
            forall|g: int|
                0 <= g < r.targets@.len() ==> index@.dom().contains(#[trigger] r.targets@[g])
                    && index@[r.targets@[g]] == g,
        decreases s.instructions@.len() - o,
    {
        let ghost before = r;
        let ghost was = index@;
        let mut target: Option<u64> = None;
        if let Some(insn) = &s.instructions[o] {
            if insn.is_branch() {
                target = insn.branch_target;
            }
        }
        proof {
            assert(target == target_at(*s, o as int));
        }
        if let Some(t) = target {
            let found: Option<usize> = match index.get(&t) {
                Some(g) => Some(*g),
                None => None,
            };
            match found {
                Some(g) => {
                    proof {
                        assert(r.targets@[g as int] == t);
                    }
                    r.members[g].push(o);
                    proof {
                        assert(r.members@[g as int]@ == before.members@[g as int]@.push(o));
                        assert forall|h: int| 0 <= h < r.members@.len() implies ints(
                            (#[trigger] r.members@[h])@,
                        ) == branches_to(*s, r.targets@[h], o + 1) by {
                            if h == g {
                                assert(ints(r.members@[h]@) =~= ints(before.members@[h]@).push(
                                    o as int,
                                ));
                            } else {
                                assert(r.members@[h] == before.members@[h]);
                                assert(r.targets@[h] != t) by {
                                    assert(was[r.targets@[h]] == h);
                                }
                            }
                        }
                    }
                },
                None => {
                    proof {
                        lemma_targets_below(*s, o as int, t);
                        assert(!r.targets@.contains(t)) by {
                            if r.targets@.contains(t) {
                                let i = choose|i: int|
                                    0 <= i < r.targets@.len() && r.targets@[i] == t;
                                assert(was.dom().contains(r.targets@[i]));
                            }
                        }
                        assert(branches_to(*s, t, o as int) =~= Seq::empty());
                    }
                    index.insert(t, r.targets.len());
                    let mut fresh: Vec<usize> = Vec::new();
                    fresh.push(o);
                    r.targets.push(t);
                    r.members.push(fresh);
                    proof {
                        assert forall|h: int| 0 <= h < r.members@.len() implies ints(
                            (#[trigger] r.members@[h])@,
                        ) == branches_to(*s, r.targets@[h], o + 1) by {
                            if h < before.members@.len() {
                                assert(r.members@[h] == before.members@[h]);
                                assert(r.targets@[h] != t) by {
                                    assert(before.targets@[h] == r.targets@[h]);
                                }
                            } else {
                                assert(ints(r.members@[h]@) =~= Seq::empty().push(o as int));
                            }
                        }
                    }
                },
            }
        }
        o += 1;
    }
    r
}

/// The coincidence prior of the branch at offset `o` as one of a converging group.
pub open spec fn conv_rate(s: Superset, o: int, use_dassa: bool) -> Prior {
    conv_label(s.insn(o).size).spec_rate(use_dassa)
}

/// The pair that members `i` and `j` of a converging group form.
pub open spec fn conv_pair(s: Superset, use_dassa: bool, m: Seq<int>, i: int, j: int) -> HintPair {
    HintPair {
        addr_a: s.addr(m[i]) as u64,
        addr_b: s.addr(m[j]) as u64,
        prior_a: conv_rate(s, m[i], use_dassa),
        prior_b: conv_rate(s, m[j], use_dassa),
    }
}

/// The pairs of member `i` with the members between it and `j`.
pub open spec fn clique_row(s: Superset, use_dassa: bool, m: Seq<int>, i: int, j: int) -> Seq<
    HintPair,
>
    decreases j - i,
{
    if j <= i + 1 {
        Seq::empty()
    } else {
        clique_row(s, use_dassa, m, i, j - 1).push(conv_pair(s, use_dassa, m, i, j - 1))
    }
}

/// The pairs of the first `i` members with every later member.
pub open spec fn clique_rows(s: Superset, use_dassa: bool, m: Seq<int>, i: int) -> Seq<HintPair>
    decreases i,
{
    if i <= 0 {
        Seq::empty()
    } else {
        clique_rows(s, use_dassa, m, i - 1) + clique_row(s, use_dassa, m, i - 1, m.len() as int)
    }
}

/// Every pair of a converging group, once.
pub open spec fn clique(s: Superset, use_dassa: bool, m: Seq<int>) -> Seq<HintPair> {
    clique_rows(s, use_dassa, m, m.len() as int)
}

/// The pairs of the first `g` groups of converging branches. Once the cap is
/// reached no further group is taken up.
pub open spec fn conv_pairs(s: Superset, use_dassa: bool, g: int) -> Seq<HintPair>
    decreases g,
{
    if g <= 0 {
        Seq::empty()
    } else {
        let before = conv_pairs(s, use_dassa, g - 1);
        let m = branches_to(s, targets_below(s, s.spec_len())[g - 1], s.spec_len());
        if m.len() < 2 || before.len() >= HINT_PAIR_CAP {
            before
        } else {
            before + clique(s, use_dassa, m)
        }
    }
}

/// Adds every pair of one group of converging branches.
fn push_clique(s: &Superset, members: &Vec<usize>, use_dassa: bool, pairs: &mut Vec<HintPair>)
    requires
        s.wf(),
        members@.len() >= 2,
        forall|k: int| 0 <= k < members@.len() ==> s.valid(#[trigger] members@[k] as int),
    ensures
        final(pairs)@ == old(pairs)@ + clique(*s, use_dassa, ints(members@)),
{
    let ghost m = ints(members@);
    let n: usize = members.len();
    let mut i: usize = 0;
    proof {
        assert(pairs@ =~= old(pairs)@ + clique_rows(*s, use_dassa, m, 0));
    }
    while i < n
        invariant
            i <= n,
            n == members@.len(),
            n >= 2,
            m == ints(members@),
            s.wf(),
            forall|k: int| 0 <= k < members@.len() ==> s.valid(#[trigger] members@[k] as int),
            pairs@ == old(pairs)@ + clique_rows(*s, use_dassa, m, i as int),
        decreases n - i,
    {
        let ghost start = pairs@;
        let mut j: usize = i + 1;
        proof {
            assert(pairs@ =~= start + clique_row(*s, use_dassa, m, i as int, j as int));
        }
        while j < n
            invariant
                i < j <= n,
                n == members@.len(),
                n >= 2,
                m == ints(members@),
                s.wf(),
                forall|k: int| 0 <= k < members@.len() ==> s.valid(#[trigger] members@[k] as int),
                pairs@ == start + clique_row(*s, use_dassa, m, i as int, j as int),
            decreases n - j,
        {
            proof {
                assert(s.valid(members@[i as int] as int));
                assert(s.valid(members@[j as int] as int));
            }
            let pair: Option<HintPair> = match (
                &s.instructions[members[i]],
                &s.instructions[members[j]],
            ) {
                (Some(a), Some(b)) => Some(
                    HintPair {
                        addr_a: a.address,
                        addr_b: b.address,
                        prior_a: conv_prior(a, use_dassa),
                        prior_b: conv_prior(b, use_dassa),
                    },
                ),
                _ => None,
            };
            if let Some(p) = pair {
                pairs.push(p);
            }
            proof {
                assert(pair == Some(conv_pair(*s, use_dassa, m, i as int, j as int)));
                assert(pairs@ =~= start + clique_row(*s, use_dassa, m, i as int, j + 1));
            }
            j += 1;
        }
        proof {
            assert(pairs@ =~= old(pairs)@ + clique_rows(*s, use_dassa, m, i + 1));
        }
        i += 1;
    }
}

/// One pair for every two branches that go to the same target.
pub fn extract_conv_pairs(s: &Superset, use_dassa: bool) -> (r: Vec<HintPair>)
    requires
        s.wf(),
    ensures
        r@ == conv_pairs(*s, use_dassa, targets_below(*s, s.spec_len()).len() as int),
{
    let groups: BranchGroups = group_branches(s);
    let mut pairs: Vec<HintPair> = Vec::new();
    let mut g: usize = 0;
    while g < groups.members.len()
        invariant
            g <= groups.members@.len(),
            s.wf(),
            groups.of(*s, s.spec_len()),
            pairs@ == conv_pairs(*s, use_dassa, g as int),
        decreases groups.members@.len() - g,
    {
        let members: &Vec<usize> = &groups.members[g];
        proof {
            let t = groups.targets@[g as int];
            assert(ints(groups.members@[g as int]@) == branches_to(*s, t, s.spec_len()));
            lemma_branches_to(*s, t, s.spec_len());
            assert forall|k: int| 0 <= k < members@.len() implies s.valid(
                #[trigger] members@[k] as int,
            ) by {
                assert(ints(members@)[k] == members@[k] as int);
                assert(target_at(*s, branches_to(*s, t, s.spec_len())[k]) == Some(t));
            }
        }
        if members.len() >= 2 && pairs.len() < HINT_PAIR_CAP {
            push_clique(s, members, use_dassa, &mut pairs);
        }
        g += 1;
    }
    pairs
}

// ── Crossing ───────────────────────────────────────────────────────────────

/// Whether a branch at offset `o` ends just before address `t`.
pub open spec fn branch_ends_at(s: Superset, o: int, t: int) -> bool {
    s.valid(o) && s.insn(o).spec_is_branch() && s.insn(o).spec_end(s.addr(o)) == t
}

/// The last branch below offset `n` that ends just before address `t`.
pub open spec fn last_ending_at(s: Superset, t: int, n: int) -> Option<int>
    decreases n,
{
    if n <= 0 {
        None
    } else if branch_ends_at(s, n - 1, t) {
        Some(n - 1)
    } else {
        last_ending_at(s, t, n - 1)
    }
}

/// The offset of the branch that the branch at `o` jumps over: the last one that
/// ends just where `o` goes, unless that is `o` itself.
pub open spec fn crossed_by(s: Superset, o: int) -> Option<int> {
    match target_at(s, o) {
        Some(t) => match last_ending_at(s, t as int, s.spec_len()) {
            Some(p) => if p == o {
                None
            } else {
                Some(p)
            },
            None => None,
        },
        None => None,
    }
}

/// The coincidence prior of the branch at offset `o` as one of a crossing pair.
pub open spec fn cross_rate(s: Superset, o: int, use_dassa: bool) -> Prior {
    cross_label(s.insn(o).size).spec_rate(use_dassa)
}

/// The crossing pairs of the branches below offset `n`.
pub open spec fn cross_pairs(s: Superset, use_dassa: bool, n: int) -> Seq<HintPair>
    decreases n,
{
    if n <= 0 {
        Seq::empty()
    } else {
        let before = cross_pairs(s, use_dassa, n - 1);
        match crossed_by(s, n - 1) {
            Some(p) => before.push(
                HintPair {
                    addr_a: s.addr(n - 1) as u64,
                    addr_b: s.addr(p) as u64,
                    prior_a: cross_rate(s, n - 1, use_dassa),
                    prior_b: cross_rate(s, p, use_dassa),
                },
            ),
            None => before,
        }
    }
}

/// What [`last_ending_at`] finds ends there, lies below `n`, and nothing after
/// it does.
proof fn lemma_last_ending_at(s: Superset, t: int, n: int)
    ensures
        match last_ending_at(s, t, n) {
            Some(p) => {
                &&& 0 <= p < n
                &&& branch_ends_at(s, p, t)
                &&& forall|q: int| p < q < n ==> !branch_ends_at(s, q, t)
            },
            None => forall|q: int| 0 <= q < n ==> !branch_ends_at(s, q, t),
        },
    decreases n,
{
    if n > 0 {
        lemma_last_ending_at(s, t, n - 1);
    }
}

/// For each address the last branch that ends there.
fn branch_ends(s: &Superset) -> (r: HashMap<u64, usize>)
    requires
        s.wf(),
    ensures
        forall|t: u64| #[trigger]
            r@.dom().contains(t) <==> last_ending_at(*s, t as int, s.spec_len()) is Some,
        forall|t: u64| #[trigger]
            r@.dom().contains(t) ==> last_ending_at(*s, t as int, s.spec_len()) == Some(
                r@[t] as int,
            ),
{
    let mut ends: HashMap<u64, usize> = HashMap::new();
    let mut o: usize = 0;
    while o < s.instructions.len()
        invariant
            o <= s.instructions@.len(),
            s.wf(),
            forall|t: u64| #[trigger]
                ends@.dom().contains(t) <==> last_ending_at(*s, t as int, o as int) is Some,
            forall|t: u64| #[trigger]
                ends@.dom().contains(t) ==> last_ending_at(*s, t as int, o as int) == Some(
                    ends@[t] as int,
                ),
        decreases s.instructions@.len() - o,
    {
        if let Some(insn) = &s.instructions[o] {
            proof {
                assert(s.valid(o as int));
            }
            if insn.is_branch() {
                ends.insert(insn.address + insn.size as u64, o);
            }
        }
        o += 1;
    }
    ends
}

/// One pair for every branch that lands just behind another branch.
pub fn extract_cross_pairs(s: &Superset, use_dassa: bool) -> (r: Vec<HintPair>)
    requires
        s.wf(),
    ensures
        r@ == cross_pairs(*s, use_dassa, s.spec_len()),
{
    let ends: HashMap<u64, usize> = branch_ends(s);
    let mut pairs: Vec<HintPair> = Vec::new();
    let mut o: usize = 0;
    while o < s.instructions.len()
        invariant
            o <= s.instructions@.len(),
            s.wf(),
            forall|t: u64| #[trigger]
                ends@.dom().contains(t) <==> last_ending_at(*s, t as int, s.spec_len()) is Some,
            forall|t: u64| #[trigger]
                ends@.dom().contains(t) ==> last_ending_at(*s, t as int, s.spec_len()) == Some(
                    ends@[t] as int,
                ),
            pairs@ == cross_pairs(*s, use_dassa, o as int),
        decreases s.instructions@.len() - o,
    {
        if let Some(p) = cross_partner(s, &ends, o) {
            proof {
                assert(s.valid(o as int));
                assert(s.valid(p as int));
            }
            if let (Some(a), Some(b)) = (&s.instructions[o], &s.instructions[p]) {
                pairs.push(
                    HintPair {
                        addr_a: a.address,
                        addr_b: b.address,
                        prior_a: cross_prior(a, use_dassa),
                        prior_b: cross_prior(b, use_dassa),
                    },
                );
            }
        }
        o += 1;
    }
    pairs
}

/// The branch that the branch at offset `o` jumps over, if there is one.
fn cross_partner(s: &Superset, ends: &HashMap<u64, usize>, o: usize) -> (r: Option<usize>)
    requires
        s.wf(),
        o < s.instructions@.len(),
        forall|t: u64| #[trigger]
            ends@.dom().contains(t) <==> last_ending_at(*s, t as int, s.spec_len()) is Some,
        forall|t: u64| #[trigger]
            ends@.dom().contains(t) ==> last_ending_at(*s, t as int, s.spec_len()) == Some(
                ends@[t] as int,
            ),
    ensures
        match r {
            Some(p) => crossed_by(*s, o as int) == Some(p as int) && s.valid(o as int) && s.valid(
                p as int,
            ),
            None => crossed_by(*s, o as int) is None,
        },
{
    let insn: &Instruction = match &s.instructions[o] {
        Some(i) => i,
        None => {
            return None;
        },
    };
    if !insn.is_branch() {
        return None;
    }
    let target: u64 = match insn.branch_target {
        Some(t) => t,
        None => {
            return None;
        },
    };
    proof {
        lemma_last_ending_at(*s, target as int, s.spec_len());
        assert(ends@.dom().contains(target) <==> last_ending_at(*s, target as int, s.spec_len())
            is Some);
    }
    match ends.get(&target) {
        Some(p) => {
            if *p == o {
                None
            } else {
                Some(*p)
            }
        },
        None => None,
    }
}

// ── Def-use ────────────────────────────────────────────────────────────────

/// Whether the instruction at `a` reads `reg`.
pub open spec fn reads(s: Superset, a: int, reg: u16) -> bool {
    s.spec_at(a) matches Some(i) && i.regs_read@.contains(reg)
}

/// Whether the instruction at `a` writes `reg`.
pub open spec fn writes(s: Superset, a: int, reg: u16) -> bool {
    s.spec_at(a) matches Some(i) && i.regs_write@.contains(reg)
}

/// Addresses to visit, each with the number of steps that may still be taken.
pub open spec fn frames(succ: Seq<u64>, steps: int) -> Seq<(u64, usize)> {
    Seq::new(succ.len(), |k: int| (succ[k], steps as usize))
}

spec fn pow3(n: nat) -> nat
    decreases n,
{
    if n == 0 {
        1
    } else {
        3 * pow3((n - 1) as nat)
    }
}

/// Bounds the work that a stack of frames can still cause.
pub closed spec fn work(stack: Seq<(u64, usize)>) -> nat
    decreases stack.len(),
{
    if stack.len() == 0 {
        0
    } else {
        work(stack.drop_last()) + pow3(stack.last().1 as nat)
    }
}

proof fn lemma_pow3_positive(n: nat)
    ensures
        pow3(n) >= 1,
    decreases n,
{
    if n > 0 {
        lemma_pow3_positive((n - 1) as nat);
    }
}

/// Popping a frame and pushing at most two that may go one step less leaves
/// less work.
pub proof fn lemma_work_shrinks(stack: Seq<(u64, usize)>, succ: Seq<u64>)
    requires
        stack.len() > 0,
        succ.len() <= 2,
    ensures
        work(stack.drop_last()) < work(stack),
        stack.last().1 > 0 ==> work(stack.drop_last() + frames(succ, stack.last().1 - 1)) < work(
            stack,
        ),
{
    let rem = stack.last().1;
    let rest = stack.drop_last();
    lemma_pow3_positive(rem as nat);
    if rem > 0 {
        lemma_pow3_positive((rem - 1) as nat);
        let f = frames(succ, rem - 1);
        let all = rest + f;
        assert(pow3(rem as nat) == 3 * pow3((rem - 1) as nat));
        if succ.len() == 0 {
            assert(all =~= rest);
        } else if succ.len() == 1 {
            assert(all.drop_last() =~= rest);
            assert(all.last().1 == rem - 1);
        } else {
            let one = all.drop_last();
            assert(one.drop_last() =~= rest);
            assert(all.last().1 == rem - 1 && one.last().1 == rem - 1);
            assert(work(one) == work(rest) + pow3((rem - 1) as nat));
        }
    }
}

/// The uses of `reg` that a depth-first walk meets, in the order in which it
/// meets them. The walk visits no address twice; it ends a branch of the search
/// at a use, at a redefinition and where the steps run out.
pub open spec fn use_walk(
    s: Superset,
    reg: u16,
    stack: Seq<(u64, usize)>,
    visited: Set<u64>,
) -> Seq<u64>
    decreases work(stack),
{
    if stack.len() == 0 {
        Seq::empty()
    } else {
        let a = stack.last().0;
        let rem = stack.last().1;
        let rest = stack.drop_last();
        let succ = s.successors(a as int);
        proof {
            lemma_work_shrinks(stack, succ);
        }
        if rem == 0 || visited.contains(a) {
            use_walk(s, reg, rest, visited)
        } else if s.spec_at(a as int) is None {
            use_walk(s, reg, rest, visited.insert(a))
        } else if reads(s, a as int, reg) {
            seq![a] + use_walk(s, reg, rest, visited.insert(a))
        } else if writes(s, a as int, reg) {
            use_walk(s, reg, rest, visited.insert(a))
        } else {
            use_walk(s, reg, rest + frames(succ, rem - 1), visited.insert(a))
        }
    }
}

/// The uses of `reg` that a walk from its definition at `def` meets.
pub open spec fn uses_from(s: Superset, def: u64, reg: u16) -> Seq<u64> {
    use_walk(s, reg, frames(s.successors(def as int), MAX_WALK_DEPTH as int), Set::empty())
}

/// Whether `regs` lists `reg`.
fn lists_reg(regs: &Vec<u16>, reg: u16) -> (r: bool)
    ensures
        r == regs@.contains(reg),
{
    let mut k: usize = 0;
    while k < regs.len()
        invariant
            k <= regs@.len(),
            forall|j: int| 0 <= j < k ==> regs@[j] != reg,
        decreases regs@.len() - k,
    {
        if regs[k] == reg {
            return true;
        }
        k += 1;
    }
    false
}

/// Pushes a frame for every address in `succ`.
fn push_frames(stack: &mut Vec<(u64, usize)>, succ: &Vec<u64>, steps: usize)
    ensures
        final(stack)@ == old(stack)@ + frames(succ@, steps as int),
{
    let mut k: usize = 0;
    proof {
        assert(stack@ =~= old(stack)@ + frames(succ@, steps as int).take(0));
    }
    while k < succ.len()
        invariant
            k <= succ@.len(),
            stack@ == old(stack)@ + frames(succ@, steps as int).take(k as int),
        decreases succ@.len() - k,
    {
        stack.push((succ[k], steps));
        proof {
            assert(stack@ =~= old(stack)@ + frames(succ@, steps as int).take(k + 1));
        }
        k += 1;
    }
    proof {
        assert(frames(succ@, steps as int).take(k as int) =~= frames(succ@, steps as int));
    }
}

/// Walks forward from the definition of `reg` at `def` and collects its uses.
pub fn walk_for_uses(s: &Superset, def: u64, reg: u16) -> (r: Vec<u64>)
    requires
        s.wf(),
    ensures
        r@ == uses_from(*s, def, reg),
{
    let mut uses: Vec<u64> = Vec::new();
    let mut visited: HashSet<u64> = HashSet::new();
    let mut stack: Vec<(u64, usize)> = Vec::new();
    let first: Vec<u64> = s.successors_of(def);
    push_frames(&mut stack, &first, MAX_WALK_DEPTH);
    proof {
        assert(stack@ =~= frames(s.successors(def as int), MAX_WALK_DEPTH as int));
        assert(visited@ =~= Set::empty());
        assert(uses_from(*s, def, reg) =~= uses@ + use_walk(*s, reg, stack@, visited@));
    }
    while stack.len() > 0
        invariant
            s.wf(),
            uses_from(*s, def, reg) == uses@ + use_walk(*s, reg, stack@, visited@),
        decreases work(stack@),
    {
        let ghost whole = stack@;
        let ghost seen = visited@;
        let ghost found = uses@;
        if let Some((addr, rem)) = stack.pop() {
            proof {
                assert(whole.last() == (addr, rem));
                assert(stack@ =~= whole.drop_last());
                lemma_work_shrinks(whole, s.successors(addr as int));
            }
            if rem > 0 && !visited.contains(&addr) {
                visited.insert(addr);
                if let Some(insn) = s.at(addr) {
                    if lists_reg(&insn.regs_read, reg) {
                        uses.push(addr);
                        proof {
                            let tail = use_walk(*s, reg, stack@, visited@);
                            assert(found + (seq![addr] + tail) =~= uses@ + tail);
                        }
                    } else if !lists_reg(&insn.regs_write, reg) {
                        let succ: Vec<u64> = s.successors_of(addr);
                        push_frames(&mut stack, &succ, rem - 1);
                    }
                }
            }
        }
    }
    proof {
        assert(uses@ + Seq::<u64>::empty() =~= uses@);
    }
    uses
}

/// The pairs of the definition at `def` with each of `uses`.
pub open spec fn use_pairs(def: u64, uses: Seq<u64>) -> Seq<HintPair> {
    Seq::new(
        uses.len(),
        |k: int|
            HintPair {
                addr_a: def,
                addr_b: uses[k],
                prior_a: HintLabel::RegDefUse.spec_prior(),
                prior_b: HintLabel::RegDefUse.spec_prior(),
            },
    )
}

/// `pairs` followed by as much of `more` as fits below the cap.
pub open spec fn top_up(pairs: Seq<HintPair>, more: Seq<HintPair>) -> Seq<HintPair> {
    if pairs.len() >= HINT_PAIR_CAP {
        pairs
    } else if pairs.len() + more.len() <= HINT_PAIR_CAP {
        pairs + more
    } else {
        (pairs + more).take(HINT_PAIR_CAP as int)
    }
}

proof fn lemma_top_up_twice(p: Seq<HintPair>, a: Seq<HintPair>, b: Seq<HintPair>)
    ensures
        top_up(top_up(p, a), b) == top_up(p, a + b),
{
    assert(top_up(top_up(p, a), b) =~= top_up(p, a + b));
}

/// The def-use pairs of the first `k` registers that the instruction at offset
/// `o` writes.
pub open spec fn def_pairs(s: Superset, o: int, k: int) -> Seq<HintPair>
    decreases k,
{
    if k <= 0 {
        Seq::empty()
    } else {
        let def = s.addr(o) as u64;
        def_pairs(s, o, k - 1) + use_pairs(def, uses_from(s, def, s.insn(o).regs_write@[k - 1]))
    }
}

/// The def-use pairs of all definitions below offset `n`.
pub open spec fn def_use_pairs(s: Superset, n: int) -> Seq<HintPair>
    decreases n,
{
    if n <= 0 {
        Seq::empty()
    } else if s.valid(n - 1) {
        def_use_pairs(s, n - 1) + def_pairs(s, n - 1, s.insn(n - 1).regs_write@.len() as int)
    } else {
        def_use_pairs(s, n - 1)
    }
}

/// Adds the pairs of one definition with its uses, as far as the cap allows.
pub fn walk_for_use_pairs(s: &Superset, def: u64, reg: u16, pairs: &mut Vec<HintPair>)
    requires
        s.wf(),
    ensures
        final(pairs)@ == top_up(old(pairs)@, use_pairs(def, uses_from(*s, def, reg))),
{
    if pairs.len() >= HINT_PAIR_CAP {
        return;
    }
    let uses: Vec<u64> = walk_for_uses(s, def, reg);
    let prior: Prior = HintLabel::RegDefUse.prior();
    let ghost more = use_pairs(def, uses@);
    let mut k: usize = 0;
    proof {
        assert(pairs@ =~= top_up(old(pairs)@, more.take(0)));
    }
    while k < uses.len()
        invariant
            k <= uses@.len(),
            more == use_pairs(def, uses@),
            prior == HintLabel::RegDefUse.spec_prior(),
            old(pairs)@.len() < HINT_PAIR_CAP,
            pairs@ == top_up(old(pairs)@, more.take(k as int)),
        decreases uses@.len() - k,
    {
        if pairs.len() < HINT_PAIR_CAP {
            pairs.push(
                HintPair {
                    addr_a: def,
                    addr_b: uses[k],
                    prior_a: prior,
                    prior_b: prior,
                },
            );
        }
        proof {
            assert(pairs@ =~= top_up(old(pairs)@, more.take(k + 1)));
        }
        k += 1;
    }
    proof {
        assert(more.take(k as int) =~= more);
    }
}

/// Adds the pairs of every register definition with its uses, as far as the cap
/// allows.
pub fn extract_def_use_pairs(s: &Superset, pairs: &mut Vec<HintPair>)
    requires
        s.wf(),
    ensures
        final(pairs)@ == top_up(old(pairs)@, def_use_pairs(*s, s.spec_len())),
{
    let mut o: usize = 0;
    proof {
        assert(pairs@ =~= top_up(old(pairs)@, def_use_pairs(*s, 0)));
    }
    while o < s.instructions.len()
        invariant
            o <= s.instructions@.len(),
            s.wf(),
            pairs@ == top_up(old(pairs)@, def_use_pairs(*s, o as int)),
        decreases s.instructions@.len() - o,
    {
        if let Some(insn) = &s.instructions[o] {
            proof {
                assert(s.valid(o as int));
            }
            let ghost start = pairs@;
            let mut k: usize = 0;
            proof {
                assert(pairs@ =~= top_up(start, def_pairs(*s, o as int, 0)));
            }
            while k < insn.regs_write.len()
                invariant
                    k <= insn.regs_write@.len(),
                    s.wf(),
                    s.valid(o as int),
                    *insn == s.insn(o as int),
                    pairs@ == top_up(start, def_pairs(*s, o as int, k as int)),
                decreases insn.regs_write@.len() - k,
            {
                walk_for_use_pairs(s, insn.address, insn.regs_write[k], pairs);
                proof {
                    lemma_top_up_twice(
                        start,
                        def_pairs(*s, o as int, k as int),
                        use_pairs(
                            insn.address,
                            uses_from(*s, insn.address, insn.regs_write@[k as int]),
                        ),
                    );
                }
                k += 1;
            }
            proof {
                lemma_top_up_twice(
                    old(pairs)@,
                    def_use_pairs(*s, o as int),
                    def_pairs(*s, o as int, k as int),
                );
            }
        }
        o += 1;
    }
}

/// The relational hints: converging branches, crossing branches, and register
/// definitions with their uses. The last stop at the cap.
pub open spec fn hint_pairs(s: Superset, use_dassa: bool) -> Seq<HintPair> {
    top_up(
        conv_pairs(s, use_dassa, targets_below(s, s.spec_len()).len() as int) + cross_pairs(
            s,
            use_dassa,
            s.spec_len(),
        ),
        def_use_pairs(s, s.spec_len()),
    )
}

/// The relational hints with the assumed coincidence priors.
pub fn extract_hint_pairs(s: &Superset) -> (r: Vec<HintPair>)
    requires
        s.wf(),
    ensures
        r@ == hint_pairs(*s, false),
{
    extract_hint_pairs_with(s, false)
}

/// The relational hints. `use_dassa` selects the measured priors for the
/// control-flow pairs; def-use pairs are the same either way.
pub fn extract_hint_pairs_with(s: &Superset, use_dassa: bool) -> (r: Vec<HintPair>)
    requires
        s.wf(),
    ensures
        r@ == hint_pairs(*s, use_dassa),
{
    let mut pairs: Vec<HintPair> = extract_conv_pairs(s, use_dassa);
    let mut cross: Vec<HintPair> = extract_cross_pairs(s, use_dassa);
    pairs.append(&mut cross);
    extract_def_use_pairs(s, &mut pairs);
    pairs
}

// ── All families as unary hints ────────────────────────────────────────────

/// A branch that shares its target with another one.
pub open spec fn is_conv_hint(s: Superset, k: HintKey) -> bool {
    let o = k.source_addr - s.base_addr;
    match target_at(s, o) {
        Some(t) => branches_to(s, t, s.spec_len()).len() >= 2 && k.label == conv_label(
            s.insn(o).size,
        ),
        None => false,
    }
}

/// `k` marks the branch at offset `o`, which jumps over another, or that other.
pub open spec fn marks_crossing(s: Superset, o: int, k: HintKey) -> bool {
    crossed_by(s, o) matches Some(p) && {
        ||| k.source_addr == s.addr(o) && k.label == cross_label(s.insn(o).size)
        ||| k.source_addr == s.addr(p) && k.label == cross_label(s.insn(p).size)
    }
}

/// A branch that jumps over another, or that another jumps over.
pub open spec fn is_cross_hint(s: Superset, k: HintKey) -> bool {
    exists|o: int| #[trigger] marks_crossing(s, o, k)
}

/// `k` marks `def`, which has one of `uses`, or one of them.
pub open spec fn marks_use(def: u64, uses: Seq<u64>, k: HintKey) -> bool {
    &&& k.label == HintLabel::RegDefUse
    &&& uses.len() > 0
    &&& k.source_addr == def || uses.contains(k.source_addr)
}

/// `k` marks the definition at offset `o` of the `r`-th register it writes, or a
/// use of it.
pub open spec fn marks_def_use(s: Superset, o: int, r: int, k: HintKey) -> bool {
    &&& s.valid(o)
    &&& 0 <= r < s.insn(o).regs_write@.len()
    &&& marks_use(
        s.addr(o) as u64,
        uses_from(s, s.addr(o) as u64, s.insn(o).regs_write@[r]),
        k,
    )
}

/// A register definition with a use, or such a use.
pub open spec fn is_def_use_hint(s: Superset, k: HintKey) -> bool {
    exists|o: int, r: int| #[trigger] marks_def_use(s, o, r, k)
}

/// The hints of all families but the return addresses, each as a unary hint.
pub open spec fn is_legacy_hint(s: Superset, k: HintKey) -> bool {
    ||| is_conv_hint(s, k)
    ||| is_cross_hint(s, k)
    ||| k.label == HintLabel::CtrlWeak && is_weak_branch(s, k.source_addr as int)
    ||| is_def_use_hint(s, k)
}

/// How many branches go to each target.
fn target_counts(s: &Superset) -> (r: HashMap<u64, usize>)
    ensures
        forall|t: u64| #[trigger]
            r@.dom().contains(t) <==> branches_to(*s, t, s.spec_len()).len() > 0,
        forall|t: u64| #[trigger]
            r@.dom().contains(t) ==> r@[t] == branches_to(*s, t, s.spec_len()).len(),
{
    let mut counts: HashMap<u64, usize> = HashMap::new();
    let n: usize = s.instructions.len();
    let mut o: usize = 0;
    while o < n
        invariant
            o <= n,
            n == s.instructions@.len(),
            forall|t: u64| #[trigger]
                counts@.dom().contains(t) <==> branches_to(*s, t, o as int).len() > 0,
            forall|t: u64| #[trigger]
                counts@.dom().contains(t) ==> counts@[t] == branches_to(*s, t, o as int).len()
                    && counts@[t] <= o,
        decreases n - o,
    {
        let ghost was = counts@;
        let mut target: Option<u64> = None;
        if let Some(insn) = &s.instructions[o] {
            if insn.is_branch() {
                target = insn.branch_target;
            }
        }
        proof {
            assert(target == target_at(*s, o as int));
        }
        if let Some(t) = target {
            let c: usize = match counts.get(&t) {
                Some(c) => *c,
                None => 0,
            };
            proof {
                assert(was.dom().contains(t) <==> branches_to(*s, t, o as int).len() > 0);
            }
            counts.insert(t, c + 1);
        }
        o += 1;
    }
    counts
}

/// Adds a hint at every branch that shares its target with another one.
fn emit_conv_hints(s: &Superset, hints: &mut Hints)
    requires
        s.wf(),
        old(hints).wf(),
    ensures
        final(hints).wf(),
        forall|k: HintKey| #[trigger]
            final(hints)@.contains(k) <==> old(hints)@.contains(k) || is_conv_hint(*s, k),
{
    let counts: HashMap<u64, usize> = target_counts(s);
    let mut o: usize = 0;
    while o < s.instructions.len()
        invariant
            o <= s.instructions@.len(),
            s.wf(),
            hints.wf(),
            forall|t: u64| #[trigger]
                counts@.dom().contains(t) <==> branches_to(*s, t, s.spec_len()).len() > 0,
            forall|t: u64| #[trigger]
                counts@.dom().contains(t) ==> counts@[t] == branches_to(
                    *s,
                    t,
                    s.spec_len(),
                ).len(),
            forall|k: HintKey| #[trigger]
                hints@.contains(k) <==> old(hints)@.contains(k) || (is_conv_hint(*s, k)
                    && k.source_addr < s.base_addr + o),
        decreases s.instructions@.len() - o,
    {
        let ghost before = hints@;
        let ghost here = s.base_addr + o;
        match &s.instructions[o] {
            Some(insn) => {
                proof {
                    assert(s.valid(o as int));
                }
                if insn.is_branch() {
                    if let Some(t) = insn.branch_target {
                        proof {
                            assert(counts@.dom().contains(t) <==> branches_to(
                                *s,
                                t,
                                s.spec_len(),
                            ).len() > 0);
                        }
                        let c: usize = match counts.get(&t) {
                            Some(c) => *c,
                            None => 0,
                        };
                        if c >= 2 {
                            hints.emit_hint(insn.address, conv_label_of(insn.size));
                        }
                    }
                }
            },
            None => {},
        }
        proof {
            assert forall|k: HintKey| #[trigger]
                hints@.contains(k) <==> old(hints)@.contains(k) || (is_conv_hint(*s, k)
                    && k.source_addr < s.base_addr + o + 1) by {
                assert(before.contains(k) <==> old(hints)@.contains(k) || (is_conv_hint(*s, k)
                    && k.source_addr < s.base_addr + o));
            }
        }
        o += 1;
    }
}

/// Adds a hint at both ends of every crossing.
fn emit_cross_hints(s: &Superset, hints: &mut Hints)
    requires
        s.wf(),
        old(hints).wf(),
    ensures
        final(hints).wf(),
        forall|k: HintKey| #[trigger]
            final(hints)@.contains(k) <==> old(hints)@.contains(k) || is_cross_hint(*s, k),
{
    let ends: HashMap<u64, usize> = branch_ends(s);
    let mut o: usize = 0;
    while o < s.instructions.len()
        invariant
            o <= s.instructions@.len(),
            s.wf(),
            hints.wf(),
            forall|t: u64| #[trigger]
                ends@.dom().contains(t) <==> last_ending_at(*s, t as int, s.spec_len()) is Some,
            forall|t: u64| #[trigger]
                ends@.dom().contains(t) ==> last_ending_at(*s, t as int, s.spec_len()) == Some(
                    ends@[t] as int,
                ),
            forall|k: HintKey| #[trigger]
                hints@.contains(k) <==> old(hints)@.contains(k) || exists|q: int|
                    0 <= q < o && #[trigger] marks_crossing(*s, q, k),
        decreases s.instructions@.len() - o,
    {
        let ghost before = hints@;
        if let Some(p) = cross_partner(s, &ends, o) {
            if let (Some(a), Some(b)) = (&s.instructions[o], &s.instructions[p]) {
                proof {
                    assert(s.valid(o as int) && s.valid(p as int));
                }
                hints.emit_hint(a.address, cross_label_of(a.size));
                hints.emit_hint(b.address, cross_label_of(b.size));
            }
        }
        proof {
            assert forall|k: HintKey| #[trigger]
                hints@.contains(k) <==> old(hints)@.contains(k) || exists|q: int|
                    0 <= q < o + 1 && #[trigger] marks_crossing(*s, q, k) by {
                assert(before.contains(k) <==> old(hints)@.contains(k) || exists|q: int|
                    0 <= q < o && #[trigger] marks_crossing(*s, q, k));
                assert(hints@.contains(k) <==> before.contains(k) || marks_crossing(
                    *s,
                    o as int,
                    k,
                ));
            }
        }
        o += 1;
    }
    proof {
        assert forall|k: HintKey| #[trigger]
            hints@.contains(k) <==> old(hints)@.contains(k) || is_cross_hint(*s, k) by {
            if is_cross_hint(*s, k) {
                let q = choose|q: int| #[trigger] marks_crossing(*s, q, k);
                assert(0 <= q < o);
            }
        }
    }
}

/// Adds a hint at `def` and at each use of `reg` that a walk from there meets.
fn emit_use_hints(s: &Superset, def: u64, reg: u16, hints: &mut Hints)
    requires
        s.wf(),
        old(hints).wf(),
    ensures
        final(hints).wf(),
        forall|k: HintKey| #[trigger]
            final(hints)@.contains(k) <==> old(hints)@.contains(k) || marks_use(
                def,
                uses_from(*s, def, reg),
                k,
            ),
{
    let uses: Vec<u64> = walk_for_uses(s, def, reg);
    if uses.len() == 0 {
        return;
    }
    hints.emit_hint(def, HintLabel::RegDefUse);
    let mut j: usize = 0;
    while j < uses.len()
        invariant
            j <= uses@.len(),
            uses@.len() > 0,
            hints.wf(),
            forall|k: HintKey| #[trigger]
                hints@.contains(k) <==> old(hints)@.contains(k) || (k.label
                    == HintLabel::RegDefUse && (k.source_addr == def || exists|i: int|
                    0 <= i < j && #[trigger] uses@[i] == k.source_addr)),
        decreases uses@.len() - j,
    {
        hints.emit_hint(uses[j], HintLabel::RegDefUse);
        j += 1;
    }
}

/// Adds a hint at every register definition that has a use, and at each use.
fn emit_def_use_hints(s: &Superset, hints: &mut Hints)
    requires
        s.wf(),
        old(hints).wf(),
    ensures
        final(hints).wf(),
        forall|k: HintKey| #[trigger]
            final(hints)@.contains(k) <==> old(hints)@.contains(k) || is_def_use_hint(*s, k),
{
    let mut o: usize = 0;
    while o < s.instructions.len()
        invariant
            o <= s.instructions@.len(),
            s.wf(),
            hints.wf(),
            forall|k: HintKey| #[trigger]
                hints@.contains(k) <==> old(hints)@.contains(k) || exists|q: int, r: int|
                    0 <= q < o && #[trigger] marks_def_use(*s, q, r, k),
        decreases s.instructions@.len() - o,
    {
        let ghost before = hints@;
        if let Some(insn) = &s.instructions[o] {
            proof {
                assert(s.valid(o as int));
            }
            let mut r: usize = 0;
            while r < insn.regs_write.len()
                invariant
                    r <= insn.regs_write@.len(),
                    s.wf(),
                    s.valid(o as int),
                    *insn == s.insn(o as int),
                    hints.wf(),
                    forall|k: HintKey| #[trigger]
                        hints@.contains(k) <==> before.contains(k) || exists|q: int|
                            0 <= q < r && #[trigger] marks_def_use(*s, o as int, q, k),
                decreases insn.regs_write@.len() - r,
            {
                let ghost start = hints@;
                emit_use_hints(s, insn.address, insn.regs_write[r], hints);
                proof {
                    assert forall|k: HintKey| #[trigger]
                        hints@.contains(k) <==> before.contains(k) || exists|q: int|
                            0 <= q < r + 1 && #[trigger] marks_def_use(*s, o as int, q, k) by {
                        assert(hints@.contains(k) <==> start.contains(k) || marks_def_use(
                            *s,
                            o as int,
                            r as int,
                            k,
                        ));
                        assert(start.contains(k) <==> before.contains(k) || exists|q: int|
                            0 <= q < r && #[trigger] marks_def_use(*s, o as int, q, k));
                    }
                }
                r += 1;
            }
        }
        proof {
            assert forall|k: HintKey| #[trigger]
                hints@.contains(k) <==> old(hints)@.contains(k) || exists|q: int, r: int|
                    0 <= q < o + 1 && #[trigger] marks_def_use(*s, q, r, k) by {
                assert(before.contains(k) <==> old(hints)@.contains(k) || exists|q: int, r: int|
                    0 <= q < o && #[trigger] marks_def_use(*s, q, r, k));
            }
        }
        o += 1;
    }
    proof {
        assert forall|k: HintKey| #[trigger]
            hints@.contains(k) <==> old(hints)@.contains(k) || is_def_use_hint(*s, k) by {
            if is_def_use_hint(*s, k) {
                let (q, r) = choose|q: int, r: int| #[trigger] marks_def_use(*s, q, r, k);
                assert(0 <= q < o);
            }
        }
    }
}

/// All four relational and weak families as independent unary hints, with no
/// cap. Kept for comparison with the relational form.
pub fn extract_all_hints_legacy(s: &Superset) -> (r: Hints)
    requires
        s.wf(),
    ensures
        r.wf(),
        forall|k: HintKey| #[trigger] r@.contains(k) <==> is_legacy_hint(*s, k),
{
    let mut hints: Hints = Hints::new();
    emit_conv_hints(s, &mut hints);
    emit_cross_hints(s, &mut hints);
    extract_weak_control_flow(s, &mut hints);
    emit_def_use_hints(s, &mut hints);
    hints
}

// ── Laws ───────────────────────────────────────────────────────────────────

proof fn lemma_clique_row(s: Superset, use_dassa: bool, m: Seq<int>, i: int, j: int)
    requires
        0 <= i,
        i + 1 <= j,
    ensures
        clique_row(s, use_dassa, m, i, j).len() == j - i - 1,
        forall|k: int|
            i < k < j ==> #[trigger] conv_pair(s, use_dassa, m, i, k) == clique_row(
                s,
                use_dassa,
                m,
                i,
                j,
            )[k - i - 1],
    decreases j - i,
{
    if j > i + 1 {
        lemma_clique_row(s, use_dassa, m, i, j - 1);
    }
}

proof fn lemma_clique_rows(s: Superset, use_dassa: bool, m: Seq<int>, i: int)
    requires
        0 <= i <= m.len(),
    ensures
        2 * clique_rows(s, use_dassa, m, i).len() == i * (2 * m.len() - i - 1),
        forall|a: int, b: int|
            0 <= a < i && a < b < m.len() ==> clique_rows(s, use_dassa, m, i).contains(
                #[trigger] conv_pair(s, use_dassa, m, a, b),
            ),
    decreases i,
{
    if i > 0 {
        let before = clique_rows(s, use_dassa, m, i - 1);
        let row = clique_row(s, use_dassa, m, i - 1, m.len() as int);
        let now = clique_rows(s, use_dassa, m, i);
        lemma_clique_rows(s, use_dassa, m, i - 1);
        lemma_clique_row(s, use_dassa, m, i - 1, m.len() as int);
        let n = m.len() as int;
        assert(i * (2 * n - i - 1) == (i - 1) * (2 * n - (i - 1) - 1) + 2 * (n - i))
            by (nonlinear_arith);
        assert forall|a: int, b: int| 0 <= a < i && a < b < m.len() implies now.contains(
            #[trigger] conv_pair(s, use_dassa, m, a, b),
        ) by {
            let p = conv_pair(s, use_dassa, m, a, b);
            if a < i - 1 {
                assert(before.contains(p));
                let x = choose|x: int| 0 <= x < before.len() && before[x] == p;
                assert(now[x] == p);
            } else {
                assert(row[b - a - 1] == p);
                assert(now[before.len() + (b - a - 1)] == p);
            }
        }
    }
}

/// A group of `k` converging branches yields `k * (k - 1) / 2` pairs, and every
/// two members are among them.
pub proof fn law_clique_covers_every_pair(s: Superset, use_dassa: bool, m: Seq<int>)
    ensures
        2 * clique(s, use_dassa, m).len() == m.len() * (m.len() - 1),
        forall|i: int, j: int|
            0 <= i < j < m.len() ==> clique(s, use_dassa, m).contains(
                #[trigger] conv_pair(s, use_dassa, m, i, j),
            ),
{
    lemma_clique_rows(s, use_dassa, m, m.len() as int);
    let n = m.len() as int;
    assert(n * (2 * n - n - 1) == n * (n - 1)) by (nonlinear_arith);
}

proof fn lemma_conv_pairs_grow(s: Superset, use_dassa: bool, g: int, h: int)
    requires
        0 <= g <= h,
    ensures
        conv_pairs(s, use_dassa, g).len() <= conv_pairs(s, use_dassa, h).len(),
        forall|p: HintPair|
            conv_pairs(s, use_dassa, g).contains(p) ==> #[trigger] conv_pairs(
                s,
                use_dassa,
                h,
            ).contains(p),
    decreases h - g,
{
    if g < h {
        lemma_conv_pairs_grow(s, use_dassa, g, h - 1);
        let before = conv_pairs(s, use_dassa, h - 1);
        let now = conv_pairs(s, use_dassa, h);
        assert forall|p: HintPair| conv_pairs(s, use_dassa, g).contains(p) implies
            #[trigger] now.contains(p) by {
            assert(before.contains(p));
            let x = choose|x: int| 0 <= x < before.len() && before[x] == p;
            assert(now[x] == p);
        }
    }
}

/// Unless the cap cut the list short, any two branches with a common target are
/// paired.
pub proof fn law_converging_branches_are_paired(s: Superset, use_dassa: bool, o1: int, o2: int)
    requires
        o1 < o2,
        target_at(s, o1) is Some,
        target_at(s, o1) == target_at(s, o2),
        conv_pairs(s, use_dassa, targets_below(s, s.spec_len()).len() as int).len() < 5_000_000,
    ensures
        exists|p: HintPair| #[trigger]
            conv_pairs(s, use_dassa, targets_below(s, s.spec_len()).len() as int).contains(p)
                && p.addr_a == s.addr(o1) as u64 && p.addr_b == s.addr(o2) as u64,
{
    let n = s.spec_len();
    let t = target_at(s, o1)->0;
    let targets = targets_below(s, n);
    let m = branches_to(s, t, n);
    lemma_branches_to(s, t, n);
    lemma_targets_below(s, n, t);
    assert(m.contains(o1) && m.contains(o2));
    let i = choose|i: int| 0 <= i < m.len() && m[i] == o1;
    let j = choose|j: int| 0 <= j < m.len() && m[j] == o2;
    assert(i < j);
    let g = choose|g: int| 0 <= g < targets.len() && targets[g] == t;
    lemma_conv_pairs_grow(s, use_dassa, g, targets.len() as int);
    lemma_conv_pairs_grow(s, use_dassa, g + 1, targets.len() as int);
    law_clique_covers_every_pair(s, use_dassa, m);
    let p = conv_pair(s, use_dassa, m, i, j);
    let before = conv_pairs(s, use_dassa, g);
    let c = clique(s, use_dassa, m);
    assert(c.contains(p));
    let x = choose|x: int| 0 <= x < c.len() && c[x] == p;
    assert(conv_pairs(s, use_dassa, g + 1) == before + c);
    assert((before + c)[before.len() + x] == p);
    assert(conv_pairs(s, use_dassa, g + 1).contains(p));
    assert(conv_pairs(s, use_dassa, targets.len() as int).contains(p));
}

/// A control-flow path along which `reg` is neither read nor written between
/// the two ends.
pub open spec fn is_quiet_path(s: Superset, reg: u16, p: Seq<u64>) -> bool {
    &&& p.len() >= 2
    &&& forall|i: int|
        0 <= i < p.len() - 1 ==> s.successors(#[trigger] p[i] as int).contains(p[i + 1])
    &&& forall|i: int|
        0 < i < p.len() - 1 ==> !reads(s, #[trigger] p[i] as int, reg) && !writes(
            s,
            p[i] as int,
            reg,
        )
}

/// A quiet path from `def` to `f.0` that uses up the steps that `f.1` lacks.
spec fn reaches_frame(s: Superset, reg: u16, def: u64, f: (u64, usize), p: Seq<u64>) -> bool {
    &&& is_quiet_path(s, reg, p)
    &&& p[0] == def
    &&& p.last() == f.0
    &&& p.len() == MAX_WALK_DEPTH + 2 - f.1
}

spec fn is_reached(s: Superset, reg: u16, def: u64, f: (u64, usize)) -> bool {
    exists|p: Seq<u64>| #[trigger] reaches_frame(s, reg, def, f, p)
}

proof fn lemma_use_walk_paths(
    s: Superset,
    reg: u16,
    def: u64,
    stack: Seq<(u64, usize)>,
    visited: Set<u64>,
    b: u64,
)
    requires
        use_walk(s, reg, stack, visited).contains(b),
        forall|k: int| 0 <= k < stack.len() ==> is_reached(s, reg, def, #[trigger] stack[k]),
    ensures
        reads(s, b as int, reg),
        exists|p: Seq<u64>| #[trigger]
            is_quiet_path(s, reg, p) && p[0] == def && p.last() == b && p.len() <= MAX_WALK_DEPTH
                + 1,
    decreases work(stack),
{
    assert(stack.len() > 0);
    let a = stack.last().0;
    let rem = stack.last().1;
    let rest = stack.drop_last();
    let succ = s.successors(a as int);
    lemma_work_shrinks(stack, succ);
    assert forall|k: int| 0 <= k < rest.len() implies is_reached(
        s,
        reg,
        def,
        #[trigger] rest[k],
    ) by {
        assert(rest[k] == stack[k]);
    }
    if rem == 0 || visited.contains(a) {
        lemma_use_walk_paths(s, reg, def, rest, visited, b);
    } else if s.spec_at(a as int) is None {
        lemma_use_walk_paths(s, reg, def, rest, visited.insert(a), b);
    } else if reads(s, a as int, reg) {
        if b == a {
            let k = stack.len() - 1;
            assert(is_reached(s, reg, def, stack[k]));
            let p = choose|p: Seq<u64>| #[trigger] reaches_frame(s, reg, def, stack[k], p);
            assert(is_quiet_path(s, reg, p));
        } else {
            let tail = use_walk(s, reg, rest, visited.insert(a));
            let whole = seq![a] + tail;
            let i = choose|i: int| 0 <= i < whole.len() && whole[i] == b;
            assert(tail[i - 1] == b);
            lemma_use_walk_paths(s, reg, def, rest, visited.insert(a), b);
        }
    } else if writes(s, a as int, reg) {
        lemma_use_walk_paths(s, reg, def, rest, visited.insert(a), b);
    } else {
        let next = rest + frames(succ, rem - 1);
        let last = stack.len() - 1;
        assert(is_reached(s, reg, def, stack[last]));
        let q = choose|p: Seq<u64>| #[trigger] reaches_frame(s, reg, def, stack[last], p);
        assert forall|k: int| 0 <= k < next.len() implies is_reached(
            s,
            reg,
            def,
            #[trigger] next[k],
        ) by {
            if k < rest.len() {
                assert(next[k] == stack[k]);
            } else {
                let to = succ[k - rest.len()];
                assert(next[k] == (to, (rem - 1) as usize));
                let p = q.push(to);
                assert(succ.contains(to));
                assert forall|i: int| 0 <= i < p.len() - 1 implies s.successors(
                    #[trigger] p[i] as int,
                ).contains(p[i + 1]) by {
                    if i < q.len() - 1 {
                        assert(q[i] == p[i] && q[i + 1] == p[i + 1]);
                    } else {
                        assert(p[i] == a);
                    }
                }
                assert forall|i: int| 0 < i < p.len() - 1 implies !reads(
                    s,
                    #[trigger] p[i] as int,
                    reg,
                ) && !writes(s, p[i] as int, reg) by {
                    assert(q[i] == p[i]);
                }
                assert(reaches_frame(s, reg, def, next[k], p));
            }
        }
        lemma_use_walk_paths(s, reg, def, next, visited.insert(a), b);
    }
}

/// Every use that a walk reports reads the register and is reached from the
/// definition along a path of bounded length on which the register is neither
/// read nor written in between.
pub proof fn law_uses_are_reached(s: Superset, def: u64, reg: u16, b: u64)
    requires
        uses_from(s, def, reg).contains(b),
    ensures
        reads(s, b as int, reg),
        exists|p: Seq<u64>| #[trigger]
            is_quiet_path(s, reg, p) && p[0] == def && p.last() == b && p.len() <= MAX_WALK_DEPTH
                + 1,
{
    let succ = s.successors(def as int);
    let stack = frames(succ, MAX_WALK_DEPTH as int);
    assert forall|k: int| 0 <= k < stack.len() implies is_reached(
        s,
        reg,
        def,
        #[trigger] stack[k],
    ) by {
        let p = seq![def, succ[k]];
        assert(succ.contains(succ[k]));
        assert(reaches_frame(s, reg, def, stack[k], p));
    }
    lemma_use_walk_paths(s, reg, def, stack, Set::empty(), b);
}

proof fn lemma_use_walk_distinct(
    s: Superset,
    reg: u16,
    stack: Seq<(u64, usize)>,
    visited: Set<u64>,
)
    ensures
        use_walk(s, reg, stack, visited).no_duplicates(),
        forall|b: u64|
            visited.contains(b) ==> !#[trigger] use_walk(s, reg, stack, visited).contains(b),
    decreases work(stack),
{
    if stack.len() > 0 {
        let a = stack.last().0;
        let rem = stack.last().1;
        let rest = stack.drop_last();
        let succ = s.successors(a as int);
        lemma_work_shrinks(stack, succ);
        if rem == 0 || visited.contains(a) {
            lemma_use_walk_distinct(s, reg, rest, visited);
        } else if s.spec_at(a as int) is None || reads(s, a as int, reg) || writes(
            s,
            a as int,
            reg,
        ) {
            lemma_use_walk_distinct(s, reg, rest, visited.insert(a));
            let tail = use_walk(s, reg, rest, visited.insert(a));
            if s.spec_at(a as int) is Some && reads(s, a as int, reg) {
                let whole = seq![a] + tail;
                assert(!tail.contains(a));
                assert forall|b: u64| visited.contains(b) implies !#[trigger] whole.contains(b) by {
                    if whole.contains(b) {
                        let i = choose|i: int| 0 <= i < whole.len() && whole[i] == b;
                        if i > 0 {
                            assert(tail[i - 1] == b);
                            assert(tail.contains(b));
                        }
                    }
                }
                assert forall|i: int, j: int|
                    0 <= i < whole.len() && 0 <= j < whole.len() && i != j implies whole[i]
                    != whole[j] by {
                    if i == 0 {
                        assert(tail[j - 1] == whole[j]);
                    } else if j == 0 {
                        assert(tail[i - 1] == whole[i]);
                    } else {
                        assert(tail[i - 1] == whole[i] && tail[j - 1] == whole[j]);
                    }
                }
            } else {
                assert forall|b: u64| visited.contains(b) implies !#[trigger] tail.contains(b) by {
                    assert(visited.insert(a).contains(b));
                }
            }
        } else {
            let next = rest + frames(succ, rem - 1);
            lemma_use_walk_distinct(s, reg, next, visited.insert(a));
            let tail = use_walk(s, reg, next, visited.insert(a));
            assert forall|b: u64| visited.contains(b) implies !#[trigger] tail.contains(b) by {
                assert(visited.insert(a).contains(b));
            }
        }
    }
}

/// A walk reports no use twice.
pub proof fn law_uses_are_distinct(s: Superset, def: u64, reg: u16)
    ensures
        uses_from(s, def, reg).no_duplicates(),
{
    lemma_use_walk_distinct(
        s,
        reg,
        frames(s.successors(def as int), MAX_WALK_DEPTH as int),
        Set::empty(),
    );
}

/// Def-use pairs never lift the number of pairs above the cap.
pub proof fn law_def_use_pairs_respect_the_cap(s: Superset, use_dassa: bool)
    ensures
        hint_pairs(s, use_dassa).len() <= 5_000_000 || hint_pairs(s, use_dassa) == conv_pairs(
            s,
            use_dassa,
            targets_below(s, s.spec_len()).len() as int,
        ) + cross_pairs(s, use_dassa, s.spec_len()),
{
}

/// Both unary extractions agree on weak branches.
pub proof fn law_unary_and_legacy_agree_on_weak_branches(s: Superset, a: u64)
    ensures
        ({
            let k = HintKey { source_addr: a, label: HintLabel::CtrlWeak };
            is_unary_hint(s, k) <==> is_legacy_hint(s, k)
        }),
{
    let k = HintKey { source_addr: a, label: HintLabel::CtrlWeak };
    assert(!is_conv_hint(s, k));
    assert(!is_cross_hint(s, k));
    assert(!is_def_use_hint(s, k));
}

/// Whether a pair couples two branches with a common target, the earlier one
/// first, each with the prior of its size.
pub open spec fn is_convergence(s: Superset, use_dassa: bool, p: HintPair) -> bool {
    let a = p.addr_a - s.base_addr;
    let b = p.addr_b - s.base_addr;
    &&& 0 <= a < b < s.spec_len()
    &&& target_at(s, a) is Some
    &&& target_at(s, a) == target_at(s, b)
    &&& p.prior_a == conv_rate(s, a, use_dassa)
    &&& p.prior_b == conv_rate(s, b, use_dassa)
}

/// Whether the addresses of `p` come before those of `q`, the first ones first.
spec fn comes_before(p: HintPair, q: HintPair) -> bool {
    p.addr_a < q.addr_a || (p.addr_a == q.addr_a && p.addr_b < q.addr_b)
}

proof fn lemma_row_entry(s: Superset, use_dassa: bool, m: Seq<int>, i: int, j: int, x: int)
    requires
        0 <= i < j,
        0 <= x < j - i - 1,
    ensures
        clique_row(s, use_dassa, m, i, j).len() == j - i - 1,
        clique_row(s, use_dassa, m, i, j)[x] == conv_pair(s, use_dassa, m, i, x + i + 1),
    decreases j - i,
{
    let before = clique_row(s, use_dassa, m, i, j - 1);
    lemma_clique_row(s, use_dassa, m, i, j - 1);
    if x < j - i - 2 {
        lemma_row_entry(s, use_dassa, m, i, j - 1, x);
    }
}

proof fn lemma_rows_order(s: Superset, use_dassa: bool, m: Seq<int>, i: int)
    requires
        s.wf(),
        0 <= i <= m.len(),
        forall|k: int| 0 <= k < m.len() ==> 0 <= #[trigger] m[k] < s.spec_len(),
        forall|k: int, l: int| 0 <= k < l < m.len() ==> m[k] < m[l],
    ensures
        forall|x: int|
            0 <= x < clique_rows(s, use_dassa, m, i).len() ==> {
                let p = #[trigger] clique_rows(s, use_dassa, m, i)[x];
                exists|a: int, b: int|
                    0 <= a < i && a < b < m.len() && p == #[trigger] conv_pair(
                        s,
                        use_dassa,
                        m,
                        a,
                        b,
                    )
            },
        forall|x: int, y: int|
            0 <= x < y < clique_rows(s, use_dassa, m, i).len() ==> comes_before(
                #[trigger] clique_rows(s, use_dassa, m, i)[x],
                #[trigger] clique_rows(s, use_dassa, m, i)[y],
            ),
    decreases i,
{
    if i > 0 {
        let n = m.len() as int;
        let before = clique_rows(s, use_dassa, m, i - 1);
        let row = clique_row(s, use_dassa, m, i - 1, n);
        let now = clique_rows(s, use_dassa, m, i);
        lemma_rows_order(s, use_dassa, m, i - 1);
        lemma_clique_row(s, use_dassa, m, i - 1, n);
        assert forall|x: int| 0 <= x < now.len() implies {
            let p = #[trigger] now[x];
            exists|a: int, b: int|
                0 <= a < i && a < b < m.len() && p == #[trigger] conv_pair(s, use_dassa, m, a, b)
        } by {
            if x < before.len() {
                assert(now[x] == before[x]);
            } else {
                let y = x - before.len();
                assert(now[x] == row[y]);
                lemma_row_entry(s, use_dassa, m, i - 1, n, y);
                assert(now[x] == conv_pair(s, use_dassa, m, i - 1, y + i));
            }
        }
        assert forall|x: int, y: int| 0 <= x < y < now.len() implies comes_before(
            #[trigger] now[x],
            #[trigger] now[y],
        ) by {
            if y < before.len() {
                assert(now[x] == before[x] && now[y] == before[y]);
            } else if x < before.len() {
                let z = y - before.len();
                assert(now[x] == before[x] && now[y] == row[z]);
                lemma_row_entry(s, use_dassa, m, i - 1, n, z);
                let (a, b): (int, int) = choose|a: int, b: int|
                    0 <= a < i - 1 && a < b < m.len() && before[x] == #[trigger] conv_pair(
                        s,
                        use_dassa,
                        m,
                        a,
                        b,
                    );
                assert(m[a] < m[i - 1]);
            } else {
                let u = x - before.len();
                let z = y - before.len();
                assert(now[x] == row[u] && now[y] == row[z]);
                lemma_row_entry(s, use_dassa, m, i - 1, n, u);
                lemma_row_entry(s, use_dassa, m, i - 1, n, z);
                assert(m[u + i] < m[z + i]);
            }
        }
    }
}

proof fn lemma_conv_pairs(s: Superset, use_dassa: bool, g: int)
    requires
        s.wf(),
        0 <= g <= targets_below(s, s.spec_len()).len(),
    ensures
        forall|x: int|
            0 <= x < conv_pairs(s, use_dassa, g).len() ==> {
                let p = #[trigger] conv_pairs(s, use_dassa, g)[x];
                is_convergence(s, use_dassa, p) && exists|h: int|
                    0 <= h < g && target_at(s, p.addr_a - s.base_addr) == Some(
                        #[trigger] targets_below(s, s.spec_len())[h],
                    )
            },
        forall|x: int, y: int|
            0 <= x < y < conv_pairs(s, use_dassa, g).len() ==> {
                let p = #[trigger] conv_pairs(s, use_dassa, g)[x];
                let q = #[trigger] conv_pairs(s, use_dassa, g)[y];
                p.addr_a != q.addr_a || p.addr_b != q.addr_b
            },
    decreases g,
{
    if g > 0 {
        lemma_conv_pairs(s, use_dassa, g - 1);
        let n = s.spec_len();
        let targets = targets_below(s, n);
        let t = targets[g - 1];
        let m = branches_to(s, t, n);
        let before = conv_pairs(s, use_dassa, g - 1);
        let now = conv_pairs(s, use_dassa, g);
        lemma_targets_below(s, n, t);
        lemma_branches_to(s, t, n);
        if !(m.len() < 2 || before.len() >= HINT_PAIR_CAP) {
            let c = clique(s, use_dassa, m);
            lemma_rows_order(s, use_dassa, m, m.len() as int);
            assert(now == before + c);
            assert forall|x: int| 0 <= x < c.len() implies {
                let p = #[trigger] c[x];
                is_convergence(s, use_dassa, p) && target_at(s, p.addr_a - s.base_addr) == Some(t)
            } by {
                let (a, b): (int, int) = choose|a: int, b: int|
                    0 <= a < m.len() && a < b < m.len() && c[x] == #[trigger] conv_pair(
                        s,
                        use_dassa,
                        m,
                        a,
                        b,
                    );
                assert(m[a] < m[b]);
                assert(s.addr(m[a]) as u64 - s.base_addr == m[a]);
                assert(s.addr(m[b]) as u64 - s.base_addr == m[b]);
            }
            assert forall|x: int| 0 <= x < now.len() implies {
                let p = #[trigger] now[x];
                is_convergence(s, use_dassa, p) && exists|h: int|
                    0 <= h < g && target_at(s, p.addr_a - s.base_addr) == Some(
                        #[trigger] targets[h],
                    )
            } by {
                if x < before.len() {
                    assert(now[x] == before[x]);
                } else {
                    assert(now[x] == c[x - before.len()]);
                    assert(targets[g - 1] == t);
                }
            }
            assert forall|x: int, y: int| 0 <= x < y < now.len() implies {
                let p = #[trigger] now[x];
                let q = #[trigger] now[y];
                p.addr_a != q.addr_a || p.addr_b != q.addr_b
            } by {
                if y < before.len() {
                    assert(now[x] == before[x] && now[y] == before[y]);
                } else if x < before.len() {
                    assert(now[x] == before[x] && now[y] == c[y - before.len()]);
                } else {
                    assert(now[x] == c[x - before.len()] && now[y] == c[y - before.len()]);
                    assert(comes_before(c[x - before.len()], c[y - before.len()]));
                }
            }
        }
    }
}

/// Convergence pairs are two branches with a common target, the earlier one first,
/// each with the prior of its size; and no two branches are paired twice.
pub proof fn law_paired_branches_converge(s: Superset, use_dassa: bool)
    requires
        s.wf(),
    ensures
        ({
            let v = conv_pairs(s, use_dassa, targets_below(s, s.spec_len()).len() as int);
            &&& forall|x: int|
                0 <= x < v.len() ==> is_convergence(s, use_dassa, #[trigger] v[x])
            &&& forall|x: int, y: int|
                0 <= x < y < v.len() ==> (#[trigger] v[x]).addr_a != (#[trigger] v[y]).addr_a
                    || v[x].addr_b != v[y].addr_b
        }),
{
    lemma_conv_pairs(s, use_dassa, targets_below(s, s.spec_len()).len() as int);
}

proof fn lemma_same_clique_row(s: Superset, m: Seq<int>, i: int, j: int)
    ensures
        same_addresses(clique_row(s, false, m, i, j), clique_row(s, true, m, i, j)),
    decreases j - i,
{
    if j > i + 1 {
        lemma_same_clique_row(s, m, i, j - 1);
    }
}

proof fn lemma_same_clique_rows(s: Superset, m: Seq<int>, i: int)
    ensures
        same_addresses(clique_rows(s, false, m, i), clique_rows(s, true, m, i)),
    decreases i,
{
    if i > 0 {
        lemma_same_clique_rows(s, m, i - 1);
        lemma_same_clique_row(s, m, i - 1, m.len() as int);
        lemma_same_concat(
            clique_rows(s, false, m, i - 1),
            clique_rows(s, true, m, i - 1),
            clique_row(s, false, m, i - 1, m.len() as int),
            clique_row(s, true, m, i - 1, m.len() as int),
        );
    }
}

proof fn lemma_same_concat(
    a: Seq<HintPair>,
    b: Seq<HintPair>,
    c: Seq<HintPair>,
    d: Seq<HintPair>,
)
    requires
        same_addresses(a, b),
        same_addresses(c, d),
    ensures
        same_addresses(a + c, b + d),
{
    assert forall|k: int| 0 <= k < (a + c).len() implies (#[trigger] (a + c)[k]).addr_a == (b
        + d)[k].addr_a && (a + c)[k].addr_b == (b + d)[k].addr_b by {
        if k < a.len() {
            assert((a + c)[k] == a[k] && (b + d)[k] == b[k]);
        } else {
            assert((a + c)[k] == c[k - a.len()] && (b + d)[k] == d[k - a.len()]);
        }
    }
}

proof fn lemma_same_conv(s: Superset, g: int)
    ensures
        same_addresses(conv_pairs(s, false, g), conv_pairs(s, true, g)),
    decreases g,
{
    if g > 0 {
        lemma_same_conv(s, g - 1);
        let m = branches_to(s, targets_below(s, s.spec_len())[g - 1], s.spec_len());
        lemma_same_clique_rows(s, m, m.len() as int);
        lemma_same_concat(
            conv_pairs(s, false, g - 1),
            conv_pairs(s, true, g - 1),
            clique(s, false, m),
            clique(s, true, m),
        );
    }
}

proof fn lemma_same_cross(s: Superset, n: int)
    ensures
        same_addresses(cross_pairs(s, false, n), cross_pairs(s, true, n)),
    decreases n,
{
    if n > 0 {
        lemma_same_cross(s, n - 1);
    }
}

/// Whether two lists of pairs couple the same addresses, one by one.
pub open spec fn same_addresses(v: Seq<HintPair>, w: Seq<HintPair>) -> bool {
    v.len() == w.len() && forall|k: int|
        0 <= k < v.len() ==> (#[trigger] v[k]).addr_a == w[k].addr_a && v[k].addr_b
            == w[k].addr_b
}

/// The choice of priors changes no pair: both choices couple the same addresses,
/// one by one, and the pairs behind the control-flow pairs, those of definitions
/// with their uses, are the same altogether.
pub proof fn law_priors_keep_the_pairs(s: Superset)
    ensures
        same_addresses(hint_pairs(s, false), hint_pairs(s, true)),
        ({
            let flow = conv_pairs(s, false, targets_below(s, s.spec_len()).len() as int).len()
                + cross_pairs(s, false, s.spec_len()).len();
            forall|k: int|
                flow <= k < hint_pairs(s, false).len() ==> #[trigger] hint_pairs(s, false)[k]
                    == hint_pairs(s, true)[k]
        }),
{
    let g = targets_below(s, s.spec_len()).len() as int;
    lemma_same_conv(s, g);
    lemma_same_cross(s, s.spec_len());
    let p = conv_pairs(s, false, g) + cross_pairs(s, false, s.spec_len());
    let q = conv_pairs(s, true, g) + cross_pairs(s, true, s.spec_len());
    lemma_same_concat(
        conv_pairs(s, false, g),
        conv_pairs(s, true, g),
        cross_pairs(s, false, s.spec_len()),
        cross_pairs(s, true, s.spec_len()),
    );
    let d = def_use_pairs(s, s.spec_len());
    lemma_same_concat(p, q, d, d);
    let a = hint_pairs(s, false);
    let b = hint_pairs(s, true);
    assert forall|k: int| 0 <= k < a.len() implies (#[trigger] a[k]).addr_a == b[k].addr_a
        && a[k].addr_b == b[k].addr_b by {
        if p.len() < HINT_PAIR_CAP {
            assert(a[k] == (p + d)[k] && b[k] == (q + d)[k]);
        }
    }
    assert forall|k: int| p.len() <= k < a.len() implies #[trigger] a[k] == b[k] by {
        assert(a[k] == (p + d)[k] && b[k] == (q + d)[k]);
    }
}

/// The unary form of all families holds no return address; at a branch it holds a
/// convergence hint, labelled by the size of the branch, exactly where another
/// branch has the same target, and nowhere else.
pub proof fn law_legacy_hints_by_family(s: Superset, k: HintKey)
    requires
        s.wf(),
    ensures
        k.label == HintLabel::ReturnAddr ==> !is_legacy_hint(s, k),
        k.label == HintLabel::CtrlConvRel || k.label == HintLabel::CtrlConvNear || k.label
            == HintLabel::CtrlConvLong ==> (is_legacy_hint(s, k) <==> {
            let o = k.source_addr - s.base_addr;
            &&& target_at(s, o) is Some
            &&& k.label == conv_label(s.insn(o).size)
            &&& exists|p: int| p != o && #[trigger] target_at(s, p) == target_at(s, o)
        }),
{
    let o = k.source_addr - s.base_addr;
    let n = s.spec_len();
    if let Some(t) = target_at(s, o) {
        let m = branches_to(s, t, n);
        lemma_branches_to(s, t, n);
        assert(m.contains(o));
        let i = choose|i: int| 0 <= i < m.len() && m[i] == o;
        if m.len() >= 2 {
            let j: int = if i == 0 {
                1
            } else {
                0
            };
            assert(m[j] != o);
            assert(target_at(s, m[j]) == Some(t));
        }
        if exists|p: int| p != o && #[trigger] target_at(s, p) == target_at(s, o) {
            let p = choose|p: int| p != o && #[trigger] target_at(s, p) == target_at(s, o);
            assert(m.contains(p));
            let j = choose|j: int| 0 <= j < m.len() && m[j] == p;
            assert(i != j);
        }
    }
    if is_cross_hint(s, k) {
        let c = choose|c: int| #[trigger] marks_crossing(s, c, k);
    }
}

// ── Completeness of the def-use walk ───────────────────────────────────────

/// Whether an instruction stands at `a` that neither reads nor writes `reg`.
spec fn passes(s: Superset, a: int, reg: u16) -> bool {
    s.spec_at(a) is Some && !reads(s, a, reg) && !writes(s, a, reg)
}

/// A path whose every step but the last passes.
spec fn is_passing(s: Superset, reg: u16, q: Seq<u64>) -> bool {
    &&& q.len() > 0
    &&& forall|i: int|
        0 <= i < q.len() - 1 ==> passes(s, #[trigger] q[i] as int, reg) && s.successors(
            q[i] as int,
        ).contains(q[i + 1])
}

/// Whether some frame stands at `a`.
spec fn on_stack(stack: Seq<(u64, usize)>, a: u64) -> bool {
    exists|k: int| 0 <= k < stack.len() && (#[trigger] stack[k]).0 == a
}

/// What a walk keeps: it has enough steps left, and has dealt with, or will deal with,
/// whatever follows what it has seen.
spec fn is_sound_walk(
    s: Superset,
    reg: u16,
    stack: Seq<(u64, usize)>,
    visited: Set<u64>,
    around: Set<u64>,
) -> bool {
    &&& visited.finite()
    &&& visited.subset_of(around)
    &&& forall|k: int|
        0 <= k < stack.len() ==> around.contains((#[trigger] stack[k]).0) && stack[k].1 + visited.len()
            >= around.len()
    &&& forall|a: u64, b: u64|
        visited.contains(a) && passes(s, a as int, reg) && #[trigger] s.successors(
            a as int,
        ).contains(b) ==> visited.contains(b) || on_stack(stack, b)
    &&& forall|a: u64, b: u64|
        around.contains(a) && passes(s, a as int, reg) && #[trigger] s.successors(
            a as int,
        ).contains(b) ==> around.contains(b)
}

/// A path that starts where a walk has been leaves it by way of the stack, unless it
/// ends where the walk has been.
proof fn lemma_path_leaves(
    s: Superset,
    reg: u16,
    stack: Seq<(u64, usize)>,
    visited: Set<u64>,
    q: Seq<u64>,
    i: int,
) -> (j: int)
    requires
        is_passing(s, reg, q),
        0 <= i < q.len(),
        visited.contains(q[i]) || on_stack(stack, q[i]),
        !visited.contains(q.last()),
        forall|a: u64, b: u64|
            visited.contains(a) && passes(s, a as int, reg) && #[trigger] s.successors(
                a as int,
            ).contains(b) ==> visited.contains(b) || on_stack(stack, b),
    ensures
        i <= j < q.len(),
        on_stack(stack, q[j]),
    decreases q.len() - i,
{
    if on_stack(stack, q[i]) {
        i
    } else {
        assert(i < q.len() - 1);
        assert(s.successors(q[i] as int).contains(q[i + 1]));
        lemma_path_leaves(s, reg, stack, visited, q, i + 1)
    }
}

proof fn lemma_suffix_passes(s: Superset, reg: u16, q: Seq<u64>, j: int)
    requires
        is_passing(s, reg, q),
        0 <= j < q.len(),
    ensures
        is_passing(s, reg, q.skip(j)),
        q.skip(j)[0] == q[j],
        q.skip(j).last() == q.last(),
{
    let r = q.skip(j);
    assert forall|i: int| 0 <= i < r.len() - 1 implies passes(s, #[trigger] r[i] as int, reg)
        && s.successors(r[i] as int).contains(r[i + 1]) by {
        assert(r[i] == q[j + i] && r[i + 1] == q[j + i + 1]);
    }
}

/// A walk with steps enough for everything around finds what lies at the end of a
/// passing path.
proof fn lemma_walk_finds(
    s: Superset,
    reg: u16,
    stack: Seq<(u64, usize)>,
    visited: Set<u64>,
    around: Set<u64>,
    q: Seq<u64>,
)
    requires
        around.finite(),
        is_sound_walk(s, reg, stack, visited, around),
        is_passing(s, reg, q),
        on_stack(stack, q[0]),
        reads(s, q.last() as int, reg),
    ensures
        visited.contains(q.last()) || use_walk(s, reg, stack, visited).contains(q.last()),
    decreases work(stack),
{
    let b = q.last();
    let a = stack.last().0;
    let rem = stack.last().1;
    let rest = stack.drop_last();
    let succ = s.successors(a as int);
    lemma_work_shrinks(stack, succ);
    assert(stack[stack.len() - 1] == stack.last());
    assert forall|x: u64| on_stack(stack, x) implies x == a || on_stack(rest, x) by {
        let k = choose|k: int| 0 <= k < stack.len() && (#[trigger] stack[k]).0 == x;
        if k < rest.len() {
            assert(rest[k].0 == x);
        }
    }
    assert forall|k: int| 0 <= k < rest.len() implies #[trigger] rest[k] == stack[k] by {}
    if visited.contains(b) {
    } else if visited.contains(a) {
        assert(is_sound_walk(s, reg, rest, visited, around));
        let j = lemma_path_leaves(s, reg, rest, visited, q, 0);
        lemma_suffix_passes(s, reg, q, j);
        lemma_walk_finds(s, reg, rest, visited, around, q.skip(j));
    } else {
        let seen = visited.insert(a);
        assert(seen.subset_of(around)) by {
            assert(around.contains(stack[stack.len() - 1].0));
        }
        vstd::set_lib::lemma_len_subset(seen, around);
        assert(seen.len() == visited.len() + 1);
        assert(rem > 0);
        if reads(s, a as int, reg) && b == a {
            let tail = use_walk(s, reg, rest, seen);
            assert((seq![a] + tail)[0] == a);
        } else if passes(s, a as int, reg) {
            let more = frames(succ, rem - 1);
            let next = rest + more;
            assert forall|x: u64| on_stack(rest, x) implies on_stack(next, x) by {
                let k = choose|k: int| 0 <= k < rest.len() && (#[trigger] rest[k]).0 == x;
                assert(next[k].0 == x);
            }
            assert forall|x: u64| succ.contains(x) implies on_stack(next, x) by {
                let k = choose|k: int| 0 <= k < succ.len() && succ[k] == x;
                assert(more[k].0 == x);
                assert(next[rest.len() + k].0 == x);
            }
            assert forall|k: int| 0 <= k < next.len() implies around.contains(
                (#[trigger] next[k]).0,
            ) && next[k].1 + seen.len() >= around.len() by {
                if k < rest.len() {
                    assert(next[k] == stack[k]);
                } else {
                    let to = succ[k - rest.len()];
                    assert(next[k] == (to, (rem - 1) as usize));
                    assert(s.successors(a as int).contains(to));
                    assert(around.contains(a));
                }
            }
            assert forall|x: u64, y: u64|
                seen.contains(x) && passes(s, x as int, reg) && #[trigger] s.successors(
                    x as int,
                ).contains(y) implies seen.contains(y) || on_stack(next, y) by {
                if x != a {
                    assert(visited.contains(y) || on_stack(stack, y));
                }
            }
            assert(is_sound_walk(s, reg, next, seen, around));
            let j = if q[0] == a {
                assert(q.len() > 1);
                assert(succ.contains(q[1]));
                1int
            } else {
                0int
            };
            lemma_suffix_passes(s, reg, q, j);
            assert(on_stack(next, q[j]));
            lemma_walk_finds(s, reg, next, seen, around, q.skip(j));
        } else {
            assert forall|x: u64, y: u64|
                seen.contains(x) && passes(s, x as int, reg) && #[trigger] s.successors(
                    x as int,
                ).contains(y) implies seen.contains(y) || on_stack(rest, y) by {
                assert(visited.contains(y) || on_stack(stack, y));
            }
            assert(is_sound_walk(s, reg, rest, seen, around));
            if q[0] == a && q.len() > 1 {
                assert(passes(s, q[0] as int, reg));
            }
            assert(on_stack(rest, q[0]));
            lemma_walk_finds(s, reg, rest, seen, around, q);
            if reads(s, a as int, reg) {
                let tail = use_walk(s, reg, rest, seen);
                let k = choose|k: int| 0 <= k < tail.len() && tail[k] == b;
                assert((seq![a] + tail)[k + 1] == b);
            }
        }
    }
}

/// A definition is paired with every use that control can reach from it without
/// meeting another use or another definition, so long as no more than fifty addresses
/// lie around it: whatever path `p` leads there, the walk reports its end.
pub proof fn law_every_near_use_is_found(
    s: Superset,
    def: u64,
    reg: u16,
    around: Set<u64>,
    p: Seq<u64>,
)
    requires
        around.finite(),
        around.len() <= 50,
        forall|b: u64| #[trigger] s.successors(def as int).contains(b) ==> around.contains(b),
        forall|a: u64, b: u64|
            around.contains(a) && (s.spec_at(a as int) matches Some(x) && !x.regs_read@.contains(
                reg,
            ) && !x.regs_write@.contains(reg)) && #[trigger] s.successors(a as int).contains(b)
                ==> around.contains(b),
        p.len() >= 2,
        p[0] == def,
        forall|i: int|
            0 <= i < p.len() - 1 ==> s.successors(#[trigger] p[i] as int).contains(p[i + 1]),
        forall|i: int|
            0 < i < p.len() - 1 ==> (s.spec_at(#[trigger] p[i] as int) matches Some(x)
                && !x.regs_read@.contains(reg) && !x.regs_write@.contains(reg)),
        s.spec_at(p.last() as int) matches Some(x) && x.regs_read@.contains(reg),
    ensures
        uses_from(s, def, reg).contains(p.last()),
{
    lemma_near_use(s, def, reg, around, p);
}

proof fn lemma_near_use(s: Superset, def: u64, reg: u16, around: Set<u64>, p: Seq<u64>)
    requires
        around.finite(),
        around.len() <= MAX_WALK_DEPTH,
        forall|b: u64| #[trigger] s.successors(def as int).contains(b) ==> around.contains(b),
        forall|a: u64, b: u64|
            around.contains(a) && passes(s, a as int, reg) && #[trigger] s.successors(
                a as int,
            ).contains(b) ==> around.contains(b),
        p.len() >= 2,
        p[0] == def,
        forall|i: int|
            0 <= i < p.len() - 1 ==> s.successors(#[trigger] p[i] as int).contains(p[i + 1]),
        forall|i: int| 0 < i < p.len() - 1 ==> passes(s, #[trigger] p[i] as int, reg),
        reads(s, p.last() as int, reg),
    ensures
        uses_from(s, def, reg).contains(p.last()),
{
    let succ = s.successors(def as int);
    let stack = frames(succ, MAX_WALK_DEPTH as int);
    let q = p.drop_first();
    assert forall|k: int| 0 <= k < stack.len() implies around.contains((#[trigger] stack[k]).0)
        && stack[k].1 + Set::<u64>::empty().len() >= around.len() by {
        assert(stack[k].0 == succ[k]);
        assert(succ.contains(succ[k]));
    }
    assert(is_sound_walk(s, reg, stack, Set::empty(), around));
    assert(succ.contains(p[1]));
    let k = choose|k: int| 0 <= k < succ.len() && succ[k] == p[1];
    assert(stack[k].0 == q[0]);
    assert forall|i: int| 0 <= i < q.len() - 1 implies passes(s, #[trigger] q[i] as int, reg)
        && s.successors(q[i] as int).contains(q[i + 1]) by {
        assert(q[i] == p[i + 1] && q[i + 1] == p[i + 1 + 1]);
    }
    assert(q.last() == p.last());
    lemma_walk_finds(s, reg, stack, Set::empty(), around, q);
}

/// A definition is paired with the use at the end of straight code: of at most fifty
/// steps, each with one way on, over instructions that decode and neither read nor
/// write the register.
pub proof fn law_straight_use_is_found(s: Superset, def: u64, reg: u16, p: Seq<u64>)
    requires
        2 <= p.len() <= 51,
        p[0] == def,
        forall|i: int|
            0 <= i < p.len() - 1 ==> s.successors(#[trigger] p[i] as int) == seq![p[i + 1]],
        forall|i: int|
            0 < i < p.len() - 1 ==> (s.spec_at(#[trigger] p[i] as int) matches Some(x)
                && !x.regs_read@.contains(reg) && !x.regs_write@.contains(reg)),
        s.spec_at(p.last() as int) matches Some(x) && x.regs_read@.contains(reg),
    ensures
        uses_from(s, def, reg).contains(p.last()),
{
    let q = p.drop_first();
    let around = q.to_set();
    vstd::seq_lib::seq_to_set_is_finite(q);
    q.lemma_cardinality_of_set();
    assert forall|i: int| 0 <= i < p.len() - 1 implies s.successors(
        #[trigger] p[i] as int,
    ).contains(p[i + 1]) by {
        assert(s.successors(p[i] as int) == seq![p[i + 1]]);
        assert(seq![p[i + 1]][0] == p[i + 1]);
    }
    assert forall|b: u64| #[trigger] s.successors(def as int).contains(b) implies around.contains(
        b,
    ) by {
        assert(s.successors(p[0] as int) == seq![p[1]]);
        assert(q[0] == b);
    }
    assert forall|a: u64, b: u64|
        around.contains(a) && passes(s, a as int, reg) && #[trigger] s.successors(
            a as int,
        ).contains(b) implies around.contains(b) by {
        let k = choose|k: int| 0 <= k < q.len() && q[k] == a;
        assert(p[k + 1] == a);
        if k + 1 == p.len() - 1 {
            assert(a == p.last());
            assert(reads(s, a as int, reg));
        }
        assert(s.successors(p[k + 1] as int) == seq![p[k + 1 + 1]]);
        assert(q[k + 1] == b);
    }
    lemma_near_use(s, def, reg, around, p);
}

// ── What the pairs couple ──────────────────────────────────────────────────

proof fn lemma_pairs_concat(a: Seq<HintPair>, b: Seq<HintPair>, p: HintPair)
    ensures
        (a + b).contains(p) <==> a.contains(p) || b.contains(p),
{
    if a.contains(p) {
        let k = choose|k: int| 0 <= k < a.len() && a[k] == p;
        assert((a + b)[k] == p);
    }
    if b.contains(p) {
        let k = choose|k: int| 0 <= k < b.len() && b[k] == p;
        assert((a + b)[a.len() + k] == p);
    }
    if (a + b).contains(p) {
        let k = choose|k: int| 0 <= k < (a + b).len() && (a + b)[k] == p;
        if k < a.len() {
            assert(a[k] == p);
        } else {
            assert(b[k - a.len()] == p);
        }
    }
}

/// Whether a pair is that of the definition at offset `o` of the `r`-th register it
/// writes with a use of it.
spec fn pairs_def(s: Superset, o: int, r: int, p: HintPair) -> bool {
    let sixteenth = Prior { num: 1, den: 16 };
    &&& p.addr_a == s.addr(o) as u64
    &&& uses_from(s, s.addr(o) as u64, s.insn(o).regs_write@[r]).contains(p.addr_b)
    &&& p.prior_a == sixteenth
    &&& p.prior_b == sixteenth
}

proof fn lemma_def_pairs(s: Superset, o: int, k: int, p: HintPair)
    requires
        0 <= k <= s.insn(o).regs_write@.len(),
    ensures
        def_pairs(s, o, k).contains(p) <==> exists|r: int|
            0 <= r < k && #[trigger] pairs_def(s, o, r, p),
    decreases k,
{
    if k > 0 {
        lemma_def_pairs(s, o, k - 1, p);
        let def = s.addr(o) as u64;
        let uses = uses_from(s, def, s.insn(o).regs_write@[k - 1]);
        let more = use_pairs(def, uses);
        lemma_pairs_concat(def_pairs(s, o, k - 1), more, p);
        if more.contains(p) {
            let x = choose|x: int| 0 <= x < more.len() && more[x] == p;
            assert(uses[x] == p.addr_b);
            assert(pairs_def(s, o, k - 1, p));
        }
        if pairs_def(s, o, k - 1, p) {
            let x = choose|x: int| 0 <= x < uses.len() && uses[x] == p.addr_b;
            assert(more[x] == p);
        }
    }
}

proof fn lemma_def_use_pairs(s: Superset, n: int, p: HintPair)
    requires
        n <= s.spec_len(),
    ensures
        def_use_pairs(s, n).contains(p) <==> exists|o: int, r: int|
            0 <= o < n && s.valid(o) && 0 <= r < s.insn(o).regs_write@.len()
                && #[trigger] pairs_def(s, o, r, p),
    decreases n,
{
    if n > 0 {
        lemma_def_use_pairs(s, n - 1, p);
        if s.valid(n - 1) {
            let k = s.insn(n - 1).regs_write@.len() as int;
            lemma_def_pairs(s, n - 1, k, p);
            lemma_pairs_concat(def_use_pairs(s, n - 1), def_pairs(s, n - 1, k), p);
        }
    }
}

/// The def-use pairs couple each instruction that writes a register with each use of
/// that register that its walk reports, at one chance in sixteen on either side; and
/// all of them are among the relational hints unless the cap cuts them short.
pub proof fn law_def_use_pairs_couple_definitions_with_uses(
    s: Superset,
    use_dassa: bool,
    o: int,
    reg: u16,
    b: u64,
)
    requires
        s.wf(),
        0 <= o < s.instructions@.len(),
        s.instructions@[o] matches Some(i) && i.regs_write@.contains(reg),
        uses_from(s, (s.base_addr + o) as u64, reg).contains(b),
        hint_pairs(s, use_dassa).len() < 5_000_000,
    ensures
        hint_pairs(s, use_dassa).contains(
            HintPair {
                addr_a: (s.base_addr + o) as u64,
                addr_b: b,
                prior_a: Prior { num: 1, den: 16 },
                prior_b: Prior { num: 1, den: 16 },
            },
        ),
{
    let p = HintPair {
        addr_a: (s.base_addr + o) as u64,
        addr_b: b,
        prior_a: Prior { num: 1, den: 16 },
        prior_b: Prior { num: 1, den: 16 },
    };
    let n = s.spec_len();
    assert(s.valid(o));
    let w = s.insn(o).regs_write@;
    let r = choose|r: int| 0 <= r < w.len() && w[r] == reg;
    assert(pairs_def(s, o, r, p));
    lemma_def_use_pairs(s, n, p);
    let flow = conv_pairs(s, use_dassa, targets_below(s, n).len() as int) + cross_pairs(
        s,
        use_dassa,
        n,
    );
    lemma_pairs_concat(flow, def_use_pairs(s, n), p);
    assert(hint_pairs(s, use_dassa) == flow + def_use_pairs(s, n));
}

/// A def-use pair joins an instruction that writes some register with one that reads
/// it.
pub proof fn law_def_use_pairs_share_a_register(s: Superset, x: int)
    requires
        s.wf(),
        0 <= x < def_use_pairs(s, s.spec_len()).len(),
    ensures
        ({
            let p = def_use_pairs(s, s.spec_len())[x];
            exists|reg: u16| #[trigger]
                writes(s, p.addr_a as int, reg) && reads(s, p.addr_b as int, reg)
        }),
{
    let v = def_use_pairs(s, s.spec_len());
    let p = v[x];
    assert(v.contains(p));
    lemma_def_use_pairs(s, s.spec_len(), p);
    let (o, r): (int, int) = choose|o: int, r: int|
        0 <= o < s.spec_len() && s.valid(o) && 0 <= r < s.insn(o).regs_write@.len()
            && #[trigger] pairs_def(s, o, r, p);
    let reg = s.insn(o).regs_write@[r];
    law_uses_are_reached(s, p.addr_a, reg, p.addr_b);
    assert(s.insn(o).regs_write@.contains(reg));
    assert(writes(s, p.addr_a as int, reg));
}

/// What reading and writing a register, and branching somewhere, come down to.
pub proof fn law_roles_of_an_instruction(s: Superset, o: int, reg: u16, t: u64)
    requires
        0 <= o < s.instructions@.len(),
    ensures
        reads(s, s.base_addr + o, reg) <==> (s.instructions@[o] matches Some(i)
            && i.regs_read@.contains(reg)),
        writes(s, s.base_addr + o, reg) <==> (s.instructions@[o] matches Some(i)
            && i.regs_write@.contains(reg)),
        target_at(s, o) == Some(t) <==> (s.instructions@[o] matches Some(i) && (
        i.groups@.contains(1u8) || i.groups@.contains(2u8)) && i.branch_target == Some(t)),
{
    if let Some(i) = s.instructions@[o] {
        law_kinds_are_groups(i);
    }
}

/// Two branches to one target are a pair, and each counts with the chance that its
/// length gives it: one in all nonzero displacements of one, two or four bytes, or the
/// rate measured on data.
pub proof fn law_flow_rates_go_by_length(s: Superset, o: int, dassa: bool)
    ensures
        ({
            let size = s.insn(o).size;
            let den: int = if size == 2 {
                if dassa {
                    32
                } else {
                    255
                }
            } else if size == 3 || size == 4 {
                if dassa {
                    256
                } else {
                    65535
                }
            } else {
                if dassa {
                    8192
                } else {
                    4294967295
                }
            };
            &&& conv_rate(s, o, dassa).num == 1
            &&& conv_rate(s, o, dassa).den == den
            &&& cross_rate(s, o, dassa) == conv_rate(s, o, dassa)
        }),
{
}

/// Every two branches that go to one place are a relational hint, unless the cap cut
/// the list short.
pub proof fn law_converging_branches_are_hints(
    s: Superset,
    use_dassa: bool,
    o1: int,
    o2: int,
    t: u64,
)
    requires
        s.wf(),
        0 <= o1 < o2 < s.instructions@.len(),
        s.instructions@[o1] matches Some(i) && (i.groups@.contains(1u8) || i.groups@.contains(
            2u8,
        )) && i.branch_target == Some(t),
        s.instructions@[o2] matches Some(i) && (i.groups@.contains(1u8) || i.groups@.contains(
            2u8,
        )) && i.branch_target == Some(t),
        hint_pairs(s, use_dassa).len() < 5_000_000,
    ensures
        exists|p: HintPair| #[trigger]
            hint_pairs(s, use_dassa).contains(p) && p.addr_a == s.base_addr + o1 && p.addr_b
                == s.base_addr + o2,
{
    let n = s.spec_len();
    law_roles_of_an_instruction(s, o1, 0, t);
    law_roles_of_an_instruction(s, o2, 0, t);
    let conv = conv_pairs(s, use_dassa, targets_below(s, n).len() as int);
    let cross = cross_pairs(s, use_dassa, n);
    law_converging_branches_are_paired(s, use_dassa, o1, o2);
    let p = choose|p: HintPair| #[trigger]
        conv.contains(p) && p.addr_a == s.addr(o1) as u64 && p.addr_b == s.addr(o2) as u64;
    lemma_pairs_concat(conv, cross, p);
    lemma_pairs_concat(conv + cross, def_use_pairs(s, n), p);
    assert(hint_pairs(s, use_dassa) == conv + cross + def_use_pairs(s, n));
    assert(hint_pairs(s, use_dassa).contains(p));
}

proof fn lemma_cross_pairs(s: Superset, use_dassa: bool, n: int, p: HintPair)
    requires
        n <= s.spec_len(),
    ensures
        cross_pairs(s, use_dassa, n).contains(p) <==> exists|o: int|
            0 <= o < n && #[trigger] crossed_by(s, o) is Some && p == (HintPair {
                addr_a: s.addr(o) as u64,
                addr_b: s.addr(crossed_by(s, o)->0) as u64,
                prior_a: cross_rate(s, o, use_dassa),
                prior_b: cross_rate(s, crossed_by(s, o)->0, use_dassa),
            }),
    decreases n,
{
    if n > 0 {
        lemma_cross_pairs(s, use_dassa, n - 1, p);
        if let Some(c) = crossed_by(s, n - 1) {
            let x = HintPair {
                addr_a: s.addr(n - 1) as u64,
                addr_b: s.addr(c) as u64,
                prior_a: cross_rate(s, n - 1, use_dassa),
                prior_b: cross_rate(s, c, use_dassa),
            };
            let before = cross_pairs(s, use_dassa, n - 1);
            assert(before.push(x) =~= before + seq![x]);
            lemma_pairs_concat(before, seq![x], p);
            assert(seq![x][0] == x);
        }
    }
}

/// A branch that lands just behind another branch is paired with it: with the last
/// one that ends there, unless that is the branch itself.
pub proof fn law_crossing_branches_are_paired(
    s: Superset,
    use_dassa: bool,
    o: int,
    q: int,
    t: u64,
)
    requires
        s.wf(),
        0 <= o < s.instructions@.len(),
        0 <= q < s.instructions@.len(),
        o != q,
        s.instructions@[o] matches Some(i) && (i.groups@.contains(1u8) || i.groups@.contains(
            2u8,
        )) && i.branch_target == Some(t),
        s.instructions@[q] matches Some(j) && (j.groups@.contains(1u8) || j.groups@.contains(
            2u8,
        )) && s.base_addr + q + j.size == t,
        forall|x: int|
            q < x < s.instructions@.len() ==> !(#[trigger] s.instructions@[x] matches Some(j) && (
            j.groups@.contains(1u8) || j.groups@.contains(2u8)) && s.base_addr + x + j.size == t),
    ensures
        cross_pairs(s, use_dassa, s.spec_len()).contains(
            HintPair {
                addr_a: (s.base_addr + o) as u64,
                addr_b: (s.base_addr + q) as u64,
                prior_a: cross_rate(s, o, use_dassa),
                prior_b: cross_rate(s, q, use_dassa),
            },
        ),
{
    let n = s.spec_len();
    law_roles_of_an_instruction(s, o, 0, t);
    lemma_last_ending_at(s, t as int, n);
    law_kinds_are_groups(s.insn(q));
    assert(branch_ends_at(s, q, t as int));
    assert(last_ending_at(s, t as int, n) == Some(q)) by {
        let z = last_ending_at(s, t as int, n)->0;
        if z > q {
            law_kinds_are_groups(s.insn(z));
            assert(s.instructions@[z] is Some);
        }
    }
    assert(crossed_by(s, o) == Some(q));
    let p = HintPair {
        addr_a: (s.base_addr + o) as u64,
        addr_b: (s.base_addr + q) as u64,
        prior_a: cross_rate(s, o, use_dassa),
        prior_b: cross_rate(s, q, use_dassa),
    };
    lemma_cross_pairs(s, use_dassa, n, p);
}

/// A crossing pair is a branch and another one that ends just where the first goes.
pub proof fn law_paired_branches_cross(s: Superset, use_dassa: bool, x: int)
    requires
        s.wf(),
        0 <= x < cross_pairs(s, use_dassa, s.spec_len()).len(),
    ensures
        ({
            let p = cross_pairs(s, use_dassa, s.spec_len())[x];
            &&& p.addr_a != p.addr_b
            &&& s.spec_at(p.addr_a as int) matches Some(i)
            &&& s.spec_at(p.addr_b as int) matches Some(j)
            &&& i.groups@.contains(1u8) || i.groups@.contains(2u8)
            &&& j.groups@.contains(1u8) || j.groups@.contains(2u8)
            &&& i.branch_target == Some((p.addr_b + j.size) as u64)
        }),
{
    let n = s.spec_len();
    let v = cross_pairs(s, use_dassa, n);
    let p = v[x];
    assert(v.contains(p));
    lemma_cross_pairs(s, use_dassa, n, p);
    let o = choose|o: int|
        0 <= o < n && #[trigger] crossed_by(s, o) is Some && p == (HintPair {
            addr_a: s.addr(o) as u64,
            addr_b: s.addr(crossed_by(s, o)->0) as u64,
            prior_a: cross_rate(s, o, use_dassa),
            prior_b: cross_rate(s, crossed_by(s, o)->0, use_dassa),
        });
    let t = target_at(s, o)->0;
    let c = crossed_by(s, o)->0;
    lemma_last_ending_at(s, t as int, n);
    law_kinds_are_groups(s.insn(o));
    law_kinds_are_groups(s.insn(c));
    assert(s.valid(c) && s.valid(o));
}

/// A branch is weak evidence exactly where its target decodes and shares no byte with
/// it, and a return address exactly where something decodes right behind a call.
pub proof fn law_unary_hints_by_family(s: Superset, o: int)
    requires
        s.wf(),
        0 <= o < s.instructions@.len(),
    ensures
        ({
            let k = HintKey { source_addr: (s.base_addr + o) as u64, label: HintLabel::CtrlWeak };
            is_unary_hint(s, k) <==> {
                &&& s.instructions@[o] matches Some(i)
                &&& i.groups@.contains(1u8) || i.groups@.contains(2u8)
                &&& i.branch_target matches Some(t)
                &&& s.base_addr <= t < s.base_addr + s.instructions@.len()
                &&& s.instructions@[t - s.base_addr] matches Some(j)
                &&& s.base_addr + o + i.size <= t || t + j.size <= s.base_addr + o
            }
        }),
        ({
            let k = HintKey {
                source_addr: (s.base_addr + o) as u64,
                label: HintLabel::ReturnAddr,
            };
            is_unary_hint(s, k) <==> s.instructions@[o] is Some && exists|c: int|
                0 <= c < s.instructions@.len() && (#[trigger] s.instructions@[c] matches Some(i)
                    && i.groups@.contains(2u8) && c + i.size == o)
        }),
        forall|k: HintKey|
            k.label != HintLabel::CtrlWeak && k.label != HintLabel::ReturnAddr
                ==> !#[trigger] is_unary_hint(s, k),
{
    if let Some(i) = s.instructions@[o] {
        law_kinds_are_groups(i);
    }
    let a = s.base_addr + o;
    if is_return_site(s, a) {
        let c = choose|c: int| #[trigger] returns_to(s, c, a);
        let i = s.spec_at(c)->0;
        law_kinds_are_groups(i);
        assert(s.instructions@[c - s.base_addr] == Some(i));
    }
    if exists|c: int|
        0 <= c < s.instructions@.len() && (#[trigger] s.instructions@[c] matches Some(i)
            && i.groups@.contains(2u8) && c + i.size == o) {
        let c = choose|c: int|
            0 <= c < s.instructions@.len() && (#[trigger] s.instructions@[c] matches Some(i)
                && i.groups@.contains(2u8) && c + i.size == o);
        law_kinds_are_groups(s.instructions@[c]->0);
        assert(returns_to(s, s.base_addr + c, a));
    }
}

/// What a definition is paired with reads the register, at most fifty steps away, and
/// nothing on the way there reads or writes it.
pub proof fn law_uses_lie_near(s: Superset, def: u64, reg: u16, b: u64)
    requires
        uses_from(s, def, reg).contains(b),
    ensures
        s.spec_at(b as int) matches Some(x) && x.regs_read@.contains(reg),
        exists|p: Seq<u64>|
            {
                &&& 2 <= p.len() <= 51
                &&& p[0] == def
                &&& #[trigger] p.last() == b
                &&& forall|i: int|
                    0 <= i < p.len() - 1 ==> s.successors(#[trigger] p[i] as int).contains(
                        p[i + 1],
                    )
                &&& forall|i: int|
                    0 < i < p.len() - 1 ==> (s.spec_at(#[trigger] p[i] as int) matches Some(x)
                        ==> !x.regs_read@.contains(reg) && !x.regs_write@.contains(reg))
            },
{
    law_uses_are_reached(s, def, reg, b);
    let p = choose|p: Seq<u64>| #[trigger]
        is_quiet_path(s, reg, p) && p[0] == def && p.last() == b && p.len() <= MAX_WALK_DEPTH + 1;
    assert forall|i: int| 0 < i < p.len() - 1 implies (s.spec_at(#[trigger] p[i] as int) matches Some(
        x,
    ) ==> !x.regs_read@.contains(reg) && !x.regs_write@.contains(reg)) by {
        assert(!reads(s, p[i] as int, reg) && !writes(s, p[i] as int, reg));
    }
}

/// Relational hints are the converging pairs, the crossing pairs and then as many
/// def-use pairs as five million in all allow.
pub proof fn law_def_use_pairs_top_up(s: Superset, use_dassa: bool)
    ensures
        ({
            let flow = conv_pairs(s, use_dassa, targets_below(s, s.spec_len()).len() as int)
                + cross_pairs(s, use_dassa, s.spec_len());
            let all = hint_pairs(s, use_dassa);
            let more = def_use_pairs(s, s.spec_len());
            &&& all.take(flow.len() as int) == flow
            &&& flow.len() >= 5_000_000 ==> all == flow
            &&& flow.len() + more.len() <= 5_000_000 ==> all == flow + more
            &&& flow.len() < 5_000_000 < flow.len() + more.len() ==> all.len() == 5_000_000
            &&& forall|k: int|
                flow.len() <= k < all.len() ==> #[trigger] all[k] == more[k - flow.len()]
        }),
{
    let flow = conv_pairs(s, use_dassa, targets_below(s, s.spec_len()).len() as int) + cross_pairs(
        s,
        use_dassa,
        s.spec_len(),
    );
    assert(hint_pairs(s, use_dassa).take(flow.len() as int) =~= flow);
}

/// What a lone hint says by coincidence: weak branches two in seven, def-use one in
/// sixteen, return addresses one in ten thousand, measured or not.
pub proof fn law_other_rates_are_not_measured(dassa: bool)
    ensures
        HintLabel::CtrlWeak.spec_rate(dassa) == (Prior { num: 2, den: 7 }),
        HintLabel::RegDefUse.spec_rate(dassa) == (Prior { num: 1, den: 16 }),
        HintLabel::ReturnAddr.spec_rate(dassa) == (Prior { num: 1, den: 10000 }),
{
}

/// At a branch that lands just behind another, and at that other, stands a crossing
/// hint, labelled by length; nowhere else does one stand.
pub proof fn law_legacy_crossings(s: Superset, k: HintKey)
    requires
        s.wf(),
    ensures
        k.label == HintLabel::CtrlCrossRel || k.label == HintLabel::CtrlCrossNear || k.label
            == HintLabel::CtrlCrossLong ==> (is_legacy_hint(s, k) <==> {
            let a = k.source_addr - s.base_addr;
            &&& 0 <= a < s.instructions@.len()
            &&& s.instructions@[a] matches Some(i)
            &&& k.label == (if i.size == 2 {
                HintLabel::CtrlCrossRel
            } else if i.size == 3 || i.size == 4 {
                HintLabel::CtrlCrossNear
            } else {
                HintLabel::CtrlCrossLong
            })
            &&& exists|x: int|
                0 <= x < cross_pairs(s, false, s.spec_len()).len() && {
                    let p = #[trigger] cross_pairs(s, false, s.spec_len())[x];
                    p.addr_a == k.source_addr || p.addr_b == k.source_addr
                }
        }),
{
    let n = s.spec_len();
    let v = cross_pairs(s, false, n);
    let a = k.source_addr - s.base_addr;
    if is_cross_hint(s, k) {
        let o = choose|o: int| #[trigger] marks_crossing(s, o, k);
        let c = crossed_by(s, o)->0;
        lemma_last_ending_at(s, target_at(s, o)->0 as int, n);
        assert(s.valid(c) && s.valid(o));
        let p = HintPair {
            addr_a: s.addr(o) as u64,
            addr_b: s.addr(c) as u64,
            prior_a: cross_rate(s, o, false),
            prior_b: cross_rate(s, c, false),
        };
        lemma_cross_pairs(s, false, n, p);
        let x = choose|x: int| 0 <= x < v.len() && v[x] == p;
        assert(v[x].addr_a == k.source_addr || v[x].addr_b == k.source_addr);
    }
    if exists|x: int|
        0 <= x < v.len() && {
            let p = #[trigger] v[x];
            p.addr_a == k.source_addr || p.addr_b == k.source_addr
        } {
        let x = choose|x: int|
            0 <= x < v.len() && {
                let p = #[trigger] v[x];
                p.addr_a == k.source_addr || p.addr_b == k.source_addr
            };
        let p = v[x];
        assert(v.contains(p));
        lemma_cross_pairs(s, false, n, p);
        let o = choose|o: int|
            0 <= o < n && #[trigger] crossed_by(s, o) is Some && p == (HintPair {
                addr_a: s.addr(o) as u64,
                addr_b: s.addr(crossed_by(s, o)->0) as u64,
                prior_a: cross_rate(s, o, false),
                prior_b: cross_rate(s, crossed_by(s, o)->0, false),
            });
        let c = crossed_by(s, o)->0;
        lemma_last_ending_at(s, target_at(s, o)->0 as int, n);
        assert(s.valid(c) && s.valid(o));
        if k.label == cross_label(s.insn(a).size) {
            assert(marks_crossing(s, o, k));
        }
    }
}

/// A def-use hint stands at every definition that is paired with a use and at every
/// such use, and nowhere else.
pub proof fn law_legacy_def_uses(s: Superset, a: u64)
    requires
        s.wf(),
    ensures
        ({
            let k = HintKey { source_addr: a, label: HintLabel::RegDefUse };
            let v = def_use_pairs(s, s.spec_len());
            is_legacy_hint(s, k) <==> exists|x: int|
                0 <= x < v.len() && ((#[trigger] v[x]).addr_a == a || v[x].addr_b == a)
        }),
{
    let k = HintKey { source_addr: a, label: HintLabel::RegDefUse };
    let n = s.spec_len();
    let v = def_use_pairs(s, n);
    let sixteenth = Prior { num: 1, den: 16 };
    if is_def_use_hint(s, k) {
        let (o, r): (int, int) = choose|o: int, r: int| #[trigger] marks_def_use(s, o, r, k);
        let def = s.addr(o) as u64;
        let uses = uses_from(s, def, s.insn(o).regs_write@[r]);
        let b = if uses.contains(a) {
            a
        } else {
            uses[0]
        };
        assert(uses.contains(b));
        let p = HintPair { addr_a: def, addr_b: b, prior_a: sixteenth, prior_b: sixteenth };
        assert(pairs_def(s, o, r, p));
        lemma_def_use_pairs(s, n, p);
        let x = choose|x: int| 0 <= x < v.len() && v[x] == p;
        assert(v[x].addr_a == a || v[x].addr_b == a);
    }
    if exists|x: int| 0 <= x < v.len() && ((#[trigger] v[x]).addr_a == a || v[x].addr_b == a) {
        let x = choose|x: int|
            0 <= x < v.len() && ((#[trigger] v[x]).addr_a == a || v[x].addr_b == a);
        let p = v[x];
        assert(v.contains(p));
        lemma_def_use_pairs(s, n, p);
        let (o, r): (int, int) = choose|o: int, r: int|
            0 <= o < n && s.valid(o) && 0 <= r < s.insn(o).regs_write@.len()
                && #[trigger] pairs_def(s, o, r, p);
        assert(marks_def_use(s, o, r, k));
    }
}

} // verus!
