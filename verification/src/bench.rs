//! Reading predictions off scores, and grading them.

use std::collections::BTreeSet;

use vstd::prelude::*;

use crate::recovery::{f1_of, share_of, Share};
use crate::superset::{law_kinds_are_groups, Instruction, Superset};

verus! {

broadcast use vstd::std_specs::btree::group_btree_axioms;

/// How many of the first `k` items have the property `f`.
pub open spec fn how_many<T>(v: Seq<T>, f: spec_fn(T) -> bool, k: int) -> int
    decreases k,
{
    if k <= 0 {
        0
    } else {
        how_many(v, f, k - 1) + if f(v[k - 1]) {
            1int
        } else {
            0int
        }
    }
}

/// A part has no more items of a kind than it has items.
pub proof fn lemma_how_many<T>(v: Seq<T>, f: spec_fn(T) -> bool, k: int)
    requires
        0 <= k,
    ensures
        0 <= how_many(v, f, k) <= k,
    decreases k,
{
    if k > 0 {
        lemma_how_many(v, f, k - 1);
    }
}

/// The entry point, moved to the start of the code where it lies outside.
pub open spec fn mapped(entry: u64, base: u64, len: int) -> u64 {
    if base <= entry < base + len {
        entry
    } else {
        base
    }
}

/// The entry point, moved to the start of the code where it lies outside.
pub fn map_entry(entry: u64, base: u64, len: usize) -> (r: u64)
    ensures
        r == mapped(entry, base, len as int),
{
    if base <= entry && entry - base < len as u64 {
        entry
    } else {
        base
    }
}

/// Whether offset `o` holds a call or jump whose target is not known.
pub open spec fn is_indirect(s: Superset, o: int) -> bool {
    s.valid(o) && (s.insn(o).spec_is_call() || s.insn(o).spec_is_jump()) && s.insn(
        o,
    ).branch_target is None
}

/// Number of such offsets among the first `k`.
pub open spec fn indirect_below(s: Superset, k: int) -> int
    decreases k,
{
    if k <= 0 {
        0
    } else {
        indirect_below(s, k - 1) + if is_indirect(s, k - 1) {
            1int
        } else {
            0int
        }
    }
}

/// Counts the calls and jumps whose target is not known.
pub fn count_indirect_sites(s: &Superset) -> (r: usize)
    ensures
        r == indirect_below(*s, s.spec_len()),
{
    let mut n: usize = 0;
    let len: usize = s.instructions.len();
    let mut k: usize = 0;
    while k < len
        invariant
            len == s.instructions@.len(),
            k <= len,
            n <= k,
            n == indirect_below(*s, k as int),
        decreases len - k,
    {
        if let Some(i) = &s.instructions[k] {
            if (i.is_call() || i.is_jump()) && i.branch_target.is_none() {
                n += 1;
            }
        }
        k += 1;
    }
    n
}

/// The addresses, among the first `k` scores, that score at least `mark`.
pub open spec fn predicted_below(scores: Seq<(u64, u64)>, mark: u64, k: int) -> Seq<u64>
    decreases k,
{
    if k <= 0 {
        Seq::empty()
    } else if scores[k - 1].1 >= mark {
        predicted_below(scores, mark, k - 1).push(scores[k - 1].0)
    } else {
        predicted_below(scores, mark, k - 1)
    }
}

/// The addresses that score at least `mark`.
pub fn predict(scores: &Vec<(u64, u64)>, mark: u64) -> (r: Vec<u64>)
    ensures
        r@ == predicted_below(scores@, mark, scores@.len() as int),
{
    let mut out: Vec<u64> = Vec::new();
    let mut k: usize = 0;
    while k < scores.len()
        invariant
            k <= scores@.len(),
            out@ == predicted_below(scores@, mark, k as int),
        decreases scores@.len() - k,
    {
        if scores[k].1 >= mark {
            out.push(scores[k].0);
        }
        k += 1;
    }
    out
}

/// Being a member of `s`.
pub open spec fn in_set(s: Set<u64>) -> spec_fn(u64) -> bool {
    |a: u64| s.contains(a)
}

/// Lying at `lo` or above.
pub open spec fn from_on(lo: u64) -> spec_fn(u64) -> bool {
    |a: u64| a >= lo
}

/// Counts the predictions that are true.
pub fn count_tp(pred: &Vec<u64>, truth: &BTreeSet<u64>) -> (r: usize)
    ensures
        r == how_many(pred@, in_set(truth@), pred@.len() as int),
        r <= pred@.len(),
{
    let len: usize = pred.len();
    let mut n: usize = 0;
    let mut k: usize = 0;
    while k < len
        invariant
            len == pred@.len(),
            k <= len,
            n <= k,
            n == how_many(pred@, in_set(truth@), k as int),
        decreases len - k,
    {
        if truth.contains(&pred[k]) {
            n += 1;
        }
        k += 1;
    }
    n
}

/// Counts the addresses at `lo` or above.
pub fn count_from(v: &Vec<u64>, lo: u64) -> (r: usize)
    ensures
        r == how_many(v@, from_on(lo), v@.len() as int),
        r <= v@.len(),
{
    let len: usize = v.len();
    let mut n: usize = 0;
    let mut k: usize = 0;
    while k < len
        invariant
            len == v@.len(),
            k <= len,
            n <= k,
            n == how_many(v@, from_on(lo), k as int),
        decreases len - k,
    {
        if v[k] >= lo {
            n += 1;
        }
        k += 1;
    }
    n
}

/// How predictions compare with the truth.
#[derive(Debug, Clone, Copy, PartialEq, Eq, Structural)]
pub struct Score {
    /// Predictions that are true.
    pub tp: usize,
    /// Predictions.
    pub pred: usize,
    /// True addresses.
    pub truth: usize,
}

impl Score {
    /// No more predictions are true than were made.
    pub open spec fn wf(self) -> bool {
        self.tp <= self.pred
    }

    /// Recall: the share of the true addresses that was predicted.
    pub fn recall(&self) -> (r: Option<Share>)
        ensures
            r == share_of(self.tp as int, self.truth as int),
    {
        if self.truth == 0 {
            None
        } else {
            Some(Share { num: self.tp as u128, den: self.truth as u128 })
        }
    }

    /// Precision: the share of the predictions that is true.
    pub fn precision(&self) -> (r: Option<Share>)
        ensures
            r == share_of(self.tp as int, self.pred as int),
    {
        if self.pred == 0 {
            None
        } else {
            Some(Share { num: self.tp as u128, den: self.pred as u128 })
        }
    }

    /// The harmonic mean of precision and recall.
    pub fn f1(&self) -> (r: Option<Share>)
        requires
            self.wf(),
        ensures
            r == f1_of(self.tp as int, self.pred - self.tp, self.truth as int),
    {
        if self.pred == 0 || self.truth == 0 {
            None
        } else {
            Some(
                Share { num: 2 * (self.tp as u128), den: self.pred as u128 + self.truth as u128 },
            )
        }
    }
}

/// What `score` gives.
pub open spec fn is_score(r: Score, pred: Seq<u64>, truth: Set<u64>) -> bool {
    &&& r.tp == how_many(pred, in_set(truth), pred.len() as int)
    &&& r.pred == pred.len()
    &&& r.truth == truth.len()
    &&& r.wf()
}

/// Grades predictions.
pub fn score(pred: &Vec<u64>, truth: &BTreeSet<u64>) -> (r: Score)
    ensures
        is_score(r, pred@, truth@),
{
    Score { tp: count_tp(pred, truth), pred: pred.len(), truth: truth.len() }
}

/// A line of a sweep over marks.
#[derive(Debug, Clone, Copy, PartialEq, Eq, Structural)]
pub struct SweepRow {
    /// The grade of what scores at least the mark.
    pub score: Score,
    /// How many of those lie in the decoy, where one is known.
    pub leak: Option<usize>,
}

/// Number of addresses in the decoy that begins at `decoy`, where one is known.
pub open spec fn leak_of(pred: Seq<u64>, decoy: Option<u64>) -> Option<usize> {
    match decoy {
        Some(lo) => Some(how_many(pred, from_on(lo), pred.len() as int) as usize),
        None => None,
    }
}

/// Whether `r` is the line for the predictions `pred`.
pub open spec fn is_row(r: SweepRow, pred: Seq<u64>, truth: Set<u64>, decoy: Option<u64>) -> bool {
    is_score(r.score, pred, truth) && r.leak == leak_of(pred, decoy)
}

/// Grades predictions, and counts those that lie in a decoy.
pub fn grade(pred: &Vec<u64>, truth: &BTreeSet<u64>, decoy: Option<u64>) -> (r: SweepRow)
    ensures
        is_row(r, pred@, truth@, decoy),
{
    let leak: Option<usize> = match decoy {
        Some(lo) => Some(count_from(pred, lo)),
        None => None,
    };
    SweepRow { score: score(pred, truth), leak }
}

/// Grades what scores at least each of the marks.
pub fn sweep(
    scores: &Vec<(u64, u64)>,
    truth: &BTreeSet<u64>,
    marks: &Vec<u64>,
    decoy: Option<u64>,
) -> (r: Vec<SweepRow>)
    ensures
        r@.len() == marks@.len(),
        forall|i: int|
            0 <= i < marks@.len() ==> is_row(
                #[trigger] r@[i],
                predicted_below(scores@, marks@[i], scores@.len() as int),
                truth@,
                decoy,
            ),
{
    let mut out: Vec<SweepRow> = Vec::new();
    let mut k: usize = 0;
    while k < marks.len()
        invariant
            k <= marks@.len(),
            out@.len() == k,
            forall|i: int|
                0 <= i < k ==> is_row(
                    #[trigger] out@[i],
                    predicted_below(scores@, marks@[i], scores@.len() as int),
                    truth@,
                    decoy,
                ),
        decreases marks@.len() - k,
    {
        let pred: Vec<u64> = predict(scores, marks[k]);
        out.push(grade(&pred, truth, decoy));
        k += 1;
    }
    out
}

proof fn lemma_predicted_grows(scores: Seq<(u64, u64)>, low: u64, high: u64, f: spec_fn(u64) -> bool, k: int)
    requires
        low <= high,
        0 <= k,
    ensures
        predicted_below(scores, high, k).len() <= predicted_below(scores, low, k).len(),
        how_many(predicted_below(scores, high, k), f, predicted_below(scores, high, k).len() as int)
            <= how_many(predicted_below(scores, low, k), f, predicted_below(scores, low, k).len() as int),
    decreases k,
{
    if k > 0 {
        lemma_predicted_grows(scores, low, high, f, k - 1);
        let a = predicted_below(scores, low, k - 1);
        let b = predicted_below(scores, high, k - 1);
        lemma_how_many_push(a, f, scores[k - 1].0);
        lemma_how_many_push(b, f, scores[k - 1].0);
    }
}

proof fn lemma_how_many_prefix<T>(v: Seq<T>, w: Seq<T>, f: spec_fn(T) -> bool, k: int)
    requires
        0 <= k <= v.len(),
        k <= w.len(),
        forall|i: int| 0 <= i < k ==> v[i] == w[i],
    ensures
        how_many(v, f, k) == how_many(w, f, k),
    decreases k,
{
    if k > 0 {
        lemma_how_many_prefix(v, w, f, k - 1);
    }
}

/// One more item counts where it has the property.
pub proof fn lemma_how_many_push<T>(v: Seq<T>, f: spec_fn(T) -> bool, x: T)
    ensures
        how_many(v.push(x), f, (v.len() + 1) as int) == how_many(v, f, v.len() as int) + if f(x) {
            1int
        } else {
            0int
        },
{
    lemma_how_many_prefix(v, v.push(x), f, v.len() as int);
}

/// A higher mark finds no more true addresses, and leaks no more of a decoy.
pub proof fn law_higher_mark_finds_less(
    scores: Seq<(u64, u64)>,
    truth: Set<u64>,
    low: u64,
    high: u64,
    lo: u64,
)
    requires
        low <= high,
    ensures
        ({
            let n = scores.len() as int;
            let a = predicted_below(scores, low, n);
            let b = predicted_below(scores, high, n);
            &&& b.len() <= a.len()
            &&& how_many(b, in_set(truth), b.len() as int) <= how_many(
                a,
                in_set(truth),
                a.len() as int,
            )
            &&& how_many(b, from_on(lo), b.len() as int) <= how_many(
                a,
                from_on(lo),
                a.len() as int,
            )
        }),
{
    lemma_predicted_grows(scores, low, high, in_set(truth), scores.len() as int);
    lemma_predicted_grows(scores, low, high, from_on(lo), scores.len() as int);
}

// ── What the figures count ─────────────────────────────────────────────────

proof fn lemma_how_many_filters<T>(v: Seq<T>, f: spec_fn(T) -> bool, k: int)
    requires
        0 <= k <= v.len(),
    ensures
        how_many(v, f, k) == v.take(k).filter(f).len(),
    decreases k,
{
    reveal(Seq::filter);
    if k > 0 {
        lemma_how_many_filters(v, f, k - 1);
        assert(v.take(k).drop_last() =~= v.take(k - 1));
        assert(v.take(k).last() == v[k - 1]);
    } else {
        assert(v.take(k) =~= Seq::empty());
    }
}

/// To count items of a kind is to count those that are left where the others are taken
/// out.
pub proof fn law_counts_are_of_a_kind<T>(v: Seq<T>, f: spec_fn(T) -> bool)
    ensures
        how_many(v, f, v.len() as int) == v.filter(f).len(),
{
    lemma_how_many_filters(v, f, v.len() as int);
    assert(v.take(v.len() as int) =~= v);
}

/// The entry point stays where it lies in the code, and is else its first byte.
pub proof fn law_entry_lies_in_the_code(entry: u64, base: u64, len: int)
    requires
        len > 0,
    ensures
        base <= mapped(entry, base, len) < base + len,
        base <= entry < base + len ==> mapped(entry, base, len) == entry,
        !(base <= entry < base + len) ==> mapped(entry, base, len) == base,
{
}

/// Whether a slot holds a call or a jump without a known target.
spec fn is_blind(x: Option<Instruction>) -> bool {
    x matches Some(i) && (i.groups@.contains(1u8) || i.groups@.contains(2u8))
        && i.branch_target is None
}

proof fn lemma_indirect(s: Superset, k: int)
    requires
        0 <= k <= s.instructions@.len(),
    ensures
        indirect_below(s, k) == how_many(
            s.instructions@,
            |x: Option<Instruction>| is_blind(x),
            k,
        ),
    decreases k,
{
    if k > 0 {
        lemma_indirect(s, k - 1);
        if let Some(i) = s.instructions@[k - 1] {
            law_kinds_are_groups(i);
        }
    }
}

/// Indirect sites are the jumps (group 1) and calls (group 2) without a known target.
pub proof fn law_indirect_sites(s: Superset)
    ensures
        indirect_below(s, s.spec_len()) == s.instructions@.filter(
            |x: Option<Instruction>|
                x matches Some(i) && (i.groups@.contains(1u8) || i.groups@.contains(2u8))
                    && i.branch_target is None,
        ).len(),
{
    let f = |x: Option<Instruction>| is_blind(x);
    let g = |x: Option<Instruction>|
        x matches Some(i) && (i.groups@.contains(1u8) || i.groups@.contains(2u8))
            && i.branch_target is None;
    assert(f =~= g);
    lemma_indirect(s, s.spec_len());
    law_counts_are_of_a_kind(s.instructions@, f);
}

proof fn lemma_predicted(scores: Seq<(u64, u64)>, mark: u64, k: int)
    requires
        0 <= k <= scores.len(),
    ensures
        predicted_below(scores, mark, k) == scores.take(k).filter(
            |x: (u64, u64)| x.1 >= mark,
        ).map_values(|x: (u64, u64)| x.0),
    decreases k,
{
    reveal(Seq::filter);
    let f = |x: (u64, u64)| x.1 >= mark;
    let g = |x: (u64, u64)| x.0;
    if k > 0 {
        lemma_predicted(scores, mark, k - 1);
        assert(scores.take(k).drop_last() =~= scores.take(k - 1));
        assert(scores.take(k).last() == scores[k - 1]);
        let before = scores.take(k - 1).filter(f);
        if f(scores[k - 1]) {
            assert(before.push(scores[k - 1]).map_values(g) =~= before.map_values(g).push(
                scores[k - 1].0,
            ));
        }
    } else {
        assert(scores.take(k) =~= Seq::empty());
        assert(Seq::<(u64, u64)>::empty().map_values(g) =~= Seq::empty());
    }
}

/// Predicted are, in order, the addresses that score at least the mark.
pub proof fn law_predictions_reach_the_mark(scores: Seq<(u64, u64)>, mark: u64)
    ensures
        predicted_below(scores, mark, scores.len() as int) == scores.filter(
            |x: (u64, u64)| x.1 >= mark,
        ).map_values(|x: (u64, u64)| x.0),
{
    lemma_predicted(scores, mark, scores.len() as int);
    assert(scores.take(scores.len() as int) =~= scores);
}

/// A line of the sweep counts the predictions that are true, those that were made, what
/// is true, and the predictions in the decoy, which begins at its first address.
pub proof fn law_row_of_a_sweep(r: SweepRow, pred: Seq<u64>, truth: Set<u64>, decoy: Option<u64>)
    requires
        is_row(r, pred, truth, decoy),
        pred.len() <= usize::MAX,
    ensures
        r.score.tp == pred.filter(|a: u64| truth.contains(a)).len(),
        r.score.pred == pred.len(),
        r.score.truth == truth.len(),
        r.leak is Some <==> decoy is Some,
        decoy matches Some(lo) ==> r.leak == Some(
            pred.filter(|a: u64| lo <= a).len() as usize,
        ),
{
    assert(in_set(truth) =~= (|a: u64| truth.contains(a)));
    law_counts_are_of_a_kind(pred, in_set(truth));
    if let Some(lo) = decoy {
        assert(from_on(lo) =~= (|a: u64| lo <= a));
        law_counts_are_of_a_kind(pred, from_on(lo));
    }
}

} // verus!
