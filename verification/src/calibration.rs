//! Calibration of scores. A score is known by an order key: a number that
//! orders scores as their values do.

use std::collections::BTreeSet;

use vstd::prelude::*;

use crate::order::{comes_first, is_order, is_permutation, law_order_is_distinct, stable_order};

verus! {

broadcast use vstd::std_specs::btree::group_btree_axioms;

/// A score and what it is the score of.
#[derive(Debug, Clone, Copy, PartialEq, Eq, Structural)]
pub struct Sample {
    /// Order key of the score.
    pub key: u64,
    /// Whether it belongs to a true instruction.
    pub positive: bool,
}

/// The keys of samples.
pub open spec fn keys_of(s: Seq<Sample>) -> Seq<u64> {
    s.map_values(|x: Sample| x.key)
}

/// The samples in the order `o`.
pub open spec fn in_sequence(s: Seq<Sample>, o: Seq<usize>) -> Seq<Sample> {
    o.map_values(|k: usize| s[k as int])
}

/// How many of the first `k` samples are positive.
pub open spec fn positives_below(s: Seq<Sample>, k: int) -> int
    decreases k,
{
    if k <= 0 {
        0
    } else {
        positives_below(s, k - 1) + (if s[k - 1].positive {
            1int
        } else {
            0
        })
    }
}

/// How many samples from `i` up to `j` are positive.
pub open spec fn positives_in(s: Seq<Sample>, i: int, j: int) -> int {
    positives_below(s, j) - positives_below(s, i)
}

proof fn lemma_positives(s: Seq<Sample>, i: int, j: int)
    requires
        0 <= i <= j,
    ensures
        0 <= positives_in(s, i, j) <= j - i,
    decreases j - i,
{
    if i < j {
        lemma_positives(s, i, j - 1);
    }
}

// ── Isotonic maps ──────────────────────────────────────────────────────────

/// A run of samples that share a calibrated value.
#[derive(Debug, Clone, Copy, PartialEq, Eq, Structural)]
pub struct Block {
    /// Greatest key of the run.
    pub upper: u64,
    /// How many of its samples are positive.
    pub positives: u64,
    /// How many samples it has.
    pub count: u64,
}

impl Block {
    /// Whether the share of positives is at most that of another block.
    pub open spec fn at_most(self, other: Block) -> bool {
        self.positives * other.count <= other.positives * self.count
    }
}

/// Whether every beginning of the run has a greater share of positives than the
/// whole: no way to part it would keep the shares in order.
pub open spec fn is_pooled(s: Seq<Sample>, i: int, j: int) -> bool {
    forall|m: int|
        i < m < j ==> #[trigger] positives_in(s, i, m) * (j - i) > positives_in(s, i, j) * (m - i)
}

/// Whether `b` describes the samples from `i` up to `j`.
pub open spec fn is_block(b: Block, s: Seq<Sample>, i: int, j: int) -> bool {
    &&& 0 <= i < j <= s.len()
    &&& b.upper == s[j - 1].key
    &&& b.positives == positives_in(s, i, j)
    &&& b.count == j - i
    &&& is_pooled(s, i, j)
}

/// Whether `blocks` parts the first `k` samples at `cuts`, with shares in order.
pub open spec fn is_fit(blocks: Seq<Block>, s: Seq<Sample>, cuts: Seq<int>, k: int) -> bool {
    &&& cuts.len() == blocks.len() + 1
    &&& cuts[0] == 0
    &&& cuts.last() == k
    &&& forall|b: int|
        0 <= b < blocks.len() ==> is_block(#[trigger] blocks[b], s, cuts[b], cuts[b + 1])
    &&& forall|b: int|
        0 <= b < blocks.len() - 1 ==> (#[trigger] blocks[b]).at_most(blocks[b + 1])
}

/// What a map makes of a score.
#[derive(Debug, Clone, Copy, PartialEq, Eq, Structural)]
pub enum Calibrated {
    /// The score itself.
    Same(u64),
    /// A share of positives.
    Share {
        /// How many are positive.
        positives: u64,
        /// Out of how many.
        count: u64,
    },
}

/// A monotone map from scores to shares.
#[derive(Debug, Clone)]
pub struct IsotonicMap {
    points: Vec<Block>,
}

/// The first block, counted from `from`, that reaches up to `p`; the last one
/// where none does.
pub open spec fn block_for(points: Seq<Block>, p: u64, from: int) -> int
    decreases points.len() - from,
{
    if from >= points.len() {
        points.len() - 1
    } else if p <= points[from].upper {
        from
    } else {
        block_for(points, p, from + 1)
    }
}

/// What the map with the blocks `points` makes of a score.
pub open spec fn calibrated(points: Seq<Block>, p: u64) -> Calibrated {
    if points.len() == 0 {
        Calibrated::Same(p)
    } else {
        let b = points[block_for(points, p, 0)];
        Calibrated::Share { positives: b.positives, count: b.count }
    }
}

/// Whether the blocks come in order: by keys, and by shares.
pub open spec fn is_monotone(points: Seq<Block>) -> bool {
    &&& forall|i: int|
        0 <= i < points.len() ==> 0 < (#[trigger] points[i]).count && points[i].positives
            <= points[i].count
    &&& forall|i: int, j: int| 0 <= i <= j < points.len() ==> points[i].upper <= points[j].upper
    &&& forall|i: int, j: int|
        0 <= i <= j < points.len() ==> (#[trigger] points[i]).at_most(#[trigger] points[j])
}

proof fn lemma_pool(s: Seq<Sample>, a: int, b: int, c: int)
    requires
        0 <= a < b < c,
        is_pooled(s, a, b),
        is_pooled(s, b, c),
        positives_in(s, a, b) * (c - b) > positives_in(s, b, c) * (b - a),
    ensures
        is_pooled(s, a, c),
{
    let p = positives_in(s, a, b);
    let q = positives_in(s, b, c);
    let n1 = b - a;
    let n2 = c - b;
    lemma_positives(s, a, b);
    lemma_positives(s, b, c);
    assert forall|m: int| a < m < c implies #[trigger] positives_in(s, a, m) * (c - a)
        > positives_in(s, a, c) * (m - a) by {
        if m < b {
            let x = positives_in(s, a, m);
            let k = m - a;
            assert(x * n1 > p * k);
            assert(x * (n1 + n2) > (p + q) * k) by (nonlinear_arith)
                requires
                    x * n1 > p * k,
                    p * n2 > q * n1,
                    k > 0,
                    n1 > 0,
                    n2 > 0,
            {
                assert(x * n1 * n2 > p * k * n2);
                assert(p * n2 * k > q * n1 * k);
                assert(x * n2 * n1 > q * k * n1);
                assert(x * n2 > q * k);
            }
        } else if m == b {
            assert(p * (n1 + n2) > (p + q) * n1) by (nonlinear_arith)
                requires
                    p * n2 > q * n1,
            ;
        } else {
            let t = positives_in(s, b, m);
            let k = m - b;
            assert(t * n2 > q * k);
            assert((p + t) * (n1 + n2) > (p + q) * (n1 + k)) by (nonlinear_arith)
                requires
                    t * n2 > q * k,
                    p * n2 > q * n1,
                    0 < k < n2,
                    n1 > 0,
            {
                assert((q - t) * n2 < q * (n2 - k));
                assert(n1 * ((q - t) * n2) < n1 * (q * (n2 - k)));
                assert(p * n2 * (n2 - k) > q * n1 * (n2 - k));
                assert(p * (n2 - k) * n2 > n1 * (q - t) * n2);
                assert(p * (n2 - k) > n1 * (q - t));
            }
        }
    }
}

proof fn lemma_at_most_transitive(a: Block, b: Block, c: Block)
    requires
        a.at_most(b),
        b.at_most(c),
        b.count > 0,
    ensures
        a.at_most(c),
{
    let (pa, ca) = (a.positives as int, a.count as int);
    let (pb, cb) = (b.positives as int, b.count as int);
    let (pc, cc) = (c.positives as int, c.count as int);
    assert(pa * cc <= pc * ca) by (nonlinear_arith)
        requires
            pa * cb <= pb * ca,
            pb * cc <= pc * cb,
            cb > 0,
            ca >= 0,
            cc >= 0,
    {
        assert(pa * cb * cc <= pb * ca * cc);
        assert(pb * cc * ca <= pc * cb * ca);
        assert(pa * cc * cb <= pc * ca * cb);
    }
}

proof fn lemma_shares_in_order(points: Seq<Block>, i: int, j: int)
    requires
        0 <= i <= j < points.len(),
        forall|b: int| 0 <= b < points.len() ==> 0 < (#[trigger] points[b]).count,
        forall|b: int| 0 <= b < points.len() - 1 ==> (#[trigger] points[b]).at_most(points[b + 1]),
    ensures
        points[i].at_most(points[j]),
    decreases j - i,
{
    if i < j {
        lemma_shares_in_order(points, i, j - 1);
        assert(points[j - 1].at_most(points[j - 1 + 1]));
        lemma_at_most_transitive(points[i], points[j - 1], points[j]);
    }
}

proof fn lemma_cuts_in_order(blocks: Seq<Block>, s: Seq<Sample>, cuts: Seq<int>, i: int, j: int)
    requires
        is_fit(blocks, s, cuts, s.len() as int),
        0 <= i <= j < cuts.len(),
    ensures
        cuts[i] <= cuts[j],
        0 <= cuts[i],
    decreases j - i,
{
    if i < j {
        lemma_cuts_in_order(blocks, s, cuts, i, j - 1);
        assert(is_block(blocks[j - 1], s, cuts[j - 1], cuts[j - 1 + 1]));
    } else if i > 0 {
        assert(is_block(blocks[i - 1], s, cuts[i - 1], cuts[i - 1 + 1]));
    }
}

/// A fit to samples in order is monotone.
pub proof fn law_fit_is_monotone(blocks: Seq<Block>, s: Seq<Sample>, cuts: Seq<int>)
    requires
        is_fit(blocks, s, cuts, s.len() as int),
        forall|i: int, j: int| 0 <= i <= j < s.len() ==> s[i].key <= s[j].key,
    ensures
        is_monotone(blocks),
{
    assert forall|i: int| 0 <= i < blocks.len() implies 0 < (#[trigger] blocks[i]).count
        && blocks[i].positives <= blocks[i].count by {
        assert(is_block(blocks[i], s, cuts[i], cuts[i + 1]));
        lemma_positives(s, cuts[i], cuts[i + 1]);
    }
    assert forall|i: int, j: int| 0 <= i <= j < blocks.len() implies blocks[i].upper
        <= blocks[j].upper by {
        assert(is_block(blocks[i], s, cuts[i], cuts[i + 1]));
        assert(is_block(blocks[j], s, cuts[j], cuts[j + 1]));
        lemma_cuts_in_order(blocks, s, cuts, i + 1, j + 1);
    }
    assert forall|i: int, j: int| 0 <= i <= j < blocks.len() implies (
    #[trigger] blocks[i]).at_most(#[trigger] blocks[j]) by {
        lemma_shares_in_order(blocks, i, j);
    }
}

/// Whether the shares of two blocks are in the wrong order.
fn out_of_order(a: &Block, b: &Block) -> (r: bool)
    ensures
        r == !a.at_most(*b),
{
    proof {
        assert(a.positives * b.count <= u64::MAX * u64::MAX) by (nonlinear_arith)
            requires
                a.positives <= u64::MAX,
                b.count <= u64::MAX,
        ;
        assert(b.positives * a.count <= u64::MAX * u64::MAX) by (nonlinear_arith)
            requires
                b.positives <= u64::MAX,
                a.count <= u64::MAX,
        ;
    }
    a.positives as u128 * b.count as u128 > b.positives as u128 * a.count as u128
}

/// Pools samples in order into blocks.
fn pool(s: &Vec<Sample>) -> (r: (Vec<Block>, Ghost<Seq<int>>))
    ensures
        is_fit(r.0@, s@, r.1@, s@.len() as int),
{
    let mut blocks: Vec<Block> = Vec::new();
    let ghost mut cuts: Seq<int> = seq![0];
    let n: usize = s.len();
    let mut k: usize = 0;
    while k < n
        invariant
            n == s@.len(),
            k <= n,
            is_fit(blocks@, s@, cuts, k as int),
        decreases n - k,
    {
        let one: u64 = if s[k].positive {
            1
        } else {
            0
        };
        let ghost old_blocks = blocks@;
        let ghost old_cuts = cuts;
        blocks.push(Block { upper: s[k].key, positives: one, count: 1 });
        proof {
            cuts = old_cuts.push(k + 1);
            assert(is_block(blocks@[old_blocks.len() as int], s@, k as int, k + 1));
            assert forall|b: int| 0 <= b < blocks@.len() implies is_block(
                #[trigger] blocks@[b],
                s@,
                cuts[b],
                cuts[b + 1],
            ) by {
                if b < old_blocks.len() {
                    assert(is_block(old_blocks[b], s@, old_cuts[b], old_cuts[b + 1]));
                }
            }
            assert forall|b: int| 0 <= b < blocks@.len() - 2 implies (
            #[trigger] blocks@[b]).at_most(blocks@[b + 1]) by {
                assert(old_blocks[b].at_most(old_blocks[b + 1]));
            }
        }
        while blocks.len() >= 2 && out_of_order(
            &blocks[blocks.len() - 2],
            &blocks[blocks.len() - 1],
        )
            invariant
                n == s@.len(),
                k < n,
                blocks@.len() >= 1,
                cuts.len() == blocks@.len() + 1,
                cuts[0] == 0,
                cuts.last() == k + 1,
                forall|b: int|
                    0 <= b < blocks@.len() ==> is_block(
                        #[trigger] blocks@[b],
                        s@,
                        cuts[b],
                        cuts[b + 1],
                    ),
                forall|b: int|
                    0 <= b < blocks@.len() - 2 ==> (#[trigger] blocks@[b]).at_most(blocks@[b + 1]),
            decreases blocks@.len(),
        {
            let ghost had = blocks@;
            let ghost had_cuts = cuts;
            let ghost m = had.len() as int;
            let last: Block = blocks[blocks.len() - 1];
            let before: Block = blocks[blocks.len() - 2];
            let ghost (a, b, c) = (had_cuts[m - 2], had_cuts[m - 1], had_cuts[m]);
            proof {
                assert(is_block(had[m - 1], s@, had_cuts[m - 1], had_cuts[m - 1 + 1]));
                assert(is_block(had[m - 2], s@, had_cuts[m - 2], had_cuts[m - 2 + 1]));
                lemma_positives(s@, a, b);
                lemma_positives(s@, b, c);
                assert(before.positives * last.count > last.positives * before.count);
                lemma_pool(s@, a, b, c);
            }
            blocks.pop();
            blocks.pop();
            blocks.push(
                Block {
                    upper: last.upper,
                    positives: before.positives + last.positives,
                    count: before.count + last.count,
                },
            );
            proof {
                cuts = had_cuts.take(m - 1).push(c);
                assert forall|d: int| 0 <= d < blocks@.len() implies is_block(
                    #[trigger] blocks@[d],
                    s@,
                    cuts[d],
                    cuts[d + 1],
                ) by {
                    if d < m - 2 {
                        assert(blocks@[d] == had[d]);
                        assert(is_block(had[d], s@, had_cuts[d], had_cuts[d + 1]));
                    }
                }
                assert forall|d: int| 0 <= d < blocks@.len() - 2 implies (
                #[trigger] blocks@[d]).at_most(blocks@[d + 1]) by {
                    assert(had[d].at_most(had[d + 1]));
                }
            }
        }
        proof {
            assert forall|b: int| 0 <= b < blocks@.len() - 1 implies (
            #[trigger] blocks@[b]).at_most(blocks@[b + 1]) by {}
        }
        k += 1;
    }
    (blocks, Ghost(cuts))
}

/// Whether `points` is the isotonic fit to samples: to the samples in the order
/// of their keys, those with the same key in the order in which they came.
pub open spec fn is_isotonic_fit(
    points: Seq<Block>,
    samples: Seq<Sample>,
    o: Seq<usize>,
    cuts: Seq<int>,
) -> bool {
    is_order(keys_of(samples), o) && is_fit(
        points,
        in_sequence(samples, o),
        cuts,
        samples.len() as int,
    )
}

/// Whether `points` is the isotonic fit to samples.
pub open spec fn fits(points: Seq<Block>, samples: Seq<Sample>) -> bool {
    exists|o: Seq<usize>, cuts: Seq<int>| #[trigger] is_isotonic_fit(points, samples, o, cuts)
}

/// The samples of scored addresses.
pub open spec fn labelled(scores: Seq<(u64, u64)>, truth: Set<u64>) -> Seq<Sample> {
    scores.map_values(|x: (u64, u64)| Sample { key: x.1, positive: truth.contains(x.0) })
}

/// Labels scored addresses by the true instructions.
pub fn label_scores(scores: &Vec<(u64, u64)>, truth: &BTreeSet<u64>) -> (r: Vec<Sample>)
    ensures
        r@ == labelled(scores@, truth@),
{
    let mut out: Vec<Sample> = Vec::new();
    let mut k: usize = 0;
    while k < scores.len()
        invariant
            k <= scores@.len(),
            out@ == labelled(scores@, truth@).take(k as int),
        decreases scores@.len() - k,
    {
        let (a, key): (u64, u64) = scores[k];
        out.push(Sample { key, positive: truth.contains(&a) });
        proof {
            assert(out@ =~= labelled(scores@, truth@).take(k + 1));
        }
        k += 1;
    }
    proof {
        assert(out@ =~= labelled(scores@, truth@));
    }
    out
}

/// The samples by key, and their order.
fn by_key(samples: &Vec<Sample>) -> (r: (Vec<Sample>, Ghost<Seq<usize>>))
    ensures
        is_order(keys_of(samples@), r.1@),
        r.0@ == in_sequence(samples@, r.1@),
        forall|i: int, j: int| 0 <= i <= j < r.0@.len() ==> r.0@[i].key <= r.0@[j].key,
{
    let mut keys: Vec<u64> = Vec::new();
    let mut k: usize = 0;
    while k < samples.len()
        invariant
            k <= samples@.len(),
            keys@ == keys_of(samples@).take(k as int),
        decreases samples@.len() - k,
    {
        keys.push(samples[k].key);
        proof {
            assert(keys@ =~= keys_of(samples@).take(k + 1));
        }
        k += 1;
    }
    proof {
        assert(keys@ =~= keys_of(samples@));
    }
    let order: Vec<usize> = stable_order(&keys);
    let mut out: Vec<Sample> = Vec::new();
    let mut i: usize = 0;
    while i < order.len()
        invariant
            i <= order@.len(),
            is_order(keys_of(samples@), order@),
            out@ == in_sequence(samples@, order@).take(i as int),
        decreases order@.len() - i,
    {
        proof {
            assert(order@[i as int] < keys_of(samples@).len());
        }
        out.push(samples[order[i]]);
        proof {
            assert(out@ =~= in_sequence(samples@, order@).take(i + 1));
        }
        i += 1;
    }
    proof {
        assert(out@ =~= in_sequence(samples@, order@));
        assert forall|i: int, j: int| 0 <= i <= j < out@.len() implies out@[i].key
            <= out@[j].key by {
            assert(order@[i] < keys_of(samples@).len() && order@[j] < keys_of(samples@).len());
            if i < j {
                assert(comes_first(keys_of(samples@), order@[i], order@[j]));
            }
        }
    }
    (out, Ghost(order@))
}

impl IsotonicMap {
    /// The blocks of the map.
    pub closed spec fn spec_points(self) -> Seq<Block> {
        self.points@
    }

    /// Fits a map to samples by pooling adjacent runs until their shares are in
    /// order.
    pub fn fit(samples: &Vec<Sample>) -> (r: IsotonicMap)
        ensures
            fits(r.spec_points(), samples@),
            is_monotone(r.spec_points()),
    {
        let (sorted, order): (Vec<Sample>, Ghost<Seq<usize>>) = by_key(samples);
        let (points, cuts): (Vec<Block>, Ghost<Seq<int>>) = pool(&sorted);
        proof {
            assert(is_isotonic_fit(points@, samples@, order@, cuts@));
            law_fit_is_monotone(points@, sorted@, cuts@);
        }
        IsotonicMap { points }
    }

    /// Fits a map to scored addresses and the true instructions.
    pub fn fit_from_gt(scores: &Vec<(u64, u64)>, truth: &BTreeSet<u64>) -> (r: IsotonicMap)
        ensures
            fits(r.spec_points(), labelled(scores@, truth@)),
            is_monotone(r.spec_points()),
    {
        let samples: Vec<Sample> = label_scores(scores, truth);
        IsotonicMap::fit(&samples)
    }

    /// The blocks of the map.
    pub fn to_points(&self) -> (r: Vec<Block>)
        ensures
            r@ == self.spec_points(),
    {
        let mut out: Vec<Block> = Vec::new();
        let mut k: usize = 0;
        while k < self.points.len()
            invariant
                k <= self.points@.len(),
                out@ == self.points@.take(k as int),
            decreases self.points@.len() - k,
        {
            out.push(self.points[k]);
            proof {
                assert(out@ =~= self.points@.take(k + 1));
            }
            k += 1;
        }
        proof {
            assert(out@ =~= self.points@);
        }
        out
    }

    /// The map with these blocks.
    pub fn from_points(points: Vec<Block>) -> (r: IsotonicMap)
        ensures
            r.spec_points() == points@,
    {
        IsotonicMap { points }
    }

    /// What the map makes of a score.
    pub fn apply(&self, p: u64) -> (r: Calibrated)
        ensures
            r == calibrated(self.spec_points(), p),
    {
        if self.points.len() == 0 {
            return Calibrated::Same(p);
        }
        let mut k: usize = 0;
        while k < self.points.len() && self.points[k].upper < p
            invariant
                k <= self.points@.len(),
                block_for(self.points@, p, 0) == block_for(self.points@, p, k as int),
            decreases self.points@.len() - k,
        {
            k += 1;
        }
        let at: usize = if k < self.points.len() {
            k
        } else {
            self.points.len() - 1
        };
        Calibrated::Share { positives: self.points[at].positives, count: self.points[at].count }
    }

    /// What the map makes of scored addresses.
    pub fn apply_all(&self, scores: &Vec<(u64, u64)>) -> (r: Vec<(u64, Calibrated)>)
        ensures
            r@ == scores@.map_values(
                |x: (u64, u64)| (x.0, calibrated(self.spec_points(), x.1)),
            ),
    {
        let ghost f = |x: (u64, u64)| (x.0, calibrated(self.spec_points(), x.1));
        let mut out: Vec<(u64, Calibrated)> = Vec::new();
        let mut k: usize = 0;
        while k < scores.len()
            invariant
                k <= scores@.len(),
                f == |x: (u64, u64)| (x.0, calibrated(self.spec_points(), x.1)),
                out@ == scores@.map_values(f).take(k as int),
            decreases scores@.len() - k,
        {
            let (a, key): (u64, u64) = scores[k];
            out.push((a, self.apply(key)));
            proof {
                assert(out@ =~= scores@.map_values(f).take(k + 1));
            }
            k += 1;
        }
        proof {
            assert(out@ =~= scores@.map_values(f));
        }
        out
    }
}

proof fn lemma_block_for(points: Seq<Block>, p: u64, from: int)
    requires
        0 <= from <= points.len(),
        points.len() > 0,
    ensures
        0 <= block_for(points, p, from) < points.len(),
        from < points.len() ==> block_for(points, p, from) >= from,
        forall|j: int| from <= j < block_for(points, p, from) ==> (#[trigger] points[j]).upper < p,
        block_for(points, p, from) < points.len() - 1 && from < points.len() ==> p
            <= points[block_for(points, p, from)].upper,
    decreases points.len() - from,
{
    if from < points.len() && p > points[from].upper {
        lemma_block_for(points, p, from + 1);
    }
}

/// Whether one share is at most another.
pub open spec fn share_at_most(a: Calibrated, b: Calibrated) -> bool {
    match (a, b) {
        (Calibrated::Same(x), Calibrated::Same(y)) => x <= y,
        (
            Calibrated::Share { positives: p, count: n },
            Calibrated::Share { positives: q, count: m },
        ) => p * m <= q * n,
        _ => false,
    }
}

/// Calibration keeps the ranking: a greater score never gets a smaller share.
pub proof fn law_calibration_keeps_ranking(points: Seq<Block>, p: u64, q: u64)
    requires
        is_monotone(points),
        p <= q,
    ensures
        share_at_most(calibrated(points, p), calibrated(points, q)),
{
    if points.len() > 0 {
        lemma_block_for(points, p, 0);
        lemma_block_for(points, q, 0);
        let i = block_for(points, p, 0);
        let j = block_for(points, q, 0);
        if i > j {
            assert(points[j].upper < p);
        }
        assert(points[i].at_most(points[j]));
    }
}

/// A calibrated value of a monotone map is a share between none and all.
pub proof fn law_calibrated_is_a_share(points: Seq<Block>, p: u64)
    requires
        is_monotone(points),
        points.len() > 0,
    ensures
        calibrated(points, p) matches Calibrated::Share { positives, count } && 0 < count
            && positives <= count,
{
    lemma_block_for(points, p, 0);
}

/// What was fitted to samples ranks as the scores do and, where there were samples,
/// gives shares between none and all.
pub proof fn law_fitted_map_is_sound(points: Seq<Block>, samples: Seq<Sample>, p: u64, q: u64)
    requires
        fits(points, samples),
        p <= q,
    ensures
        is_monotone(points),
        share_at_most(calibrated(points, p), calibrated(points, q)),
        samples.len() > 0 ==> (calibrated(points, p) matches Calibrated::Share {
            positives,
            count,
        } && 0 < count && positives <= count),
{
    let (o, cuts): (Seq<usize>, Seq<int>) = choose|o: Seq<usize>, cuts: Seq<int>| #[trigger]
        is_isotonic_fit(points, samples, o, cuts);
    let s = in_sequence(samples, o);
    assert forall|i: int, j: int| 0 <= i <= j < s.len() implies s[i].key <= s[j].key by {
        if i < j {
            assert(comes_first(keys_of(samples), o[i], o[j]));
        }
    }
    law_fit_is_monotone(points, s, cuts);
    law_calibration_keeps_ranking(points, p, q);
    if samples.len() > 0 {
        law_calibrated_is_a_share(points, p);
    }
}

/// The points are all of a map: a map made of the points of another one gives what
/// that one gives.
pub proof fn law_points_are_the_map(m: IsotonicMap, points: Vec<Block>, r: IsotonicMap, p: u64)
    requires
        points@ == m.spec_points(),
        r.spec_points() == points@,
    ensures
        calibrated(r.spec_points(), p) == calibrated(m.spec_points(), p),
{
}

/// The map without blocks changes nothing.
pub proof fn law_empty_map_is_identity(p: u64)
    ensures
        calibrated(Seq::empty(), p) == Calibrated::Same(p),
{
}

/// A map fitted to negatives alone makes nothing of every score.
pub proof fn law_negatives_give_nothing(points: Seq<Block>, samples: Seq<Sample>, p: u64)
    requires
        fits(points, samples),
        samples.len() > 0,
        forall|k: int| 0 <= k < samples.len() ==> !(#[trigger] samples[k]).positive,
    ensures
        calibrated(points, p) matches Calibrated::Share { positives, count } && positives == 0,
{
    let (o, cuts) = choose|o: Seq<usize>, cuts: Seq<int>| #[trigger]
        is_isotonic_fit(points, samples, o, cuts);
    let s = in_sequence(samples, o);
    assert forall|k: int| 0 <= k < s.len() implies !(#[trigger] s[k]).positive by {
        assert(o[k] < keys_of(samples).len());
        assert(!samples[o[k] as int].positive);
    }
    lemma_block_for(points, p, 0);
    let b = block_for(points, p, 0);
    if points.len() == 0 {
        assert(cuts[0] == cuts.last());
    }
    assert(is_block(points[b], s, cuts[b], cuts[b + 1]));
    lemma_no_positives(s, cuts[b], cuts[b + 1]);
}

proof fn lemma_no_positives(s: Seq<Sample>, i: int, j: int)
    requires
        0 <= i <= j <= s.len(),
        forall|k: int| 0 <= k < s.len() ==> !(#[trigger] s[k]).positive,
    ensures
        positives_in(s, i, j) == 0,
    decreases j - i,
{
    if i < j {
        lemma_no_positives(s, i, j - 1);
        assert(!s[j - 1].positive);
    }
}

// ── Ranking ────────────────────────────────────────────────────────────────

/// The sum of `f` over the numbers below `k`.
pub open spec fn total(f: spec_fn(int) -> int, k: int) -> int
    decreases k,
{
    if k <= 0 {
        0
    } else {
        total(f, k - 1) + f(k - 1)
    }
}

proof fn lemma_total_equal(f: spec_fn(int) -> int, g: spec_fn(int) -> int, k: int)
    requires
        forall|i: int| 0 <= i < k ==> #[trigger] f(i) == g(i),
    ensures
        total(f, k) == total(g, k),
    decreases k,
{
    if k > 0 {
        lemma_total_equal(f, g, k - 1);
    }
}

/// The sum without the entry at `p`.
proof fn lemma_total_remove(f: spec_fn(int) -> int, o: Seq<usize>, p: int, k: int)
    requires
        0 <= p < o.len(),
        0 <= k <= o.len() - 1,
    ensures
        total(|i: int| f(o.remove(p)[i] as int), k) + (if k >= p {
            f(o[p] as int)
        } else {
            0
        }) == total(
            |i: int| f(o[i] as int),
            if k >= p {
                k + 1
            } else {
                k
            },
        ),
    decreases k,
{
    let g = |i: int| f(o[i] as int);
    let h = |i: int| f(o.remove(p)[i] as int);
    if k > 0 {
        lemma_total_remove(f, o, p, k - 1);
        if k - 1 < p {
            assert(o.remove(p)[k - 1] == o[k - 1]);
            if k == p {
                assert(total(g, k + 1) == total(g, k) + g(k));
            }
        } else {
            assert(o.remove(p)[k - 1] == o[k]);
            assert(total(g, k + 1) == total(g, k) + g(k));
        }
    } else if p == 0 {
        assert(total(g, 1) == total(g, 0) + g(0));
    }
}

proof fn lemma_total_permuted(f: spec_fn(int) -> int, o: Seq<usize>)
    requires
        is_permutation(o),
        o.len() <= usize::MAX,
    ensures
        total(|i: int| f(o[i] as int), o.len() as int) == total(f, o.len() as int),
    decreases o.len(),
{
    let n = o.len() as int;
    if n > 0 {
        assert(o.contains((n - 1) as usize));
        let p = choose|p: int| 0 <= p < o.len() && o[p] == n - 1;
        let q = o.remove(p);
        assert forall|i: int, j: int| 0 <= i < q.len() && 0 <= j < q.len() && i != j implies q[i]
            != q[j] by {
            assert(q[i] == o[if i < p {
                i
            } else {
                i + 1
            }]);
            assert(q[j] == o[if j < p {
                j
            } else {
                j + 1
            }]);
        }
        assert forall|k: int| 0 <= k < q.len() implies (#[trigger] q[k]) < q.len() by {
            let y = if k < p {
                k
            } else {
                k + 1
            };
            assert(q[k] == o[y]);
            assert(o[y] < o.len());
            assert(o[y] != o[p]);
        }
        assert forall|x: usize| x < q.len() implies #[trigger] q.contains(x) by {
            assert(o.contains(x));
            let y = choose|y: int| 0 <= y < o.len() && o[y] == x;
            if y < p {
                assert(q[y] == x);
            } else {
                assert(y != p);
                assert(q[y - 1] == x);
            }
        }
        lemma_total_permuted(f, q);
        lemma_total_remove(f, o, p, n - 1);
    }
}

/// Twice what a pair of scores counts: one where the first is greater, a half
/// where they are equal.
pub open spec fn pair_points(a: u64, b: u64) -> int {
    if a > b {
        2
    } else if a == b {
        1
    } else {
        0
    }
}

/// What a score counts against sample `j`, if that is negative.
pub open spec fn against(s: Seq<Sample>, x: u64) -> spec_fn(int) -> int {
    |j: int|
        if s[j].positive {
            0
        } else {
            pair_points(x, s[j].key)
        }
}

/// What a score counts against all negatives.
pub open spec fn wins(s: Seq<Sample>, x: u64) -> int {
    total(against(s, x), s.len() as int)
}

/// What sample `i` counts against all negatives of `t`, if it is positive.
pub open spec fn wins_of(s: Seq<Sample>, t: Seq<Sample>) -> spec_fn(int) -> int {
    |i: int|
        if s[i].positive {
            wins(t, s[i].key)
        } else {
            0
        }
}

/// Twice the number of pairs of a positive and a negative in which the positive
/// has the greater score; an equal pair counts a half.
pub open spec fn all_wins(s: Seq<Sample>) -> int {
    total(wins_of(s, s), s.len() as int)
}

/// How well scores tell positives from negatives: `wins` out of twice
/// `positives` times `negatives`.
#[derive(Debug, Clone, Copy, PartialEq, Eq, Structural)]
pub struct Auroc {
    /// Twice the number of pairs in the right order.
    pub wins: u128,
    /// Number of positives.
    pub positives: u64,
    /// Number of negatives.
    pub negatives: u64,
}

proof fn lemma_order_is_permutation(keys: Seq<u64>, o: Seq<usize>)
    requires
        is_order(keys, o),
    ensures
        is_permutation(o),
{
    law_order_is_distinct(keys, o);
}

proof fn lemma_wins_of_order(s: Seq<Sample>, o: Seq<usize>)
    requires
        is_permutation(o),
        o.len() == s.len(),
        s.len() <= usize::MAX,
    ensures
        all_wins(in_sequence(s, o)) == all_wins(s),
{
    let t = in_sequence(s, o);
    let n = s.len() as int;
    assert forall|x: u64| #[trigger] wins(t, x) == wins(s, x) by {
        let f = against(s, x);
        let g = |i: int| f(o[i] as int);
        assert forall|j: int| 0 <= j < n implies #[trigger] against(t, x)(j) == g(j) by {}
        lemma_total_equal(against(t, x), g, n);
        lemma_total_permuted(f, o);
    }
    let f = wins_of(s, s);
    let g = |i: int| f(o[i] as int);
    assert forall|j: int| 0 <= j < n implies #[trigger] wins_of(t, t)(j) == g(j) by {
        assert(wins(t, t[j].key) == wins(s, t[j].key));
    }
    lemma_total_equal(wins_of(t, t), g, n);
    lemma_total_permuted(f, o);
}

/// Against sorted samples a score wins two points from every smaller one and
/// one from every equal one.
proof fn lemma_wins_sorted(s: Seq<Sample>, i: int, j: int, k: int)
    requires
        0 <= i < j <= s.len(),
        0 <= k <= s.len(),
        forall|a: int, b: int| 0 <= a <= b < s.len() ==> s[a].key <= s[b].key,
        s[i].key == s[j - 1].key,
        i > 0 ==> s[i - 1].key < s[i].key,
        j < s.len() ==> s[j - 1].key < s[j].key,
    ensures
        total(against(s, s[i].key), k) == (if k <= i {
            2 * (k - positives_below(s, k))
        } else if k <= j {
            2 * (i - positives_below(s, i)) + (k - i - positives_in(s, i, k))
        } else {
            2 * (i - positives_below(s, i)) + (j - i - positives_in(s, i, j))
        }),
    decreases k,
{
    if k > 0 {
        lemma_wins_sorted(s, i, j, k - 1);
        if k - 1 < i {
            assert(s[k - 1].key <= s[i - 1].key);
        } else if k - 1 < j {
            assert(s[i].key <= s[k - 1].key);
            assert(s[k - 1].key <= s[j - 1].key);
        } else {
            assert(s[j].key <= s[k - 1].key);
        }
    }
}

proof fn lemma_group_wins(s: Seq<Sample>, i: int, j: int, k: int)
    requires
        0 <= i <= k <= j <= s.len(),
        forall|a: int| i <= a < j ==> (#[trigger] s[a]).key == s[i].key,
    ensures
        total(wins_of(s, s), k) == total(wins_of(s, s), i) + positives_in(s, i, k) * wins(
            s,
            s[i].key,
        ),
    decreases k - i,
{
    if k > i {
        lemma_group_wins(s, i, j, k - 1);
        assert(s[k - 1].key == s[i].key);
        let w = wins(s, s[i].key);
        let p = positives_in(s, i, k - 1);
        assert((p + 1) * w == p * w + w) by (nonlinear_arith);
    } else {
        let w = wins(s, s[i].key);
        assert(0 * w == 0) by (nonlinear_arith);
    }
}

/// How well scores tell positives from negatives; nothing where either is
/// missing. Scores are ranked, and equal ones share their rank.
pub fn auroc(samples: &Vec<Sample>) -> (r: Option<Auroc>)
    ensures
        ({
            let n = samples@.len() as int;
            let p = positives_below(samples@, n);
            match r {
                Some(a) => 0 < p < n && a.wins == all_wins(samples@) && a.positives == p
                    && a.negatives == n - p,
                None => p == 0 || p == n,
            }
        }),
{
    let n: usize = samples.len();
    let (s, order): (Vec<Sample>, Ghost<Seq<usize>>) = by_key(samples);
    let mut count: u64 = 0;
    let mut c: usize = 0;
    while c < n
        invariant
            n == samples@.len(),
            c <= n,
            count == positives_below(samples@, c as int),
            count <= c,
        decreases n - c,
    {
        if samples[c].positive {
            count += 1;
        }
        c += 1;
    }
    if count == 0 || count == n as u64 {
        return None;
    }
    let negatives: u64 = n as u64 - count;
    proof {
        lemma_order_is_permutation(keys_of(samples@), order@);
        lemma_wins_of_order(samples@, order@);
        lemma_positives_of_order(samples@, order@);
    }
    let ghost pos = count as int;
    let ghost neg = negatives as int;
    let mut wins: u128 = 0;
    let mut before: u64 = 0;
    let mut i: usize = 0;
    while i < n
        invariant
            n == s@.len(),
            i <= n,
            pos + neg == n,
            pos >= 0,
            neg >= 0,
            positives_below(s@, n as int) == pos,
            forall|a: int, b: int| 0 <= a <= b < s@.len() ==> s@[a].key <= s@[b].key,
            0 < i < n ==> s@[i - 1].key < s@[i as int].key,
            before == i - positives_below(s@, i as int),
            before <= i,
            wins == total(wins_of(s@, s@), i as int),
            wins <= positives_below(s@, i as int) * (2 * neg),
        decreases n - i,
    {
        let key: u64 = s[i].key;
        let mut j: usize = i;
        let mut p: u64 = 0;
        while j < n && s[j].key == key
            invariant
                n == s@.len(),
                i < n,
                i <= j <= n,
                key == s@[i as int].key,
                forall|a: int| i <= a < j ==> (#[trigger] s@[a]).key == key,
                p == positives_in(s@, i as int, j as int),
                p <= j - i,
            decreases n - j,
        {
            if s[j].positive {
                p += 1;
            }
            j += 1;
        }
        let same: u64 = (j - i) as u64 - p;
        proof {
            assert(j > i);
            assert(j < n ==> s@[j - 1].key <= s@[j as int].key);
            lemma_wins_sorted(s@, i as int, j as int, n as int);
            lemma_group_wins(s@, i as int, j as int, j as int);
            let w = 2 * before + same;
            assert(crate::calibration::wins(s@, key) == w);
            lemma_positives(s@, 0, i as int);
            lemma_positives(s@, i as int, j as int);
            lemma_positives(s@, j as int, n as int);
            // The negatives before and in the group are among all.
            assert(before + same <= neg);
            let q = positives_below(s@, i as int);
            assert(p * w <= p * (2 * neg)) by (nonlinear_arith)
                requires
                    0 <= w <= 2 * neg,
                    p >= 0,
            ;
            assert((q + p) * (2 * neg) == q * (2 * neg) + p * (2 * neg)) by (nonlinear_arith);
            assert((q + p) * (2 * neg) <= pos * (2 * neg)) by (nonlinear_arith)
                requires
                    0 <= q + p <= pos,
                    neg >= 0,
            ;
            assert(pos * (2 * neg) <= u128::MAX && 2 * neg <= u128::MAX) by (nonlinear_arith)
                requires
                    pos >= 0,
                    neg >= 0,
                    pos + neg <= u64::MAX,
            ;
            assert(p * w <= u128::MAX && w <= u128::MAX);
        }
        let each: u128 = 2 * before as u128 + same as u128;
        wins = wins + p as u128 * each;
        before = before + same;
        i = j;
    }
    Some(Auroc { wins, positives: count, negatives })
}

proof fn lemma_positives_total(s: Seq<Sample>, k: int)
    ensures
        positives_below(s, k) == total(
            |i: int|
                if s[i].positive {
                    1int
                } else {
                    0
                },
            k,
        ),
    decreases k,
{
    if k > 0 {
        lemma_positives_total(s, k - 1);
    }
}

proof fn lemma_positives_of_order(s: Seq<Sample>, o: Seq<usize>)
    requires
        is_permutation(o),
        o.len() == s.len(),
        s.len() <= usize::MAX,
    ensures
        positives_below(in_sequence(s, o), s.len() as int) == positives_below(s, s.len() as int),
{
    let t = in_sequence(s, o);
    let n = s.len() as int;
    let f = |i: int|
        if s[i].positive {
            1int
        } else {
            0
        };
    let h = |i: int|
        if t[i].positive {
            1int
        } else {
            0
        };
    let g = |i: int| f(o[i] as int);
    lemma_positives_total(s, n);
    lemma_positives_total(t, n);
    assert forall|j: int| 0 <= j < n implies #[trigger] h(j) == g(j) by {}
    lemma_total_equal(h, g, n);
    lemma_total_permuted(f, o);
}

/// In whatever order the samples come, they are told apart as well.
pub proof fn law_order_of_samples_is_free(s: Seq<Sample>, o: Seq<usize>)
    requires
        is_permutation(o),
        o.len() == s.len(),
        s.len() <= usize::MAX,
    ensures
        all_wins(in_sequence(s, o)) == all_wins(s),
        positives_below(in_sequence(s, o), s.len() as int) == positives_below(s, s.len() as int),
{
    lemma_wins_of_order(s, o);
    lemma_positives_of_order(s, o);
}

proof fn lemma_wins_bound(s: Seq<Sample>, x: u64, k: int)
    requires
        0 <= k <= s.len(),
    ensures
        0 <= total(against(s, x), k) <= 2 * (k - positives_below(s, k)),
    decreases k,
{
    if k > 0 {
        lemma_wins_bound(s, x, k - 1);
    }
}

proof fn lemma_all_wins_bound(s: Seq<Sample>, k: int)
    requires
        0 <= k <= s.len(),
    ensures
        0 <= total(wins_of(s, s), k) <= positives_below(s, k) * (2 * (s.len() - positives_below(
            s,
            s.len() as int,
        ))),
    decreases k,
{
    let w = 2 * (s.len() - positives_below(s, s.len() as int));
    if k > 0 {
        lemma_all_wins_bound(s, k - 1);
        lemma_wins_bound(s, s[k - 1].key, s.len() as int);
        let p = positives_below(s, k - 1);
        assert((p + 1) * w == p * w + w) by (nonlinear_arith);
    } else {
        assert(0 * w == 0) by (nonlinear_arith);
    }
}

/// The ranking is a share between none and all: no more is won than twice the
/// number of pairs of a positive and a negative.
pub proof fn law_ranking_is_a_share(s: Seq<Sample>)
    ensures
        ({
            let n = s.len() as int;
            let p = positives_below(s, n);
            0 <= all_wins(s) <= 2 * p * (n - p)
        }),
{
    let n = s.len() as int;
    let p = positives_below(s, n);
    lemma_all_wins_bound(s, n);
    assert(p * (2 * (n - p)) == 2 * p * (n - p)) by (nonlinear_arith);
}

/// Only the order of the scores matters to the ranking: scores in the same order
/// with the same labels are told apart as well.
pub proof fn law_ranking_is_all(s: Seq<Sample>, t: Seq<Sample>)
    requires
        s.len() == t.len(),
        forall|i: int| 0 <= i < s.len() ==> (#[trigger] s[i]).positive == t[i].positive,
        forall|i: int, j: int|
            #![trigger s[i], s[j]]
            0 <= i < s.len() && 0 <= j < s.len() ==> (s[i].key < s[j].key <==> t[i].key < t[j].key),
    ensures
        all_wins(s) == all_wins(t),
{
    let n = s.len() as int;
    assert forall|i: int| 0 <= i < n implies #[trigger] wins_of(s, s)(i) == wins_of(t, t)(i) by {
        assert(s[i].positive == t[i].positive);
        assert forall|j: int| 0 <= j < n implies #[trigger] against(s, s[i].key)(j) == against(
            t,
            t[i].key,
        )(j) by {
            assert(s[j].positive == t[j].positive);
            assert(s[i].key < s[j].key <==> t[i].key < t[j].key);
            assert(s[j].key < s[i].key <==> t[j].key < t[i].key);
        }
        lemma_total_equal(against(s, s[i].key), against(t, t[i].key), n);
    }
    lemma_total_equal(wins_of(s, s), wins_of(t, t), n);
}

/// Whether a key is smaller, as one or none.
pub open spec fn smaller(x: Seq<u64>, v: u64) -> spec_fn(int) -> int {
    |j: int|
        if x[j] < v {
            1
        } else {
            0
        }
}

/// Whether a key is equal, as one or none.
pub open spec fn equal(x: Seq<u64>, v: u64) -> spec_fn(int) -> int {
    |j: int|
        if x[j] == v {
            1
        } else {
            0
        }
}

/// Twice the rank of the value `v` among the keys: equal keys share the mean of
/// their ranks, which count from one.
pub open spec fn double_rank(x: Seq<u64>, v: u64) -> int {
    let n = x.len() as int;
    2 * total(smaller(x, v), n) + total(equal(x, v), n) + 1
}

proof fn lemma_rank_sorted(t: Seq<u64>, i: int, j: int, k: int)
    requires
        0 <= i < j <= t.len(),
        0 <= k <= t.len(),
        forall|a: int, b: int| 0 <= a <= b < t.len() ==> t[a] <= t[b],
        t[i] == t[j - 1],
        i > 0 ==> t[i - 1] < t[i],
        j < t.len() ==> t[j - 1] < t[j],
    ensures
        total(smaller(t, t[i]), k) == (if k <= i {
            k
        } else {
            i
        }),
        total(equal(t, t[i]), k) == (if k <= i {
            0
        } else if k <= j {
            k - i
        } else {
            j - i
        }),
    decreases k,
{
    if k > 0 {
        lemma_rank_sorted(t, i, j, k - 1);
        if k - 1 < i {
            assert(t[k - 1] <= t[i - 1]);
        } else if k - 1 < j {
            assert(t[i] <= t[k - 1]);
            assert(t[k - 1] <= t[j - 1]);
        } else {
            assert(t[j] <= t[k - 1]);
        }
    }
}

/// The keys in the order `o`.
spec fn keys_in(x: Seq<u64>, o: Seq<usize>) -> Seq<u64> {
    o.map_values(|k: usize| x[k as int])
}

proof fn lemma_rank_of_order(x: Seq<u64>, o: Seq<usize>, v: u64)
    requires
        is_order(x, o),
        x.len() <= usize::MAX,
    ensures
        double_rank(keys_in(x, o), v) == double_rank(x, v),
{
    let t = keys_in(x, o);
    let n = x.len() as int;
    lemma_order_is_permutation(x, o);
    let f = smaller(x, v);
    let g = |i: int| f(o[i] as int);
    assert forall|j: int| 0 <= j < n implies #[trigger] smaller(t, v)(j) == g(j) by {}
    lemma_total_equal(smaller(t, v), g, n);
    lemma_total_permuted(f, o);
    let e = equal(x, v);
    let h = |i: int| e(o[i] as int);
    assert forall|j: int| 0 <= j < n implies #[trigger] equal(t, v)(j) == h(j) by {}
    lemma_total_equal(equal(t, v), h, n);
    lemma_total_permuted(e, o);
}

/// Twice the rank of every key; equal keys share the mean of their ranks.
pub fn ranks(x: &Vec<u64>) -> (r: Vec<u128>)
    ensures
        r@.len() == x@.len(),
        forall|k: int| 0 <= k < x@.len() ==> #[trigger] r@[k] == double_rank(x@, x@[k]),
{
    let n: usize = x.len();
    let o: Vec<usize> = stable_order(x);
    let ghost t = keys_in(x@, o@);
    let mut out: Vec<u128> = Vec::new();
    let mut c: usize = 0;
    while c < n
        invariant
            c <= n,
            out@.len() == c,
        decreases n - c,
    {
        out.push(0);
        c += 1;
    }
    proof {
        lemma_order_is_permutation(x@, o@);
        assert forall|a: int, b: int| 0 <= a <= b < t.len() implies t[a] <= t[b] by {
            assert(o@[a] < x@.len() && o@[b] < x@.len());
            if a < b {
                assert(comes_first(x@, o@[a], o@[b]));
            }
        }
    }
    let mut i: usize = 0;
    while i < n
        invariant
            n == x@.len(),
            out@.len() == n,
            o@.len() == n,
            i <= n,
            is_order(x@, o@),
            is_permutation(o@),
            t == keys_in(x@, o@),
            t.len() == n,
            forall|a: int, b: int| 0 <= a <= b < t.len() ==> t[a] <= t[b],
            0 < i < n ==> t[i - 1] < t[i as int],
            forall|k: int|
                0 <= k < i ==> out@[(#[trigger] o@[k]) as int] == double_rank(
                    x@,
                    x@[o@[k] as int],
                ),
        decreases n - i,
    {
        proof {
            assert(o@[i as int] < x@.len());
        }
        let key: u64 = x[o[i]];
        let mut j: usize = i;
        let mut more: bool = true;
        while more
            invariant
                n == x@.len(),
                o@.len() == n,
                t == keys_in(x@, o@),
                t.len() == n,
                is_order(x@, o@),
                i < n,
                i <= j <= n,
                key == t[i as int],
                forall|a: int| i <= a < j ==> #[trigger] t[a] == key,
                !more ==> j == n || t[j as int] != key,
            decreases n - j, more as int,
        {
            if j < n {
                proof {
                    assert(o@[j as int] < x@.len());
                    assert(t[j as int] == x@[o@[j as int] as int]);
                }
                if x[o[j]] == key {
                    j += 1;
                } else {
                    more = false;
                }
            } else {
                more = false;
            }
        }
        proof {
            if j == i {
                assert(t[j as int] != key);
            }
            assert(j > i);
            assert(t[j - 1] == key);
            if j < n {
                assert(t[j - 1] <= t[j as int]);
            }
            lemma_rank_sorted(t, i as int, j as int, n as int);
            lemma_rank_of_order(x@, o@, key);
            assert(double_rank(x@, key) == i + j + 1);
        }
        let rank: u128 = i as u128 + j as u128 + 1;
        let mut k: usize = i;
        while k < j
            invariant
                n == x@.len(),
                out@.len() == n,
                o@.len() == n,
                t == keys_in(x@, o@),
                is_permutation(o@),
                i <= k <= j <= n,
                rank == double_rank(x@, key),
                forall|a: int| i <= a < j ==> #[trigger] t[a] == key,
                forall|q: int|
                    0 <= q < k ==> out@[(#[trigger] o@[q]) as int] == double_rank(
                        x@,
                        x@[o@[q] as int],
                    ),
            decreases j - k,
        {
            proof {
                assert(o@[k as int] < o@.len());
                assert(t[k as int] == x@[o@[k as int] as int]);
            }
            let ghost before = out@;
            out.set(o[k], rank);
            proof {
                assert forall|q: int| 0 <= q < k + 1 implies out@[(#[trigger] o@[q]) as int]
                    == double_rank(x@, x@[o@[q] as int]) by {
                    if q < k {
                        assert(o@[q] != o@[k as int]);
                        assert(out@[o@[q] as int] == before[o@[q] as int]);
                    }
                }
            }
            k += 1;
        }
        i = j;
    }
    proof {
        assert forall|k: int| 0 <= k < x@.len() implies #[trigger] out@[k] == double_rank(
            x@,
            x@[k],
        ) by {
            assert(o@.contains(k as usize));
            let q = choose|q: int| 0 <= q < o@.len() && o@[q] == k as usize;
            assert(out@[o@[q] as int] == double_rank(x@, x@[o@[q] as int]));
        }
    }
    out
}

// ── Quantiles ──────────────────────────────────────────────────────────────

/// The position of the quantile `num / den` among `n` values in order: the
/// nearest rank, halves upwards.
pub open spec fn quantile_position(n: int, num: int, den: int) -> int {
    (2 * num * (n - 1) + den) / (2 * den)
}

/// Whether `x` is the quantile `num / den` of `v`.
pub open spec fn is_quantile(v: Seq<u64>, num: int, den: int, x: u64) -> bool {
    exists|o: Seq<usize>| #[trigger] is_order(v, o) && x == v[o[quantile_position(
        v.len() as int,
        num,
        den,
    )] as int]
}

/// The value at the quantile `num / den`.
pub fn percentile(v: &Vec<u64>, num: u32, den: u32) -> (r: u64)
    requires
        0 < v@.len(),
        num <= den,
        0 < den,
    ensures
        is_quantile(v@, num as int, den as int, r),
{
    let n: usize = v.len();
    let o: Vec<usize> = stable_order(v);
    proof {
        assert(2 * num * (n - 1) + den <= u128::MAX && 0 <= 2 * num * (n - 1)) by (nonlinear_arith)
            requires
                0 <= num <= u32::MAX,
                0 <= den <= u32::MAX,
                1 <= n <= u64::MAX,
        ;
        assert((2 * num * (n - 1) + den) / (2 * den) < n) by (nonlinear_arith)
            requires
                0 <= num <= den,
                0 < den,
                1 <= n,
        {
            assert(2 * num * (n - 1) <= 2 * den * (n - 1));
            assert(2 * num * (n - 1) + den < 2 * den * n);
        }
    }
    let at: u128 = (2 * num as u128 * (n as u128 - 1) + den as u128) / (2 * den as u128);
    proof {
        assert(at == quantile_position(n as int, num as int, den as int));
    }
    let k: usize = at as usize;
    proof {
        assert(o@[k as int] < v@.len());
    }
    v[o[k]]
}

/// Whether `x` stands in the middle of `v` in order.
pub open spec fn is_median(v: Seq<u64>, x: u64) -> bool {
    exists|o: Seq<usize>| #[trigger] is_order(v, o) && x == v[o[v.len() as int / 2] as int]
}

/// The value in the middle of `v` in order, the greater one of two.
pub fn median(v: &Vec<u64>) -> (r: u64)
    requires
        0 < v@.len(),
    ensures
        is_median(v@, r),
{
    let o: Vec<usize> = stable_order(v);
    let k: usize = v.len() / 2;
    proof {
        assert(o@[k as int] < v@.len());
    }
    v[o[k]]
}

// ── What the figures mean ──────────────────────────────────────────────────

proof fn lemma_first_block(points: Seq<Block>, p: u64, from: int)
    requires
        0 <= from <= points.len(),
        points.len() > 0,
    ensures
        ({
            let b = block_for(points, p, from);
            &&& from - 1 <= b < points.len()
            &&& forall|i: int| from <= i < b ==> (#[trigger] points[i]).upper < p
            &&& b == points.len() - 1 || p <= points[b].upper
            &&& b == from - 1 ==> from == points.len()
        }),
    decreases points.len() - from,
{
    if from < points.len() && p > points[from].upper {
        lemma_first_block(points, p, from + 1);
    }
}

/// A score is worth the share of the first block that reaches up to it, and of the last
/// one where none does.
pub proof fn law_score_falls_in_the_first_block(points: Seq<Block>, p: u64, b: int)
    requires
        0 <= b < points.len(),
        forall|i: int| 0 <= i < b ==> (#[trigger] points[i]).upper < p,
        b == points.len() - 1 || p <= points[b].upper,
    ensures
        calibrated(points, p) == (Calibrated::Share {
            positives: points[b].positives,
            count: points[b].count,
        }),
{
    lemma_first_block(points, p, 0);
    let c = block_for(points, p, 0);
    if c < b {
        assert(points[c].upper < p);
    }
    if b < c {
        assert(points[b].upper < p);
    }
}

/// How many blocks, and positives, are counted below block `k`.
spec fn block_sums(blocks: Seq<Block>, k: int) -> (int, int)
    decreases k,
{
    if k <= 0 {
        (0, 0)
    } else {
        let before = block_sums(blocks, k - 1);
        (before.0 + blocks[k - 1].count, before.1 + blocks[k - 1].positives)
    }
}

proof fn lemma_block_sums(blocks: Seq<Block>, s: Seq<Sample>, cuts: Seq<int>, n: int, k: int)
    requires
        is_fit(blocks, s, cuts, n),
        0 <= k <= blocks.len(),
    ensures
        block_sums(blocks, k) == (cuts[k], positives_below(s, cuts[k])),
        forall|i: int| 0 <= i <= k ==> 0 <= #[trigger] cuts[i] <= cuts[k],
    decreases k,
{
    if k > 0 {
        lemma_block_sums(blocks, s, cuts, n, k - 1);
        assert(is_block(blocks[k - 1], s, cuts[k - 1], cuts[k - 1 + 1]));
    }
}

/// A fit parts the samples in runs: every run has the share of positives that its own
/// samples have, no beginning of a run has a share as low as the whole run, and the
/// shares never fall from one run to the next.
pub proof fn law_runs_of_a_fit(blocks: Seq<Block>, s: Seq<Sample>, cuts: Seq<int>, b: int, m: int)
    requires
        is_fit(blocks, s, cuts, s.len() as int),
        0 <= b < blocks.len(),
    ensures
        0 <= cuts[b] < cuts[b + 1] <= s.len(),
        cuts[0] == 0 && cuts[blocks.len() as int] == s.len(),
        blocks[b].upper == s[cuts[b + 1] - 1].key,
        blocks[b].count == cuts[b + 1] - cuts[b],
        blocks[b].positives == s.subrange(cuts[b], cuts[b + 1]).filter(
            |x: Sample| x.positive,
        ).len(),
        cuts[b] < m < cuts[b + 1] ==> s.subrange(cuts[b], m).filter(
            |x: Sample| x.positive,
        ).len() * blocks[b].count > blocks[b].positives * (m - cuts[b]),
        b < blocks.len() - 1 ==> blocks[b].positives * blocks[b + 1].count <= blocks[b
            + 1].positives * blocks[b].count,
{
    lemma_block_sums(blocks, s, cuts, s.len() as int, b);
    assert(is_block(blocks[b], s, cuts[b], cuts[b + 1]));
    lemma_positives_in(s, cuts[b], cuts[b + 1]);
    if cuts[b] < m < cuts[b + 1] {
        lemma_positives_in(s, cuts[b], m);
        assert(positives_in(s, cuts[b], m) * (cuts[b + 1] - cuts[b]) > positives_in(
            s,
            cuts[b],
            cuts[b + 1],
        ) * (m - cuts[b]));
    }
    if b < blocks.len() - 1 {
        assert(blocks[b].at_most(blocks[b + 1]));
    }
}

proof fn lemma_positives_in(s: Seq<Sample>, i: int, j: int)
    requires
        0 <= i <= j <= s.len(),
    ensures
        positives_in(s, i, j) == s.subrange(i, j).filter(|x: Sample| x.positive).len(),
    decreases j - i,
{
    reveal(Seq::filter);
    let v = s.subrange(i, j);
    if i < j {
        lemma_positives_in(s, i, j - 1);
        assert(v.drop_last() =~= s.subrange(i, j - 1));
        assert(v.last() == s[j - 1]);
    }
}

/// Positives are counted as they are.
pub proof fn law_positives_are_counted(s: Seq<Sample>)
    ensures
        positives_below(s, s.len() as int) == s.filter(|x: Sample| x.positive).len(),
{
    lemma_positives_in(s, 0, s.len() as int);
    assert(s.subrange(0, s.len() as int) =~= s);
}

proof fn lemma_against(s: Seq<Sample>, x: u64, k: int, c: int)
    requires
        0 <= k <= s.len(),
        forall|j: int| 0 <= j < k && !(#[trigger] s[j]).positive ==> pair_points(x, s[j].key) == c,
    ensures
        total(against(s, x), k) == c * (k - positives_below(s, k)),
    decreases k,
{
    if k > 0 {
        lemma_against(s, x, k - 1, c);
        let m = k - 1 - positives_below(s, k - 1);
        assert(c * (m + 1) == c * m + c) by (nonlinear_arith);
    } else {
        assert(c * 0 == 0) by (nonlinear_arith);
    }
}

proof fn lemma_all_against(s: Seq<Sample>, k: int, c: int)
    requires
        0 <= k <= s.len(),
        forall|i: int, j: int|
            #![trigger s[i], s[j]]
            0 <= i < s.len() && 0 <= j < s.len() && s[i].positive && !s[j].positive ==> pair_points(
                s[i].key,
                s[j].key,
            ) == c,
    ensures
        total(wins_of(s, s), k) == c * (positives_below(s, k) * (s.len() - positives_below(
            s,
            s.len() as int,
        ))),
    decreases k,
{
    let m = s.len() - positives_below(s, s.len() as int);
    if k > 0 {
        lemma_all_against(s, k - 1, c);
        let p = positives_below(s, k - 1);
        if s[k - 1].positive {
            lemma_against(s, s[k - 1].key, s.len() as int, c);
            assert(c * ((p + 1) * m) == c * (p * m) + c * m) by (nonlinear_arith);
        }
    } else {
        assert(c * (0 * m) == 0) by (nonlinear_arith);
    }
}

/// A ranking wins every pair where all positives score above all negatives, none where
/// all score below, and half of them where all score the same.
pub proof fn law_rankings_at_their_ends(s: Seq<Sample>)
    ensures
        ({
            let p = positives_below(s, s.len() as int);
            let pairs = p * (s.len() - p);
            let above = forall|i: int, j: int|
                #![trigger s[i], s[j]]
                0 <= i < s.len() && 0 <= j < s.len() && s[i].positive && !s[j].positive ==> s[i].key
                    > s[j].key;
            let below = forall|i: int, j: int|
                #![trigger s[i], s[j]]
                0 <= i < s.len() && 0 <= j < s.len() && s[i].positive && !s[j].positive ==> s[i].key
                    < s[j].key;
            let same = forall|i: int, j: int|
                #![trigger s[i], s[j]]
                0 <= i < s.len() && 0 <= j < s.len() && s[i].positive && !s[j].positive ==> s[i].key
                    == s[j].key;
            &&& above ==> all_wins(s) == 2 * pairs
            &&& below ==> all_wins(s) == 0
            &&& same ==> all_wins(s) == pairs
        }),
{
    let n = s.len() as int;
    let p = positives_below(s, n);
    if forall|i: int, j: int|
        #![trigger s[i], s[j]]
        0 <= i < s.len() && 0 <= j < s.len() && s[i].positive && !s[j].positive ==> s[i].key
            > s[j].key {
        lemma_all_against(s, n, 2);
    }
    if forall|i: int, j: int|
        #![trigger s[i], s[j]]
        0 <= i < s.len() && 0 <= j < s.len() && s[i].positive && !s[j].positive ==> s[i].key
            < s[j].key {
        lemma_all_against(s, n, 0);
        assert(0 * (p * (n - p)) == 0) by (nonlinear_arith);
    }
    if forall|i: int, j: int|
        #![trigger s[i], s[j]]
        0 <= i < s.len() && 0 <= j < s.len() && s[i].positive && !s[j].positive ==> s[i].key
            == s[j].key {
        lemma_all_against(s, n, 1);
        assert(1 * (p * (n - p)) == p * (n - p)) by (nonlinear_arith);
    }
}

/// The position of a quantile is the one nearest to its share of the way from the first
/// to the last, halves upwards.
pub proof fn law_quantile_position_is_nearest(n: int, num: int, den: int)
    requires
        n >= 1,
        0 <= num <= den,
        den >= 1,
    ensures
        ({
            let q = quantile_position(n, num, den);
            &&& 0 <= q <= n - 1
            &&& 2 * (num * (n - 1)) - den < 2 * (den * q) <= 2 * (num * (n - 1)) + den
            &&& num == 0 ==> q == 0
            &&& num == den ==> q == n - 1
        }),
{
    let q = quantile_position(n, num, den);
    let a = num * (n - 1);
    let t = 2 * num * (n - 1) + den;
    let d = 2 * den;
    assert(2 * num * (n - 1) == 2 * a) by (nonlinear_arith)
        requires
            a == num * (n - 1),
    ;
    assert(t == d * (t / d) + t % d && 0 <= t % d < d) by (nonlinear_arith)
        requires
            d > 0,
    ;
    assert(d * q == 2 * (den * q)) by (nonlinear_arith)
        requires
            d == 2 * den,
    ;
    assert(0 <= a <= den * (n - 1)) by (nonlinear_arith)
        requires
            a == num * (n - 1),
            0 <= num <= den,
            n >= 1,
    ;
    assert(0 <= q <= n - 1) by (nonlinear_arith)
        requires
            2 * a - den < 2 * (den * q) <= 2 * a + den,
            0 <= a <= den * (n - 1),
            den >= 1,
    ;
    if num == 0 {
        assert(a == 0) by (nonlinear_arith)
            requires
                a == num * (n - 1),
                num == 0,
        ;
        assert(q == 0) by (nonlinear_arith)
            requires
                2 * (den * q) <= den,
                0 <= q,
                den >= 1,
        ;
    }
    if num == den {
        assert(q == n - 1) by (nonlinear_arith)
            requires
                2 * (den * (n - 1)) - den < 2 * (den * q),
                q <= n - 1,
                den >= 1,
        ;
    }
}

proof fn lemma_standing(v: Seq<u64>, o: Seq<usize>, q: int)
    requires
        is_order(v, o),
        0 <= q < v.len() <= usize::MAX,
    ensures
        v.contains(v[o[q] as int]),
        Set::new(|k: int| 0 <= k < v.len() && v[k] < v[o[q] as int]).len() <= q,
        Set::new(|k: int| 0 <= k < v.len() && v[k] <= v[o[q] as int]).len() > q,
{
    let x = v[o[q] as int];
    let f = |k: usize| k as int;
    let less = Set::new(|k: int| 0 <= k < v.len() && v[k] < x);
    let most = Set::new(|k: int| 0 <= k < v.len() && v[k] <= x);
    let whole = Set::new(|k: int| 0 <= k < v.len());
    vstd::set_lib::lemma_int_range(0, v.len() as int);
    assert(whole =~= vstd::set_lib::set_int_range(0, v.len() as int));
    vstd::set_lib::lemma_len_subset(less, whole);
    vstd::set_lib::lemma_len_subset(most, whole);
    let below = o.take(q).map_values(f);
    let up_to = o.take(q + 1).map_values(f);
    assert forall|k: int| #[trigger] less.contains(k) implies below.to_set().contains(k) by {
        assert(o.contains(k as usize));
        let i = choose|i: int| 0 <= i < o.len() && o[i] == k as usize;
        if i > q {
            assert(comes_first(v, o[q], o[i]));
        }
        assert(i < q);
        assert(below[i] == k);
    }
    below.lemma_cardinality_of_set();
    vstd::seq_lib::seq_to_set_is_finite(below);
    vstd::set_lib::lemma_len_subset(less, below.to_set());
    assert forall|k: int| #[trigger] up_to.to_set().contains(k) implies most.contains(k) by {
        let i = choose|i: int| 0 <= i < up_to.len() && up_to[i] == k;
        assert(k == o[i] as int);
        if i < q {
            assert(comes_first(v, o[i], o[q]));
        }
    }
    assert(up_to.no_duplicates()) by {
        assert forall|i: int, j: int| 0 <= i < up_to.len() && 0 <= j < up_to.len() && i != j implies
            up_to[i] != up_to[j] by {
            if i < j {
                assert(comes_first(v, o[i], o[j]));
            } else {
                assert(comes_first(v, o[j], o[i]));
            }
        }
    }
    up_to.unique_seq_to_set();
    vstd::set_lib::lemma_len_subset(up_to.to_set(), most);
}

/// A quantile is one of the values; no more values lie below it than its position
/// says, and more than that many do not lie above it.
pub proof fn law_quantile_stands_at_its_position(v: Seq<u64>, num: int, den: int, x: u64)
    requires
        is_quantile(v, num, den, x),
        1 <= v.len() <= usize::MAX,
        0 <= num <= den,
        den >= 1,
    ensures
        ({
            let q = (2 * num * (v.len() - 1) + den) / (2 * den);
            &&& v.contains(x)
            &&& Set::new(|k: int| 0 <= k < v.len() && v[k] < x).len() <= q
            &&& Set::new(|k: int| 0 <= k < v.len() && v[k] <= x).len() > q
        }),
{
    let q = quantile_position(v.len() as int, num, den);
    law_quantile_position_is_nearest(v.len() as int, num, den);
    let o = choose|o: Seq<usize>| #[trigger] is_order(v, o) && x == v[o[q] as int];
    lemma_standing(v, o, q);
}

/// The median is one of the values, the upper one where two stand in the middle.
pub proof fn law_median_stands_in_the_middle(v: Seq<u64>, x: u64)
    requires
        is_median(v, x),
        1 <= v.len() <= usize::MAX,
    ensures
        v.contains(x),
        2 * Set::new(|k: int| 0 <= k < v.len() && v[k] < x).len() <= v.len(),
        2 * Set::new(|k: int| 0 <= k < v.len() && v[k] <= x).len() > v.len(),
{
    let q = v.len() as int / 2;
    let o = choose|o: Seq<usize>| #[trigger] is_order(v, o) && x == v[o[q] as int];
    lemma_standing(v, o, q);
}

/// Twice the rank of a key is twice the number of smaller keys, the number of equal ones
/// and one.
pub proof fn law_ranks_count_smaller_keys(x: Seq<u64>, v: u64)
    ensures
        double_rank(x, v) == 2 * x.filter(|y: u64| y < v).len() + x.filter(|y: u64| y == v).len()
            + 1,
{
    lemma_total_filters(x, |y: u64| y < v, smaller(x, v), x.len() as int);
    lemma_total_filters(x, |y: u64| y == v, equal(x, v), x.len() as int);
    assert(x.take(x.len() as int) =~= x);
}

proof fn lemma_total_filters(
    x: Seq<u64>,
    f: spec_fn(u64) -> bool,
    g: spec_fn(int) -> int,
    k: int,
)
    requires
        0 <= k <= x.len(),
        forall|j: int|
            0 <= j < x.len() ==> #[trigger] g(j) == (if f(x[j]) {
                1int
            } else {
                0
            }),
    ensures
        total(g, k) == x.take(k).filter(f).len(),
    decreases k,
{
    reveal(Seq::filter);
    if k > 0 {
        lemma_total_filters(x, f, g, k - 1);
        assert(x.take(k).drop_last() =~= x.take(k - 1));
        assert(x.take(k).last() == x[k - 1]);
        assert(g(k - 1) == (if f(x[k - 1]) {
            1int
        } else {
            0
        }));
    } else {
        assert(x.take(k) =~= Seq::empty());
    }
}

/// Each score is a sample: its key, and whether its address is true.
pub proof fn law_scores_are_labelled(scores: Seq<(u64, u64)>, truth: Set<u64>, k: int)
    requires
        0 <= k < scores.len(),
    ensures
        labelled(scores, truth).len() == scores.len(),
        labelled(scores, truth)[k].key == scores[k].1,
        labelled(scores, truth)[k].positive <==> truth.contains(scores[k].0),
{
}

} // verus!
