//! Switching between calibrations: a bank of maps, one per regime, and the
//! rules that choose among them.

use std::collections::BTreeSet;

use vstd::prelude::*;

use crate::calibration::{
    calibrated, fits, is_monotone, is_quantile, label_scores, labelled, percentile, Calibrated,
    IsotonicMap, Sample,
};
use crate::regime::{
    classify_guard, classify_rule, nearest, nearest_below, signature_regime, Regime,
};
use crate::text::{begins_with, chars_of, chars_start_with};

verus! {

broadcast use vstd::std_specs::btree::group_btree_axioms;

/// Something for each regime.
#[derive(Debug, Clone, Copy)]
pub struct ByRegime<T> {
    /// For ordinary code.
    pub benign: T,
    /// For packed code.
    pub packed: T,
    /// For obfuscated code.
    pub obfuscated: T,
}

impl<T> ByRegime<T> {
    /// What it holds for `r`.
    pub open spec fn of(self, r: Regime) -> T {
        match r {
            Regime::Benign => self.benign,
            Regime::Packed => self.packed,
            Regime::Obfuscated => self.obfuscated,
        }
    }

    /// What it holds for `r`.
    pub fn get(&self, r: Regime) -> (t: &T)
        ensures
            *t == self.of(r),
    {
        match r {
            Regime::Benign => &self.benign,
            Regime::Packed => &self.packed,
            Regime::Obfuscated => &self.obfuscated,
        }
    }
}

// ── The bank of maps ───────────────────────────────────────────────────────

/// What is known of a binary that calibrates.
#[derive(Debug)]
pub enum FitTruth {
    /// Where its instructions start.
    Starts(BTreeSet<u64>),
    /// Where nothing but data lies.
    Data(u64, u64),
}

/// The samples of scores in `[lo, hi)`, all negative: of the first `k`.
pub open spec fn data_samples(scores: Seq<(u64, u64)>, lo: u64, hi: u64, k: int) -> Seq<Sample>
    decreases k,
{
    if k <= 0 {
        Seq::empty()
    } else if lo <= scores[k - 1].0 < hi {
        data_samples(scores, lo, hi, k - 1).push(
            Sample { key: scores[k - 1].1, positive: false },
        )
    } else {
        data_samples(scores, lo, hi, k - 1)
    }
}

/// The samples that a binary gives.
pub open spec fn samples_of(scores: Seq<(u64, u64)>, truth: FitTruth) -> Seq<Sample> {
    match truth {
        FitTruth::Starts(set) => labelled(scores, set@),
        FitTruth::Data(lo, hi) => data_samples(scores, lo, hi, scores.len() as int),
    }
}

/// The samples of each regime.
pub struct Pools {
    /// Samples.
    pub samples: ByRegime<Vec<Sample>>,
}

impl Pools {
    /// The samples of regime `r`.
    pub open spec fn of(self, r: Regime) -> Seq<Sample> {
        self.samples.of(r)@
    }

    /// No samples yet.
    pub fn new() -> (p: Pools)
        ensures
            forall|r: Regime| #[trigger] p.of(r) == Seq::<Sample>::empty(),
    {
        Pools {
            samples: ByRegime { benign: Vec::new(), packed: Vec::new(), obfuscated: Vec::new() },
        }
    }

    /// Adds the samples of a binary to those of its regime.
    pub fn pool(&mut self, regime: Regime, scores: &Vec<(u64, u64)>, truth: &FitTruth)
        ensures
            forall|r: Regime| #[trigger]
                final(self).of(r) == (if r == regime {
                    old(self).of(r) + samples_of(scores@, *truth)
                } else {
                    old(self).of(r)
                }),
    {
        let mut more: Vec<Sample> = match truth {
            FitTruth::Starts(set) => label_scores(scores, set),
            FitTruth::Data(lo, hi) => label_data(scores, *lo, *hi),
        };
        match regime {
            Regime::Benign => {
                self.samples.benign.append(&mut more);
            },
            Regime::Packed => {
                self.samples.packed.append(&mut more);
            },
            Regime::Obfuscated => {
                self.samples.obfuscated.append(&mut more);
            },
        }
    }
}

fn label_data(scores: &Vec<(u64, u64)>, lo: u64, hi: u64) -> (r: Vec<Sample>)
    ensures
        r@ == data_samples(scores@, lo, hi, scores@.len() as int),
{
    let mut out: Vec<Sample> = Vec::new();
    let mut k: usize = 0;
    while k < scores.len()
        invariant
            k <= scores@.len(),
            out@ == data_samples(scores@, lo, hi, k as int),
        decreases scores@.len() - k,
    {
        let (a, key): (u64, u64) = scores[k];
        if lo <= a && a < hi {
            out.push(Sample { key, positive: false });
        }
        k += 1;
    }
    out
}

/// A calibration map for each regime.
pub struct Bank {
    /// Maps.
    pub maps: ByRegime<IsotonicMap>,
}

impl Bank {
    /// The map of a regime.
    pub fn map(&self, r: Regime) -> (m: &IsotonicMap)
        ensures
            *m == self.maps.of(r),
    {
        self.maps.get(r)
    }
}

/// Fits the map of each regime to the samples of its binaries.
pub fn fit_bank(pools: &Pools) -> (bank: Bank)
    ensures
        forall|r: Regime| fits(#[trigger] bank.maps.of(r).spec_points(), pools.of(r)),
        forall|r: Regime| is_monotone(#[trigger] bank.maps.of(r).spec_points()),
{
    Bank {
        maps: ByRegime {
            benign: IsotonicMap::fit(&pools.samples.benign),
            packed: IsotonicMap::fit(&pools.samples.packed),
            obfuscated: IsotonicMap::fit(&pools.samples.obfuscated),
        },
    }
}

/// Samples of data alone are all negative.
pub proof fn law_data_is_negative(scores: Seq<(u64, u64)>, lo: u64, hi: u64, k: int)
    requires
        k <= scores.len(),
    ensures
        forall|j: int|
            0 <= j < data_samples(scores, lo, hi, k).len() ==> !(#[trigger] data_samples(
                scores,
                lo,
                hi,
                k,
            )[j]).positive,
    decreases k,
{
    if k > 0 {
        law_data_is_negative(scores, lo, hi, k - 1);
        let before = data_samples(scores, lo, hi, k - 1);
        let now = data_samples(scores, lo, hi, k);
        assert forall|j: int| 0 <= j < now.len() implies !(#[trigger] now[j]).positive by {
            if j < before.len() {
                assert(now[j] == before[j]);
            }
        }
    }
}

// ── Training ───────────────────────────────────────────────────────────────

/// What is measured of a binary that calibrates, by order keys.
#[derive(Debug, Clone, Copy, PartialEq, Eq, Structural)]
pub struct Signature {
    /// Its regime.
    pub regime: Regime,
    /// Mean surprise.
    pub glob: u64,
    /// Spatial clustering of the surprise.
    pub spat: u64,
    /// Entropy of its densest part.
    pub entropy: u64,
}

/// How many of the first `k` binaries are of regime `r`.
pub open spec fn count_regime(s: Seq<Signature>, r: Regime, k: int) -> int
    decreases k,
{
    if k <= 0 {
        0
    } else {
        count_regime(s, r, k - 1) + (if s[k - 1].regime == r {
            1int
        } else {
            0
        })
    }
}

/// The measures of the ordinary ones among the first `k` binaries: the
/// clustering where `spatial`, otherwise the mean.
pub open spec fn benign_keys(s: Seq<Signature>, spatial: bool, k: int) -> Seq<u64>
    decreases k,
{
    if k <= 0 {
        Seq::empty()
    } else if s[k - 1].regime == Regime::Benign {
        benign_keys(s, spatial, k - 1).push(
            if spatial {
                s[k - 1].spat
            } else {
                s[k - 1].glob
            },
        )
    } else {
        benign_keys(s, spatial, k - 1)
    }
}

/// The greatest entropy of those among the first `k` binaries that are not
/// packed.
pub open spec fn unpacked_top(s: Seq<Signature>, k: int) -> Option<u64>
    decreases k,
{
    if k <= 0 {
        None
    } else if s[k - 1].regime == Regime::Packed {
        unpacked_top(s, k - 1)
    } else {
        match unpacked_top(s, k - 1) {
            Some(x) => if x >= s[k - 1].entropy {
                Some(x)
            } else {
                Some(s[k - 1].entropy)
            },
            None => Some(s[k - 1].entropy),
        }
    }
}

/// The smallest entropy of the packed ones among the first `k` binaries.
pub open spec fn packed_bottom(s: Seq<Signature>, k: int) -> Option<u64>
    decreases k,
{
    if k <= 0 {
        None
    } else if s[k - 1].regime != Regime::Packed {
        packed_bottom(s, k - 1)
    } else {
        match packed_bottom(s, k - 1) {
            Some(x) => if x <= s[k - 1].entropy {
                Some(x)
            } else {
                Some(s[k - 1].entropy)
            },
            None => Some(s[k - 1].entropy),
        }
    }
}

/// What training finds. Thresholds follow from it by arithmetic on the values
/// behind the keys.
#[derive(Debug, Clone, Copy)]
pub struct Training {
    /// Number of binaries of each regime.
    pub counts: ByRegime<usize>,
    /// Ninety-fifth percentile of the mean surprise of ordinary binaries, where
    /// there are at least three.
    pub glob_p95: Option<u64>,
    /// The same of the clustering.
    pub spat_p95: Option<u64>,
    /// The greatest entropy of an unpacked and the smallest of a packed binary,
    /// where there are both and they are apart.
    pub entropy_gap: Option<(u64, u64)>,
}

impl Training {
    /// Whether this is what training on `s` finds.
    pub open spec fn is_trained(self, s: Seq<Signature>) -> bool {
        let n = s.len() as int;
        &&& self.counts.benign == count_regime(s, Regime::Benign, n)
        &&& self.counts.packed == count_regime(s, Regime::Packed, n)
        &&& self.counts.obfuscated == count_regime(s, Regime::Obfuscated, n)
        &&& match self.glob_p95 {
            Some(x) => self.counts.benign >= 3 && is_quantile(benign_keys(s, false, n), 19, 20, x),
            None => self.counts.benign < 3,
        }
        &&& match self.spat_p95 {
            Some(x) => self.counts.benign >= 3 && is_quantile(benign_keys(s, true, n), 19, 20, x),
            None => self.counts.benign < 3,
        }
        &&& self.entropy_gap == match (unpacked_top(s, n), packed_bottom(s, n)) {
            (Some(x), Some(y)) => if y > x {
                Some((x, y))
            } else {
                None
            },
            _ => None,
        }
    }

    /// Whether a regime takes part: whether it has been trained on.
    pub fn present(&self, r: Regime) -> (b: bool)
        ensures
            b == (self.counts.of(r) > 0),
    {
        *self.counts.get(r) > 0
    }
}

/// Trains on the binaries that calibrate; nothing where there are none.
pub fn train(s: &Vec<Signature>) -> (r: Option<Training>)
    ensures
        r is None <==> s@.len() == 0,
        r matches Some(t) ==> t.is_trained(s@),
{
    let n: usize = s.len();
    if n == 0 {
        return None;
    }
    let mut counts: ByRegime<usize> = ByRegime { benign: 0, packed: 0, obfuscated: 0 };
    let mut globs: Vec<u64> = Vec::new();
    let mut spats: Vec<u64> = Vec::new();
    let mut top: Option<u64> = None;
    let mut bottom: Option<u64> = None;
    let mut k: usize = 0;
    while k < n
        invariant
            n == s@.len(),
            k <= n,
            counts.benign <= k,
            counts.packed <= k,
            counts.obfuscated <= k,
            counts.benign == count_regime(s@, Regime::Benign, k as int),
            counts.packed == count_regime(s@, Regime::Packed, k as int),
            counts.obfuscated == count_regime(s@, Regime::Obfuscated, k as int),
            globs@ == benign_keys(s@, false, k as int),
            spats@ == benign_keys(s@, true, k as int),
            globs@.len() == counts.benign,
            spats@.len() == counts.benign,
            top == unpacked_top(s@, k as int),
            bottom == packed_bottom(s@, k as int),
        decreases n - k,
    {
        let x: Signature = s[k];
        match x.regime {
            Regime::Benign => {
                counts.benign = counts.benign + 1;
                globs.push(x.glob);
                spats.push(x.spat);
            },
            Regime::Packed => {
                counts.packed = counts.packed + 1;
            },
            Regime::Obfuscated => {
                counts.obfuscated = counts.obfuscated + 1;
            },
        }
        if x.regime == Regime::Packed {
            bottom = match bottom {
                Some(y) => if y <= x.entropy {
                    Some(y)
                } else {
                    Some(x.entropy)
                },
                None => Some(x.entropy),
            };
        } else {
            top = match top {
                Some(y) => if y >= x.entropy {
                    Some(y)
                } else {
                    Some(x.entropy)
                },
                None => Some(x.entropy),
            };
        }
        k += 1;
    }
    let glob_p95: Option<u64> = if counts.benign >= 3 {
        Some(percentile(&globs, 19, 20))
    } else {
        None
    };
    let spat_p95: Option<u64> = if counts.benign >= 3 {
        Some(percentile(&spats, 19, 20))
    } else {
        None
    };
    let entropy_gap: Option<(u64, u64)> = match (top, bottom) {
        (Some(x), Some(y)) => if y > x {
            Some((x, y))
        } else {
            None
        },
        _ => None,
    };
    Some(Training { counts, glob_p95, spat_p95, entropy_gap })
}

proof fn lemma_top_and_bottom(s: Seq<Signature>, k: int, j: int)
    requires
        0 <= j < k,
    ensures
        s[j].regime != Regime::Packed ==> (unpacked_top(s, k) matches Some(x) && s[j].entropy <= x),
        s[j].regime == Regime::Packed ==> (packed_bottom(s, k) matches Some(y) && y
            <= s[j].entropy),
    decreases k,
{
    if j < k - 1 {
        lemma_top_and_bottom(s, k - 1, j);
    }
}

/// A threshold in the gap of the entropies tells all packed binaries from all
/// others.
pub proof fn law_gap_separates(s: Seq<Signature>, t: Training, threshold: u64, j: int)
    requires
        t.is_trained(s),
        t.entropy_gap matches Some(gap) && gap.0 <= threshold < gap.1,
        0 <= j < s.len(),
    ensures
        s[j].entropy > threshold <==> s[j].regime == Regime::Packed,
{
    lemma_top_and_bottom(s, s.len() as int, j);
}

// ── Choosing a regime ──────────────────────────────────────────────────────

/// The thresholds of the rules, by order keys.
#[derive(Debug, Clone, Copy, PartialEq, Eq, Structural)]
pub struct SignatureClassifier {
    /// Mean surprise above this means obfuscated.
    pub glob_hi: u64,
    /// Clustering above this means packed.
    pub spat_hi: u64,
    /// Packed code has an entropy above this; without it any entropy will do.
    pub pack_ent_lo: Option<u64>,
}

impl SignatureClassifier {
    /// The regime that the threshold rule finds.
    pub open spec fn rule(self, glob: u64, spat: u64) -> Regime {
        signature_regime(glob > self.glob_hi, spat > self.spat_hi, true)
    }

    /// The regime that the guarded rule finds.
    pub open spec fn guarded(self, glob: u64, spat: u64, entropy: u64) -> Regime {
        signature_regime(
            glob > self.glob_hi,
            spat > self.spat_hi,
            match self.pack_ent_lo {
                Some(t) => entropy > t,
                None => true,
            },
        )
    }

    /// The threshold rule.
    pub fn classify_rule(&self, glob: u64, spat: u64) -> (r: Regime)
        ensures
            r == self.rule(glob, spat),
    {
        classify_rule(glob > self.glob_hi, spat > self.spat_hi)
    }

    /// The threshold rule with the guard on packed code.
    pub fn classify_guard(&self, glob: u64, spat: u64, entropy: u64) -> (r: Regime)
        ensures
            r == self.guarded(glob, spat, entropy),
    {
        let over: Option<bool> = match self.pack_ent_lo {
            Some(t) => Some(entropy > t),
            None => None,
        };
        classify_guard(glob > self.glob_hi, spat > self.spat_hi, over)
    }
}

/// A higher bar for packed code only ever turns a packed verdict into a benign
/// one.
pub proof fn law_higher_bar_only_abstains(
    flat: SignatureClassifier,
    raised: SignatureClassifier,
    glob: u64,
    spat: u64,
    entropy: u64,
)
    requires
        raised.glob_hi == flat.glob_hi,
        raised.pack_ent_lo == flat.pack_ent_lo,
        raised.spat_hi >= flat.spat_hi,
    ensures
        raised.rule(glob, spat) == flat.rule(glob, spat) || (flat.rule(glob, spat)
            == Regime::Packed && raised.rule(glob, spat) == Regime::Benign),
        raised.guarded(glob, spat, entropy) == flat.guarded(glob, spat, entropy) || (flat.guarded(
            glob,
            spat,
            entropy,
        ) == Regime::Packed && raised.guarded(glob, spat, entropy) == Regime::Benign),
{
}

/// The regime with the smallest of three measures, the first one if several
/// are. A missing measure does not count.
pub open spec fn smallest(m: ByRegime<Option<u64>>) -> Regime {
    nearest_below(seq![m.benign, m.packed, m.obfuscated], 3)
}

/// The regime with the smallest of three measures.
pub fn argmin_regime(m: &ByRegime<Option<u64>>) -> (r: Regime)
    ensures
        r == smallest(*m),
{
    let mut d: Vec<Option<u64>> = Vec::new();
    d.push(m.benign);
    d.push(m.packed);
    d.push(m.obfuscated);
    proof {
        assert(d@ =~= seq![m.benign, m.packed, m.obfuscated]);
    }
    nearest(&d)
}

/// What is measured of a binary under test, by order keys.
#[derive(Debug, Clone, Copy)]
pub struct Measures {
    /// Mean surprise under each engine; missing where it is no number.
    pub glob: ByRegime<Option<u64>>,
    /// Mean normalised innovation under each engine; missing where it is no
    /// number.
    pub nis: ByRegime<Option<u64>>,
    /// Distance of the signature to the centre of each regime that was trained
    /// on.
    pub distance: ByRegime<Option<u64>>,
    /// Mean surprise under the engine for ordinary code.
    pub sig_glob: u64,
    /// Clustering under the engine for ordinary code.
    pub sig_spat: u64,
    /// Entropy of the densest part.
    pub entropy: u64,
}

/// The regime whose engine and map each arm of the comparison uses.
#[derive(Debug, Clone, Copy, PartialEq, Eq, Structural)]
pub struct Picks {
    /// Never switches.
    pub always_benign: Regime,
    /// Knows the truth.
    pub oracle: Regime,
    /// Takes the engine with the least mean surprise.
    pub mmae: Regime,
    /// Takes the engine with the least normalised innovation.
    pub mmae_nis: Regime,
    /// Takes the nearest centre.
    pub clf: Regime,
    /// Follows the threshold rule.
    pub rule: Regime,
    /// Follows the guarded rule.
    pub guard: Regime,
}

/// What each arm picks for a binary of regime `truth`.
pub open spec fn picks_for(clf: SignatureClassifier, m: Measures, truth: Regime) -> Picks {
    Picks {
        always_benign: Regime::Benign,
        oracle: truth,
        mmae: smallest(m.glob),
        mmae_nis: smallest(m.nis),
        clf: smallest(m.distance),
        rule: clf.rule(m.sig_glob, m.sig_spat),
        guard: clf.guarded(m.sig_glob, m.sig_spat, m.entropy),
    }
}

/// What each arm picks for a binary of regime `truth`.
pub fn pick_arms(clf: &SignatureClassifier, m: &Measures, truth: Regime) -> (r: Picks)
    ensures
        r == picks_for(*clf, *m, truth),
{
    Picks {
        always_benign: Regime::Benign,
        oracle: truth,
        mmae: argmin_regime(&m.glob),
        mmae_nis: argmin_regime(&m.nis),
        clf: argmin_regime(&m.distance),
        rule: clf.classify_rule(m.sig_glob, m.sig_spat),
        guard: clf.classify_guard(m.sig_glob, m.sig_spat, m.entropy),
    }
}

/// The calibrated values of the first `k` scored addresses in `[lo, hi)`.
pub open spec fn values_in(v: Seq<(u64, Calibrated)>, lo: u64, hi: u64, k: int) -> Seq<
    (u64, Calibrated),
>
    decreases k,
{
    if k <= 0 {
        Seq::empty()
    } else if lo <= v[k - 1].0 < hi {
        values_in(v, lo, hi, k - 1).push(v[k - 1])
    } else {
        values_in(v, lo, hi, k - 1)
    }
}

/// The scores that an arm is graded on: those of the engine of its regime,
/// through the map of its regime.
pub fn graded(bank: &Bank, posts: &ByRegime<Vec<(u64, u64)>>, pick: Regime) -> (r: Vec<
    (u64, Calibrated),
>)
    ensures
        r@ == posts.of(pick)@.map_values(
            |x: (u64, u64)|
                (x.0, calibrated(bank.maps.of(pick).spec_points(), x.1)),
        ),
{
    bank.map(pick).apply_all(posts.get(pick))
}

/// The calibrated values in a window of data.
pub fn values_in_window(v: &Vec<(u64, Calibrated)>, lo: u64, hi: u64) -> (r: Vec<(u64, Calibrated)>)
    ensures
        r@ == values_in(v@, lo, hi, v@.len() as int),
{
    let mut out: Vec<(u64, Calibrated)> = Vec::new();
    let mut k: usize = 0;
    while k < v.len()
        invariant
            k <= v@.len(),
            out@ == values_in(v@, lo, hi, k as int),
        decreases v@.len() - k,
    {
        let x: (u64, Calibrated) = v[k];
        if lo <= x.0 && x.0 < hi {
            out.push(x);
        }
        k += 1;
    }
    out
}

/// How many of the first `k` scored addresses are true.
pub open spec fn true_count(scores: Seq<(u64, u64)>, truth: Set<u64>, k: int) -> int
    decreases k,
{
    if k <= 0 {
        0
    } else {
        true_count(scores, truth, k - 1) + (if truth.contains(scores[k - 1].0) {
            1int
        } else {
            0
        })
    }
}

/// How many scored addresses are true instructions.
pub fn count_true(scores: &Vec<(u64, u64)>, truth: &BTreeSet<u64>) -> (r: usize)
    ensures
        r == true_count(scores@, truth@, scores@.len() as int),
{
    let mut n: usize = 0;
    let mut k: usize = 0;
    while k < scores.len()
        invariant
            k <= scores@.len(),
            n == true_count(scores@, truth@, k as int),
            n <= k,
        decreases scores@.len() - k,
    {
        if truth.contains(&scores[k].0) {
            n += 1;
        }
        k += 1;
    }
    n
}

// ── Verdict ────────────────────────────────────────────────────────────────

/// A binary that was tested.
#[derive(Debug)]
pub struct Outcome {
    /// Its regime.
    pub regime: Regime,
    /// The part of the corpus it belongs to.
    pub sublabel: String,
    /// What the arms picked.
    pub picks: Picks,
}

/// A group of tested binaries.
#[derive(Debug, Clone, Copy, PartialEq, Eq, Structural)]
pub enum Group {
    /// Those of one regime, but for the two special groups.
    Core(Regime),
    /// All but the two special groups.
    AllCore,
    /// Semantically obfuscated ones: labels that begin with `tig`.
    Tigress,
    /// Interpreters: labels that begin with `vm`.
    Machines,
}

/// Whether a binary belongs to a group.
pub open spec fn belongs(o: Outcome, g: Group) -> bool {
    let tig = begins_with(o.sublabel@, "tig"@);
    let vm = begins_with(o.sublabel@, "vm"@);
    match g {
        Group::Core(r) => o.regime == r && !tig && !vm,
        Group::AllCore => !tig && !vm,
        Group::Tigress => tig,
        Group::Machines => vm,
    }
}

/// The numbers of those among the first `k` binaries that belong to a group.
pub open spec fn group_below(v: Seq<Outcome>, g: Group, k: int) -> Seq<usize>
    decreases k,
{
    if k <= 0 {
        Seq::empty()
    } else if belongs(v[k - 1], g) {
        group_below(v, g, k - 1).push((k - 1) as usize)
    } else {
        group_below(v, g, k - 1)
    }
}

/// How often each rule picked the right regime.
#[derive(Debug, Clone, Copy, PartialEq, Eq, Structural)]
pub struct Hits {
    /// By least mean surprise.
    pub mmae: usize,
    /// By least normalised innovation.
    pub mmae_nis: usize,
    /// By nearest centre.
    pub clf: usize,
    /// By the threshold rule.
    pub rule: usize,
    /// By the guarded rule.
    pub guard: usize,
}

/// One more where `b` holds.
pub open spec fn plus(n: usize, b: bool) -> usize {
    if b {
        (n + 1) as usize
    } else {
        n
    }
}

/// How often each rule picked the regime that is right for the group: the true
/// one, or ordinary code for interpreters. Of the first `k` members.
pub open spec fn hits_below(v: Seq<Outcome>, at: Seq<usize>, machines: bool, k: int) -> Hits
    decreases k,
{
    if k <= 0 {
        Hits { mmae: 0, mmae_nis: 0, clf: 0, rule: 0, guard: 0 }
    } else {
        let h = hits_below(v, at, machines, k - 1);
        let o = v[at[k - 1] as int];
        let right = if machines {
            Regime::Benign
        } else {
            o.regime
        };
        Hits {
            mmae: plus(h.mmae, o.picks.mmae == right),
            mmae_nis: plus(h.mmae_nis, o.picks.mmae_nis == right),
            clf: plus(h.clf, o.picks.clf == right),
            rule: plus(h.rule, o.picks.rule == right),
            guard: plus(h.guard, o.picks.guard == right),
        }
    }
}

/// A group with its members and what the rules made of them.
#[derive(Debug)]
pub struct GroupSummary {
    /// The group.
    pub group: Group,
    /// The numbers of its members.
    pub members: Vec<usize>,
    /// How often each rule was right.
    pub hits: Hits,
}

impl GroupSummary {
    /// Whether this is the summary of a group.
    pub open spec fn sums_up(self, v: Seq<Outcome>, g: Group) -> bool {
        &&& self.group == g
        &&& self.members@ == group_below(v, g, v.len() as int)
        &&& self.hits == hits_below(
            v,
            self.members@,
            g == Group::Machines,
            self.members@.len() as int,
        )
    }
}

fn is_member(o: &Outcome, g: Group) -> (r: bool)
    ensures
        r == belongs(*o, g),
{
    let label: Vec<char> = chars_of(o.sublabel.as_str());
    let tig: bool = chars_start_with(&label, &chars_of("tig"));
    let vm: bool = chars_start_with(&label, &chars_of("vm"));
    match g {
        Group::Core(r) => o.regime == r && !tig && !vm,
        Group::AllCore => !tig && !vm,
        Group::Tigress => tig,
        Group::Machines => vm,
    }
}

/// The members of a group, and how often each rule was right.
pub fn sum_up(v: &Vec<Outcome>, g: Group) -> (r: GroupSummary)
    ensures
        r.sums_up(v@, g),
{
    let mut members: Vec<usize> = Vec::new();
    let mut k: usize = 0;
    while k < v.len()
        invariant
            k <= v@.len(),
            members@ == group_below(v@, g, k as int),
            forall|j: int| 0 <= j < members@.len() ==> #[trigger] members@[j] < k,
        decreases v@.len() - k,
    {
        if is_member(&v[k], g) {
            members.push(k);
        }
        k += 1;
    }
    let machines: bool = g == Group::Machines;
    let mut h: Hits = Hits { mmae: 0, mmae_nis: 0, clf: 0, rule: 0, guard: 0 };
    let mut j: usize = 0;
    while j < members.len()
        invariant
            j <= members@.len(),
            forall|i: int| 0 <= i < members@.len() ==> #[trigger] members@[i] < v@.len(),
            h == hits_below(v@, members@, machines, j as int),
            h.mmae <= j,
            h.mmae_nis <= j,
            h.clf <= j,
            h.rule <= j,
            h.guard <= j,
        decreases members@.len() - j,
    {
        let o: &Outcome = &v[members[j]];
        let right: Regime = if machines {
            Regime::Benign
        } else {
            o.regime
        };
        if o.picks.mmae == right {
            h.mmae = h.mmae + 1;
        }
        if o.picks.mmae_nis == right {
            h.mmae_nis = h.mmae_nis + 1;
        }
        if o.picks.clf == right {
            h.clf = h.clf + 1;
        }
        if o.picks.rule == right {
            h.rule = h.rule + 1;
        }
        if o.picks.guard == right {
            h.guard = h.guard + 1;
        }
        j += 1;
    }
    GroupSummary { group: g, members, hits: h }
}

/// What the comparison shows.
#[derive(Debug)]
pub struct Summary {
    /// Number of tested binaries.
    pub n_holdout: usize,
    /// The regimes that have members.
    pub per_regime: Vec<GroupSummary>,
    /// All but the special groups.
    pub core: GroupSummary,
    /// Semantically obfuscated binaries.
    pub tigress: GroupSummary,
    /// Interpreters.
    pub machines: GroupSummary,
}

/// The regimes with members among the first `k`.
pub open spec fn regimes_with_members(v: Seq<Outcome>, k: int) -> Seq<Group>
    decreases k,
{
    if k <= 0 {
        Seq::empty()
    } else {
        let g = Group::Core(Regime::spec_at(k - 1));
        let before = regimes_with_members(v, k - 1);
        if group_below(v, g, v.len() as int).len() > 0 {
            before.push(g)
        } else {
            before
        }
    }
}

impl Summary {
    /// Whether this sums up the tests.
    pub open spec fn is_summary(self, v: Seq<Outcome>) -> bool {
        let gs = regimes_with_members(v, 3);
        &&& self.n_holdout == v.len()
        &&& self.per_regime@.len() == gs.len()
        &&& forall|k: int| 0 <= k < gs.len() ==> (#[trigger] self.per_regime@[k]).sums_up(v, gs[k])
        &&& self.core.sums_up(v, Group::AllCore)
        &&& self.tigress.sums_up(v, Group::Tigress)
        &&& self.machines.sums_up(v, Group::Machines)
    }
}

/// Sums up the tests by groups.
pub fn analyze(v: &Vec<Outcome>) -> (r: Summary)
    ensures
        r.is_summary(v@),
{
    let all: Vec<Regime> = Regime::all();
    let mut per_regime: Vec<GroupSummary> = Vec::new();
    let mut k: usize = 0;
    while k < 3
        invariant
            k <= 3,
            all@ == seq![Regime::Benign, Regime::Packed, Regime::Obfuscated],
            per_regime@.len() == regimes_with_members(v@, k as int).len(),
            forall|j: int|
                0 <= j < per_regime@.len() ==> (#[trigger] per_regime@[j]).sums_up(
                    v@,
                    regimes_with_members(v@, k as int)[j],
                ),
        decreases 3 - k,
    {
        let g: Group = Group::Core(all[k]);
        let one: GroupSummary = sum_up(v, g);
        let ghost before = per_regime@;
        if one.members.len() > 0 {
            per_regime.push(one);
        }
        proof {
            let gs = regimes_with_members(v@, k + 1);
            assert(g == Group::Core(Regime::spec_at(k as int)));
            assert forall|j: int| 0 <= j < per_regime@.len() implies (
            #[trigger] per_regime@[j]).sums_up(v@, gs[j]) by {
                if j < before.len() {
                    assert(per_regime@[j] == before[j]);
                }
            }
        }
        k += 1;
    }
    Summary {
        n_holdout: v.len(),
        per_regime,
        core: sum_up(v, Group::AllCore),
        tigress: sum_up(v, Group::Tigress),
        machines: sum_up(v, Group::Machines),
    }
}

/// The regimes part the core: a binary outside the special groups belongs to
/// exactly one of them.
pub proof fn law_regimes_part_the_core(o: Outcome, r: Regime, q: Regime)
    ensures
        belongs(o, Group::AllCore) <==> belongs(o, Group::Core(o.regime)),
        belongs(o, Group::Core(r)) && belongs(o, Group::Core(q)) ==> r == q,
        belongs(o, Group::AllCore) ==> !belongs(o, Group::Tigress) && !belongs(
            o,
            Group::Machines,
        ),
{
}

// ── What training and tests count ──────────────────────────────────────────

proof fn lemma_data_samples(scores: Seq<(u64, u64)>, lo: u64, hi: u64, k: int)
    requires
        0 <= k <= scores.len(),
    ensures
        data_samples(scores, lo, hi, k) == scores.take(k).filter(
            |x: (u64, u64)| lo <= x.0 < hi,
        ).map_values(|x: (u64, u64)| Sample { key: x.1, positive: false }),
    decreases k,
{
    reveal(Seq::filter);
    let f = |x: (u64, u64)| lo <= x.0 < hi;
    let g = |x: (u64, u64)| Sample { key: x.1, positive: false };
    if k > 0 {
        lemma_data_samples(scores, lo, hi, k - 1);
        assert(scores.take(k).drop_last() =~= scores.take(k - 1));
        assert(scores.take(k).last() == scores[k - 1]);
        let before = scores.take(k - 1).filter(f);
        if f(scores[k - 1]) {
            assert(before.push(scores[k - 1]).map_values(g) =~= before.map_values(g).push(
                g(scores[k - 1]),
            ));
        }
    } else {
        assert(scores.take(k) =~= Seq::empty());
        assert(Seq::<(u64, u64)>::empty().map_values(g) =~= Seq::empty());
    }
}

/// Where the instructions are known, every score is a sample, and true addresses are
/// positive; where only data is known, its scores alone are, all negative.
pub proof fn law_samples_of_a_binary(scores: Seq<(u64, u64)>, truth: FitTruth)
    ensures
        truth matches FitTruth::Starts(set) ==> samples_of(scores, truth) == scores.map_values(
            |x: (u64, u64)| Sample { key: x.1, positive: set@.contains(x.0) },
        ),
        truth matches FitTruth::Data(lo, hi) ==> samples_of(scores, truth) == scores.filter(
            |x: (u64, u64)| lo <= x.0 < hi,
        ).map_values(|x: (u64, u64)| Sample { key: x.1, positive: false }),
{
    match truth {
        FitTruth::Starts(set) => {
            assert(samples_of(scores, truth) =~= scores.map_values(
                |x: (u64, u64)| Sample { key: x.1, positive: set@.contains(x.0) },
            ));
        },
        FitTruth::Data(lo, hi) => {
            lemma_data_samples(scores, lo, hi, scores.len() as int);
            assert(scores.take(scores.len() as int) =~= scores);
        },
    }
}

proof fn lemma_count_regime(s: Seq<Signature>, r: Regime, k: int)
    requires
        0 <= k <= s.len(),
    ensures
        count_regime(s, r, k) == s.take(k).filter(|x: Signature| x.regime == r).len(),
    decreases k,
{
    reveal(Seq::filter);
    if k > 0 {
        lemma_count_regime(s, r, k - 1);
        assert(s.take(k).drop_last() =~= s.take(k - 1));
        assert(s.take(k).last() == s[k - 1]);
    } else {
        assert(s.take(k) =~= Seq::empty());
    }
}

proof fn lemma_benign_keys(s: Seq<Signature>, spatial: bool, k: int)
    requires
        0 <= k <= s.len(),
    ensures
        benign_keys(s, spatial, k) == s.take(k).filter(
            |x: Signature| x.regime == Regime::Benign,
        ).map_values(
            |x: Signature|
                if spatial {
                    x.spat
                } else {
                    x.glob
                },
        ),
    decreases k,
{
    reveal(Seq::filter);
    let f = |x: Signature| x.regime == Regime::Benign;
    let g = |x: Signature|
        if spatial {
            x.spat
        } else {
            x.glob
        };
    if k > 0 {
        lemma_benign_keys(s, spatial, k - 1);
        assert(s.take(k).drop_last() =~= s.take(k - 1));
        assert(s.take(k).last() == s[k - 1]);
        let before = s.take(k - 1).filter(f);
        if f(s[k - 1]) {
            assert(before.push(s[k - 1]).map_values(g) =~= before.map_values(g).push(g(s[k - 1])));
        }
    } else {
        assert(s.take(k) =~= Seq::empty());
        assert(Seq::<Signature>::empty().map_values(g) =~= Seq::empty());
    }
}

/// Training counts the binaries of each regime, and sets the bars at the ninety-fifth
/// percentile of the ordinary ones, of mean and of clustering, where there are three of
/// them or more.
pub proof fn law_training_sets_the_bars(s: Seq<Signature>, t: Training, r: Regime)
    requires
        t.is_trained(s),
    ensures
        t.counts.of(r) == s.filter(|x: Signature| x.regime == r).len(),
        t.glob_p95 is Some <==> s.filter(|x: Signature| x.regime == Regime::Benign).len() >= 3,
        t.spat_p95 is Some <==> s.filter(|x: Signature| x.regime == Regime::Benign).len() >= 3,
        t.glob_p95 matches Some(x) ==> is_quantile(
            s.filter(|y: Signature| y.regime == Regime::Benign).map_values(|y: Signature| y.glob),
            19,
            20,
            x,
        ),
        t.spat_p95 matches Some(x) ==> is_quantile(
            s.filter(|y: Signature| y.regime == Regime::Benign).map_values(|y: Signature| y.spat),
            19,
            20,
            x,
        ),
{
    let n = s.len() as int;
    assert(s.take(n) =~= s);
    lemma_count_regime(s, r, n);
    lemma_count_regime(s, Regime::Benign, n);
    lemma_benign_keys(s, false, n);
    lemma_benign_keys(s, true, n);
    let v = s.filter(|y: Signature| y.regime == Regime::Benign);
    assert(benign_keys(s, false, n) =~= v.map_values(|y: Signature| y.glob));
    assert(benign_keys(s, true, n) =~= v.map_values(|y: Signature| y.spat));
}

proof fn lemma_tops(s: Seq<Signature>, k: int)
    requires
        0 <= k <= s.len(),
    ensures
        match unpacked_top(s, k) {
            Some(x) => (exists|j: int|
                0 <= j < k && (#[trigger] s[j]).regime != Regime::Packed && s[j].entropy == x)
                && forall|j: int|
                0 <= j < k && (#[trigger] s[j]).regime != Regime::Packed ==> s[j].entropy <= x,
            None => forall|j: int| 0 <= j < k ==> (#[trigger] s[j]).regime == Regime::Packed,
        },
        match packed_bottom(s, k) {
            Some(x) => (exists|j: int|
                0 <= j < k && (#[trigger] s[j]).regime == Regime::Packed && s[j].entropy == x)
                && forall|j: int|
                0 <= j < k && (#[trigger] s[j]).regime == Regime::Packed ==> s[j].entropy >= x,
            None => forall|j: int| 0 <= j < k ==> (#[trigger] s[j]).regime != Regime::Packed,
        },
    decreases k,
{
    if k > 0 {
        lemma_tops(s, k - 1);
        assert(s[k - 1].entropy == s[k - 1].entropy);
    }
}

/// There is a gap of entropy where every packed binary lies above every other one, and
/// both kinds occur; it runs from the highest of the others to the lowest packed one.
pub proof fn law_entropy_gap(s: Seq<Signature>, t: Training)
    requires
        t.is_trained(s),
    ensures
        t.entropy_gap is Some <==> {
            &&& exists|i: int| 0 <= i < s.len() && (#[trigger] s[i]).regime == Regime::Packed
            &&& exists|i: int| 0 <= i < s.len() && (#[trigger] s[i]).regime != Regime::Packed
            &&& forall|i: int, j: int|
                #![trigger s[i], s[j]]
                0 <= i < s.len() && 0 <= j < s.len() && s[i].regime == Regime::Packed && s[j].regime
                    != Regime::Packed ==> s[i].entropy > s[j].entropy
        },
        t.entropy_gap matches Some(gap) ==> gap.0 < gap.1 && (exists|j: int|
            0 <= j < s.len() && (#[trigger] s[j]).regime != Regime::Packed && s[j].entropy == gap.0)
            && (exists|j: int|
            0 <= j < s.len() && (#[trigger] s[j]).regime == Regime::Packed && s[j].entropy
                == gap.1),
{
    lemma_tops(s, s.len() as int);
}

/// Every arm picks by its own measure: the smallest of three, the threshold rule, or the
/// guarded one; one arm never switches and one knows the truth.
pub proof fn law_arms_pick(clf: SignatureClassifier, m: Measures, truth: Regime)
    ensures
        ({
            let p = picks_for(clf, m, truth);
            &&& p.always_benign == Regime::Benign
            &&& p.oracle == truth
            &&& p.mmae == nearest_below(seq![m.glob.benign, m.glob.packed, m.glob.obfuscated], 3)
            &&& p.mmae_nis == nearest_below(
                seq![m.nis.benign, m.nis.packed, m.nis.obfuscated],
                3,
            )
            &&& p.clf == nearest_below(
                seq![m.distance.benign, m.distance.packed, m.distance.obfuscated],
                3,
            )
            &&& p.rule == Regime::Obfuscated <==> m.sig_glob > clf.glob_hi
            &&& p.rule == Regime::Packed <==> m.sig_glob <= clf.glob_hi && m.sig_spat > clf.spat_hi
            &&& p.guard == Regime::Obfuscated <==> m.sig_glob > clf.glob_hi
            &&& p.guard == Regime::Packed <==> p.rule == Regime::Packed && (
            clf.pack_ent_lo matches Some(e) ==> m.entropy > e)
        }),
{
}

proof fn lemma_values_in(v: Seq<(u64, Calibrated)>, lo: u64, hi: u64, k: int)
    requires
        0 <= k <= v.len(),
    ensures
        values_in(v, lo, hi, k) == v.take(k).filter(|x: (u64, Calibrated)| lo <= x.0 < hi),
    decreases k,
{
    reveal(Seq::filter);
    if k > 0 {
        lemma_values_in(v, lo, hi, k - 1);
        assert(v.take(k).drop_last() =~= v.take(k - 1));
        assert(v.take(k).last() == v[k - 1]);
    } else {
        assert(v.take(k) =~= Seq::empty());
    }
}

/// The values of a window are those of its addresses, in order.
pub proof fn law_values_of_a_window(v: Seq<(u64, Calibrated)>, lo: u64, hi: u64)
    ensures
        values_in(v, lo, hi, v.len() as int) == v.filter(|x: (u64, Calibrated)| lo <= x.0 < hi),
{
    lemma_values_in(v, lo, hi, v.len() as int);
    assert(v.take(v.len() as int) =~= v);
}

proof fn lemma_true_count(scores: Seq<(u64, u64)>, truth: Set<u64>, k: int)
    requires
        0 <= k <= scores.len(),
    ensures
        true_count(scores, truth, k) == scores.take(k).filter(
            |x: (u64, u64)| truth.contains(x.0),
        ).len(),
    decreases k,
{
    reveal(Seq::filter);
    if k > 0 {
        lemma_true_count(scores, truth, k - 1);
        assert(scores.take(k).drop_last() =~= scores.take(k - 1));
        assert(scores.take(k).last() == scores[k - 1]);
    } else {
        assert(scores.take(k) =~= Seq::empty());
    }
}

/// True scores are those of true addresses.
pub proof fn law_true_scores(scores: Seq<(u64, u64)>, truth: Set<u64>)
    ensures
        true_count(scores, truth, scores.len() as int) == scores.filter(
            |x: (u64, u64)| truth.contains(x.0),
        ).len(),
{
    lemma_true_count(scores, truth, scores.len() as int);
    assert(scores.take(scores.len() as int) =~= scores);
}

/// A variant whose name begins with `tig` or `vm` belongs to a group of its own and to
/// no part of the core; the others belong to the core and to that of their regime.
pub proof fn law_groups_of_a_binary(o: Outcome, r: Regime)
    ensures
        ({
            let n = o.sublabel@;
            let tig = n.len() >= 3 && n[0] == 't' && n[1] == 'i' && n[2] == 'g';
            let vm = n.len() >= 2 && n[0] == 'v' && n[1] == 'm';
            &&& belongs(o, Group::Tigress) <==> tig
            &&& belongs(o, Group::Machines) <==> vm
            &&& belongs(o, Group::AllCore) <==> !tig && !vm
            &&& belongs(o, Group::Core(r)) <==> !tig && !vm && o.regime == r
        }),
{
    let n = o.sublabel@;
    reveal_strlit("tig");
    reveal_strlit("vm");
    if n.len() >= 3 {
        let t = n.take(3);
        assert(t[0] == n[0] && t[1] == n[1] && t[2] == n[2]);
        if n[0] == 't' && n[1] == 'i' && n[2] == 'g' {
            assert(t =~= "tig"@);
        }
    }
    if n.len() >= 2 {
        let t = n.take(2);
        assert(t[0] == n[0] && t[1] == n[1]);
        if n[0] == 'v' && n[1] == 'm' {
            assert(t =~= "vm"@);
        }
    }
}

proof fn lemma_group(v: Seq<Outcome>, g: Group, k: int)
    requires
        0 <= k <= v.len() <= usize::MAX,
    ensures
        group_below(v, g, k).len() <= k,
        forall|i: usize| #[trigger]
            group_below(v, g, k).contains(i) <==> i < k && belongs(v[i as int], g),
        forall|i: int, j: int|
            0 <= i < j < group_below(v, g, k).len() ==> group_below(v, g, k)[i] < group_below(
                v,
                g,
                k,
            )[j],
    decreases k,
{
    if k > 0 {
        lemma_group(v, g, k - 1);
        let before = group_below(v, g, k - 1);
        let now = group_below(v, g, k);
        assert forall|i: usize| #[trigger] now.contains(i) <==> i < k && belongs(v[i as int], g) by {
            vstd::seq_lib::lemma_seq_contains_after_push(before, (k - 1) as usize, i);
            assert(before.contains(i) <==> i < k - 1 && belongs(v[i as int], g));
        }
        assert forall|i: int, j: int| 0 <= i < j < now.len() implies now[i] < now[j] by {
            if now.len() > before.len() && i < before.len() {
                assert(before.contains(before[i]));
            }
        }
    }
}

proof fn lemma_hits(v: Seq<Outcome>, at: Seq<usize>, machines: bool, k: int)
    requires
        0 <= k <= at.len() <= usize::MAX,
    ensures
        ({
            let h = hits_below(v, at, machines, k);
            let right = |i: usize|
                if machines {
                    Regime::Benign
                } else {
                    v[i as int].regime
                };
            &&& h.mmae == at.take(k).filter(|i: usize| v[i as int].picks.mmae == right(i)).len()
            &&& h.mmae_nis == at.take(k).filter(
                |i: usize| v[i as int].picks.mmae_nis == right(i),
            ).len()
            &&& h.clf == at.take(k).filter(|i: usize| v[i as int].picks.clf == right(i)).len()
            &&& h.rule == at.take(k).filter(|i: usize| v[i as int].picks.rule == right(i)).len()
            &&& h.guard == at.take(k).filter(|i: usize| v[i as int].picks.guard == right(i)).len()
            &&& h.mmae <= k && h.mmae_nis <= k && h.clf <= k && h.rule <= k && h.guard <= k
        }),
    decreases k,
{
    reveal(Seq::filter);
    if k > 0 {
        lemma_hits(v, at, machines, k - 1);
        assert(at.take(k).drop_last() =~= at.take(k - 1));
        assert(at.take(k).last() == at[k - 1]);
    } else {
        assert(at.take(k) =~= Seq::empty());
    }
}

/// A group lists its members in order and counts, for every rule, those for which it
/// picked right: the true regime, or for interpreters ordinary code.
pub proof fn law_group_summary(s: GroupSummary, v: Seq<Outcome>, g: Group, i: usize)
    requires
        s.sums_up(v, g),
        i < v.len() <= usize::MAX,
    ensures
        s.group == g,
        s.members@.contains(i) <==> belongs(v[i as int], g),
        forall|x: int, y: int| 0 <= x < y < s.members@.len() ==> s.members@[x] < s.members@[y],
        ({
            let right = |k: usize|
                if g == Group::Machines {
                    Regime::Benign
                } else {
                    v[k as int].regime
                };
            let at = s.members@;
            &&& s.hits.mmae == at.filter(|k: usize| v[k as int].picks.mmae == right(k)).len()
            &&& s.hits.mmae_nis == at.filter(
                |k: usize| v[k as int].picks.mmae_nis == right(k),
            ).len()
            &&& s.hits.clf == at.filter(|k: usize| v[k as int].picks.clf == right(k)).len()
            &&& s.hits.rule == at.filter(|k: usize| v[k as int].picks.rule == right(k)).len()
            &&& s.hits.guard == at.filter(|k: usize| v[k as int].picks.guard == right(k)).len()
        }),
{
    let at = s.members@;
    lemma_group(v, g, v.len() as int);
    lemma_hits(v, at, g == Group::Machines, at.len() as int);
    assert(at.take(at.len() as int) =~= at);
}

/// The summary of the tests has, in order, the regimes with any member in the core.
pub proof fn law_summary_lists_regimes(s: Summary, v: Seq<Outcome>, r: Regime)
    requires
        s.is_summary(v),
        v.len() <= usize::MAX,
    ensures
        s.n_holdout == v.len(),
        (exists|k: int|
            0 <= k < s.per_regime@.len() && (#[trigger] s.per_regime@[k]).group == Group::Core(r))
            <==> exists|i: int| 0 <= i < v.len() && belongs(#[trigger] v[i], Group::Core(r)),
        s.core.group == Group::AllCore,
        s.tigress.group == Group::Tigress,
        s.machines.group == Group::Machines,
{
    reveal_with_fuel(regimes_with_members, 4);
    let gs = regimes_with_members(v, 3);
    let g = Group::Core(r);
    let b = group_below(v, Group::Core(Regime::Benign), v.len() as int).len() > 0;
    let p = group_below(v, Group::Core(Regime::Packed), v.len() as int).len() > 0;
    lemma_group(v, g, v.len() as int);
    let at = group_below(v, g, v.len() as int);
    assert(at.len() > 0 <==> exists|i: int|
        0 <= i < v.len() && belongs(#[trigger] v[i], Group::Core(r))) by {
        if at.len() > 0 {
            assert(at.contains(at[0]));
            assert(belongs(v[at[0] as int], g));
        }
        if exists|i: int| 0 <= i < v.len() && belongs(#[trigger] v[i], Group::Core(r)) {
            let i = choose|i: int| 0 <= i < v.len() && belongs(#[trigger] v[i], Group::Core(r));
            assert(at.contains(i as usize));
        }
    }
    if at.len() > 0 {
        let k: int = match r {
            Regime::Benign => 0,
            Regime::Packed => if b {
                1
            } else {
                0
            },
            Regime::Obfuscated => (if b {
                1int
            } else {
                0
            }) + (if p {
                1int
            } else {
                0
            }),
        };
        assert(gs[k] == g);
        assert(s.per_regime@[k].group == g);
    }
}

} // verus!
