//! Whether surprise tells where calibration has gone stale: roles of binaries,
//! clusters of surprise, and the verdict.

use vstd::prelude::*;

use crate::calibration::{
    all_wins, auroc, is_median, is_quantile, median, percentile, positives_below, quantile_position,
    Auroc, Sample,
};
use crate::order::{is_order, law_order_is_unique};
use crate::text::str_eq;

verus! {

// ── Roles ──────────────────────────────────────────────────────────────────

/// What a binary is used for.
#[derive(Debug, Clone, Copy, PartialEq, Eq, Structural)]
pub enum Role {
    /// Ordinary code that calibrates.
    CleanFit,
    /// Ordinary code that tests.
    CleanHoldout,
    /// Code obfuscated by junk.
    Desync,
    /// Packed code.
    Packed,
}

impl Role {
    /// The tag of a role.
    pub open spec fn spec_tag(self) -> Seq<char> {
        match self {
            Role::CleanFit => "clean_fit"@,
            Role::CleanHoldout => "clean_holdout"@,
            Role::Desync => "desync"@,
            Role::Packed => "packed"@,
        }
    }

    /// The tag of a role.
    pub fn tag(self) -> (r: &'static str)
        ensures
            r@ == self.spec_tag(),
    {
        match self {
            Role::CleanFit => "clean_fit",
            Role::CleanHoldout => "clean_holdout",
            Role::Desync => "desync",
            Role::Packed => "packed",
        }
    }

    /// Whether the code is obfuscated or packed.
    pub open spec fn spec_is_obfuscated(self) -> bool {
        self == Role::Desync || self == Role::Packed
    }

    /// Whether the code is obfuscated or packed.
    pub fn is_obfuscated(self) -> (r: bool)
        ensures
            r == self.spec_is_obfuscated(),
    {
        match self {
            Role::Desync => true,
            Role::Packed => true,
            _ => false,
        }
    }
}

/// The role with the tag `s`.
pub open spec fn role_tagged(s: Seq<char>) -> Option<Role> {
    if s == "clean_fit"@ {
        Some(Role::CleanFit)
    } else if s == "clean_holdout"@ {
        Some(Role::CleanHoldout)
    } else if s == "desync"@ {
        Some(Role::Desync)
    } else if s == "packed"@ {
        Some(Role::Packed)
    } else {
        None
    }
}

/// The role with the tag `s`.
pub fn parse_role(s: &str) -> (r: Option<Role>)
    ensures
        r == role_tagged(s@),
{
    if str_eq(s, "clean_fit") {
        Some(Role::CleanFit)
    } else if str_eq(s, "clean_holdout") {
        Some(Role::CleanHoldout)
    } else if str_eq(s, "desync") {
        Some(Role::Desync)
    } else if str_eq(s, "packed") {
        Some(Role::Packed)
    } else {
        None
    }
}

/// A role is known by its tag.
pub proof fn law_role_round_trip(r: Role)
    ensures
        role_tagged(r.spec_tag()) == Some(r),
{
    reveal_strlit("clean_fit");
    reveal_strlit("clean_holdout");
    reveal_strlit("desync");
    reveal_strlit("packed");
    assert("clean_fit"@.len() == 9);
    assert("clean_holdout"@.len() == 13);
    assert("desync"@.len() == 6);
    assert("packed"@.len() == 6);
    assert("desync"@[0] == 'd');
    assert("packed"@[0] == 'p');
}

/// The regime of a role, as a table names it.
pub open spec fn role_regime(role: Seq<char>) -> Seq<char> {
    if role == "clean_holdout"@ {
        "benign"@
    } else if role == "desync"@ {
        "obfuscated"@
    } else {
        role
    }
}

/// The regime of a role, as a table names it. Other names stay as they are.
pub fn map_role<'a>(role: &'a str) -> (r: &'a str)
    ensures
        r@ == role_regime(role@),
{
    if str_eq(role, "clean_holdout") {
        "benign"
    } else if str_eq(role, "desync") {
        "obfuscated"
    } else {
        role
    }
}

// ── Clusters ───────────────────────────────────────────────────────────────

/// Whether three events in a row stand at `s`.
pub open spec fn triple_at(e: Seq<bool>, s: int) -> bool {
    0 <= s && s + 3 <= e.len() && e[s] && e[s + 1] && e[s + 2]
}

/// Whether the event at `i` belongs to a run of at least three.
pub open spec fn is_clustered(e: Seq<bool>, i: int) -> bool {
    exists|s: int| s <= i < s + 3 && #[trigger] triple_at(e, s)
}

/// The number of events among the first `k`.
pub open spec fn events_below(e: Seq<bool>, k: int) -> int
    decreases k,
{
    if k <= 0 {
        0
    } else {
        events_below(e, k - 1) + (if e[k - 1] {
            1int
        } else {
            0
        })
    }
}

/// The number of events among the first `k` that belong to a run of at least
/// three.
pub open spec fn clustered_below(e: Seq<bool>, k: int) -> int
    decreases k,
{
    if k <= 0 {
        0
    } else {
        clustered_below(e, k - 1) + (if is_clustered(e, k - 1) {
            1int
        } else {
            0
        })
    }
}

/// The numbers of all events and of those in runs.
#[derive(Debug, Clone, Copy, PartialEq, Eq, Structural)]
pub struct Clusters {
    /// All events.
    pub events: usize,
    /// Events in runs of at least three.
    pub clustered: usize,
}

/// Whether every event in `[i, j)` is clustered; or none, where the run is too
/// short.
proof fn lemma_run(e: Seq<bool>, i: int, j: int, k: int)
    requires
        0 <= i <= k < j <= e.len(),
        forall|a: int| i <= a < j ==> #[trigger] e[a],
        i > 0 ==> !e[i - 1],
        j < e.len() ==> !e[j],
    ensures
        is_clustered(e, k) <==> j - i >= 3,
{
    if j - i >= 3 {
        let s = if k + 3 <= j {
            k
        } else {
            j - 3
        };
        assert(e[s] && e[s + 1] && e[s + 2]);
        assert(triple_at(e, s));
    } else if is_clustered(e, k) {
        let s = choose|s: int| s <= k < s + 3 && #[trigger] triple_at(e, s);
        if s < i {
            assert(s <= i - 1 <= s + 2);
            assert(e[i - 1]);
        } else {
            assert(s + 2 >= j);
            assert(s <= j <= s + 2);
            assert(e[j]);
        }
    }
}

proof fn lemma_run_sums(e: Seq<bool>, i: int, j: int, k: int)
    requires
        0 <= i <= k <= j <= e.len(),
        forall|a: int| i <= a < j ==> #[trigger] e[a],
        i > 0 ==> !e[i - 1],
        j < e.len() ==> !e[j],
    ensures
        events_below(e, k) == events_below(e, i) + (k - i),
        clustered_below(e, k) == clustered_below(e, i) + (if j - i >= 3 {
            k - i
        } else {
            0
        }),
    decreases k - i,
{
    if k > i {
        lemma_run_sums(e, i, j, k - 1);
        lemma_run(e, i, j, k - 1);
    }
}

/// Counts the events and those that come in runs of at least three.
pub fn count_clusters(e: &Vec<bool>) -> (r: Clusters)
    ensures
        r.events == events_below(e@, e@.len() as int),
        r.clustered == clustered_below(e@, e@.len() as int),
        r.clustered <= r.events <= e@.len(),
{
    let n: usize = e.len();
    let mut events: usize = 0;
    let mut clustered: usize = 0;
    let mut i: usize = 0;
    while i < n
        invariant
            n == e@.len(),
            i <= n,
            0 < i < n ==> !e@[i - 1] || !e@[i as int],
            events == events_below(e@, i as int),
            clustered == clustered_below(e@, i as int),
            clustered <= events <= i,
        decreases n - i,
    {
        if e[i] {
            let mut j: usize = i + 1;
            while j < n && e[j]
                invariant
                    n == e@.len(),
                    i < j <= n,
                    forall|a: int| i <= a < j ==> #[trigger] e@[a],
                decreases n - j,
            {
                j += 1;
            }
            let run: usize = j - i;
            proof {
                lemma_run_sums(e@, i as int, j as int, j as int);
            }
            events = events + run;
            if run >= 3 {
                clustered = clustered + run;
            }
            i = j;
        } else {
            proof {
                assert(!is_clustered(e@, i as int)) by {
                    if is_clustered(e@, i as int) {
                        let s = choose|s: int| s <= i < s + 3 && #[trigger] triple_at(e@, s);
                        assert(e@[i as int]);
                    }
                }
            }
            i += 1;
        }
    }
    Clusters { events, clustered }
}

/// Only events are clustered.
pub proof fn law_clustered_are_events(e: Seq<bool>, i: int)
    requires
        is_clustered(e, i),
    ensures
        0 <= i < e.len(),
        e[i],
{
    let s = choose|s: int| s <= i < s + 3 && #[trigger] triple_at(e, s);
}

// ── Verdict ────────────────────────────────────────────────────────────────

/// What was measured of a binary, by order keys.
#[derive(Debug, Clone, Copy, PartialEq, Eq, Structural)]
pub struct Record {
    /// Its role.
    pub role: Role,
    /// Calibration error.
    pub ece: u64,
    /// Mean surprise.
    pub surprise: u64,
    /// Clustering of the surprise.
    pub moran: u64,
}

/// A measure of some binaries.
#[derive(Debug, Clone, Copy, PartialEq, Eq, Structural)]
pub enum Measure {
    /// The calibration error of those in a role.
    Ece(Role),
    /// The mean surprise of those in a role.
    Surprise(Role),
    /// The calibration error of obfuscated ones above a threshold.
    DriftedEce(u64),
}

/// The measure of a binary, where it has it.
pub open spec fn measured(r: Record, m: Measure) -> Option<u64> {
    match m {
        Measure::Ece(role) => if r.role == role {
            Some(r.ece)
        } else {
            None
        },
        Measure::Surprise(role) => if r.role == role {
            Some(r.surprise)
        } else {
            None
        },
        Measure::DriftedEce(t) => if r.role.spec_is_obfuscated() && r.ece > t {
            Some(r.ece)
        } else {
            None
        },
    }
}

/// The measures of the first `k` binaries that have it.
pub open spec fn measures_below(v: Seq<Record>, m: Measure, k: int) -> Seq<u64>
    decreases k,
{
    if k <= 0 {
        Seq::empty()
    } else {
        match measured(v[k - 1], m) {
            Some(x) => measures_below(v, m, k - 1).push(x),
            None => measures_below(v, m, k - 1),
        }
    }
}

fn collect(v: &Vec<Record>, m: Measure) -> (r: Vec<u64>)
    ensures
        r@ == measures_below(v@, m, v@.len() as int),
{
    let mut out: Vec<u64> = Vec::new();
    let mut k: usize = 0;
    while k < v.len()
        invariant
            k <= v@.len(),
            out@ == measures_below(v@, m, k as int),
        decreases v@.len() - k,
    {
        let r: Record = v[k];
        match m {
            Measure::Ece(role) => {
                if r.role == role {
                    out.push(r.ece);
                }
            },
            Measure::Surprise(role) => {
                if r.role == role {
                    out.push(r.surprise);
                }
            },
            Measure::DriftedEce(t) => {
                if r.role.is_obfuscated() && r.ece > t {
                    out.push(r.ece);
                }
            },
        }
        k += 1;
    }
    out
}

/// A property of binaries.
#[derive(Debug, Clone, Copy, PartialEq, Eq, Structural)]
pub enum Property {
    /// Ordinary code that tests.
    Holdout,
    /// Ordinary code that tests, with a surprise above the threshold.
    HoldoutFires(u64),
    /// Obfuscated, with an error above the threshold.
    Drifted(u64),
    /// Obfuscated, with an error above the first and a surprise above the second
    /// threshold.
    DriftedFires(u64, u64),
    /// Obfuscated, with an error above the first threshold, up to the second.
    Mild(u64, u64),
    /// The same, with a surprise up to the third.
    MildMissed(u64, u64, u64),
}

/// Whether a binary has a property.
pub open spec fn has(r: Record, p: Property) -> bool {
    match p {
        Property::Holdout => r.role == Role::CleanHoldout,
        Property::HoldoutFires(null) => r.role == Role::CleanHoldout && r.surprise > null,
        Property::Drifted(t) => r.role.spec_is_obfuscated() && r.ece > t,
        Property::DriftedFires(t, null) => r.role.spec_is_obfuscated() && r.ece > t && r.surprise
            > null,
        Property::Mild(t, mid) => r.role.spec_is_obfuscated() && r.ece > t && r.ece <= mid,
        Property::MildMissed(t, mid, null) => r.role.spec_is_obfuscated() && r.ece > t && r.ece
            <= mid && r.surprise <= null,
    }
}

/// How many of the first `k` binaries have a property.
pub open spec fn count_below(v: Seq<Record>, p: Property, k: int) -> int
    decreases k,
{
    if k <= 0 {
        0
    } else {
        count_below(v, p, k - 1) + (if has(v[k - 1], p) {
            1int
        } else {
            0
        })
    }
}

fn count(v: &Vec<Record>, p: Property) -> (r: usize)
    ensures
        r == count_below(v@, p, v@.len() as int),
{
    let mut n: usize = 0;
    let mut k: usize = 0;
    while k < v.len()
        invariant
            k <= v@.len(),
            n == count_below(v@, p, k as int),
            n <= k,
        decreases v@.len() - k,
    {
        let r: Record = v[k];
        let obf: bool = r.role.is_obfuscated();
        let yes: bool = match p {
            Property::Holdout => r.role == Role::CleanHoldout,
            Property::HoldoutFires(null) => r.role == Role::CleanHoldout && r.surprise > null,
            Property::Drifted(t) => obf && r.ece > t,
            Property::DriftedFires(t, null) => obf && r.ece > t && r.surprise > null,
            Property::Mild(t, mid) => obf && r.ece > t && r.ece <= mid,
            Property::MildMissed(t, mid, null) => obf && r.ece > t && r.ece <= mid && r.surprise
                <= null,
        };
        if yes {
            n += 1;
        }
        k += 1;
    }
    n
}

/// The samples of a detector: the first `k` binaries that are not packed, scored
/// by clustering where `spatial`, otherwise by surprise; positive where the error
/// is above the threshold.
pub open spec fn detector_below(v: Seq<Record>, spatial: bool, t: u64, k: int) -> Seq<Sample>
    decreases k,
{
    if k <= 0 {
        Seq::empty()
    } else if v[k - 1].role == Role::Packed {
        detector_below(v, spatial, t, k - 1)
    } else {
        detector_below(v, spatial, t, k - 1).push(
            Sample {
                key: if spatial {
                    v[k - 1].moran
                } else {
                    v[k - 1].surprise
                },
                positive: v[k - 1].ece > t,
            },
        )
    }
}

/// The samples of a detector.
pub fn detector_samples(v: &Vec<Record>, spatial: bool, t: u64) -> (r: Vec<Sample>)
    ensures
        r@ == detector_below(v@, spatial, t, v@.len() as int),
{
    let mut out: Vec<Sample> = Vec::new();
    let mut k: usize = 0;
    while k < v.len()
        invariant
            k <= v@.len(),
            out@ == detector_below(v@, spatial, t, k as int),
        decreases v@.len() - k,
    {
        let r: Record = v[k];
        if r.role != Role::Packed {
            let key: u64 = if spatial {
                r.moran
            } else {
                r.surprise
            };
            out.push(Sample { key, positive: r.ece > t });
        }
        k += 1;
    }
    out
}

/// Whether `x` is a quantile of `v`; or `zero`, where `v` is empty.
pub open spec fn quantile_or(v: Seq<u64>, num: int, den: int, zero: u64, x: u64) -> bool {
    if v.len() == 0 {
        x == zero
    } else {
        is_quantile(v, num, den, x)
    }
}

/// Whether `x` stands in the middle of `v`; or is `zero`, where `v` is empty.
pub open spec fn median_or(v: Seq<u64>, zero: u64, x: u64) -> bool {
    if v.len() == 0 {
        x == zero
    } else {
        is_median(v, x)
    }
}

/// Whether `a` says how well samples are told apart.
pub open spec fn is_auroc(a: Option<Auroc>, s: Seq<Sample>) -> bool {
    let n = s.len() as int;
    let p = positives_below(s, n);
    match a {
        Some(x) => 0 < p < n && x.wins == all_wins(s) && x.positives == p && x.negatives == n - p,
        None => p == 0 || p == n,
    }
}

fn quantile_of(v: &Vec<u64>, num: u32, den: u32, zero: u64) -> (r: u64)
    requires
        num <= den,
        0 < den,
    ensures
        quantile_or(v@, num as int, den as int, zero, r),
{
    if v.len() == 0 {
        zero
    } else {
        percentile(v, num, den)
    }
}

fn median_of(v: &Vec<u64>, zero: u64) -> (r: u64)
    ensures
        median_or(v@, zero, r),
{
    if v.len() == 0 {
        zero
    } else {
        median(v)
    }
}

/// The milder half of the stale binaries.
#[derive(Debug, Clone, Copy, PartialEq, Eq, Structural)]
pub struct Mild {
    /// How many they are.
    pub total: usize,
    /// On how many of them the detector does not fire.
    pub missed: usize,
}

/// What the comparison of surprise with calibration error shows.
#[derive(Debug, Clone, Copy, PartialEq, Eq, Structural)]
pub struct Verdict {
    /// Number of binaries.
    pub n_bins: usize,
    /// The error above which calibration counts as stale.
    pub drift_thr: u64,
    /// Number of stale binaries among those that are not packed.
    pub n_drifted: usize,
    /// How well surprise tells them.
    pub auc_surprise: Option<Auroc>,
    /// How well clustering tells them.
    pub auc_moran: Option<Auroc>,
    /// The surprise above which the detector fires.
    pub null_p95: u64,
    /// Number of ordinary binaries that test.
    pub holdout: usize,
    /// On how many of them it fires.
    pub false_alarms: usize,
    /// Number of obfuscated binaries that are stale.
    pub drifted_obf: usize,
    /// On how many of them it fires.
    pub drifted_fires: usize,
    /// The milder half of them, where there are at least two.
    pub mild: Option<Mild>,
    /// The middle error of ordinary binaries that test.
    pub clean_ece_med: u64,
    /// The middle error of binaries obfuscated by junk.
    pub desync_ece_med: u64,
}

impl Verdict {
    /// Whether this is the verdict on `v`, where `zero` and `floor` are the keys
    /// of no error and of the least error that counts as stale.
    pub open spec fn is_verdict(self, v: Seq<Record>, zero: u64, floor: u64) -> bool {
        let n = v.len() as int;
        let t = self.drift_thr;
        let eces = measures_below(v, Measure::DriftedEce(t), n);
        &&& self.n_bins == n
        &&& exists|q: u64| #[trigger]
            quantile_or(measures_below(v, Measure::Ece(Role::CleanHoldout), n), 9, 10, zero, q)
                && t == (if q > floor {
                q
            } else {
                floor
            })
        &&& self.n_drifted == positives_below(
            detector_below(v, false, t, n),
            detector_below(v, false, t, n).len() as int,
        )
        &&& is_auroc(self.auc_surprise, detector_below(v, false, t, n))
        &&& is_auroc(self.auc_moran, detector_below(v, true, t, n))
        &&& quantile_or(
            measures_below(v, Measure::Surprise(Role::CleanFit), n),
            19,
            20,
            zero,
            self.null_p95,
        )
        &&& self.holdout == count_below(v, Property::Holdout, n)
        &&& self.false_alarms == count_below(v, Property::HoldoutFires(self.null_p95), n)
        &&& self.drifted_obf == count_below(v, Property::Drifted(t), n)
        &&& self.drifted_fires == count_below(v, Property::DriftedFires(t, self.null_p95), n)
        &&& match self.mild {
            None => eces.len() < 2,
            Some(Mild { total, missed }) => eces.len() >= 2 && exists|mid: u64| #[trigger]
                is_median(eces, mid) && total == count_below(v, Property::Mild(t, mid), n)
                    && missed == count_below(v, Property::MildMissed(t, mid, self.null_p95), n),
        }
        &&& median_or(
            measures_below(v, Measure::Ece(Role::CleanHoldout), n),
            zero,
            self.clean_ece_med,
        )
        &&& median_or(
            measures_below(v, Measure::Ece(Role::Desync), n),
            zero,
            self.desync_ece_med,
        )
    }
}

fn count_positive(s: &Vec<Sample>) -> (r: usize)
    ensures
        r == positives_below(s@, s@.len() as int),
{
    let mut n: usize = 0;
    let mut k: usize = 0;
    while k < s.len()
        invariant
            k <= s@.len(),
            n == positives_below(s@, k as int),
            n <= k,
        decreases s@.len() - k,
    {
        if s[k].positive {
            n += 1;
        }
        k += 1;
    }
    n
}

/// Compares surprise with calibration error.
pub fn analyze(v: &Vec<Record>, zero: u64, floor: u64) -> (r: Verdict)
    ensures
        r.is_verdict(v@, zero, floor),
{
    let clean: Vec<u64> = collect(v, Measure::Ece(Role::CleanHoldout));
    let q: u64 = quantile_of(&clean, 9, 10, zero);
    let t: u64 = if q > floor {
        q
    } else {
        floor
    };
    let by_surprise: Vec<Sample> = detector_samples(v, false, t);
    let by_moran: Vec<Sample> = detector_samples(v, true, t);
    let null_p95: u64 = quantile_of(&collect(v, Measure::Surprise(Role::CleanFit)), 19, 20, zero);
    let eces: Vec<u64> = collect(v, Measure::DriftedEce(t));
    let mild: Option<Mild> = if eces.len() < 2 {
        None
    } else {
        let mid: u64 = median(&eces);
        Some(
            Mild {
                total: count(v, Property::Mild(t, mid)),
                missed: count(v, Property::MildMissed(t, mid, null_p95)),
            },
        )
    };
    Verdict {
        n_bins: v.len(),
        drift_thr: t,
        n_drifted: count_positive(&by_surprise),
        auc_surprise: auroc(&by_surprise),
        auc_moran: auroc(&by_moran),
        null_p95,
        holdout: count(v, Property::Holdout),
        false_alarms: count(v, Property::HoldoutFires(null_p95)),
        drifted_obf: count(v, Property::Drifted(t)),
        drifted_fires: count(v, Property::DriftedFires(t, null_p95)),
        mild,
        clean_ece_med: median_of(&clean, zero),
        desync_ece_med: median_of(&collect(v, Measure::Ece(Role::Desync)), zero),
    }
}

// ── Go or no go ────────────────────────────────────────────────────────────

/// How signals go along with calibration error, by order keys.
#[derive(Debug, Clone, Copy, PartialEq, Eq, Structural)]
pub struct Correlations {
    /// Mean surprise.
    pub rho_surprise: u64,
    /// Mean normalized residual.
    pub rho_nis: u64,
    /// Clustering of the surprise.
    pub rho_moran: u64,
    /// Share of the surprise in runs.
    pub rho_maxrun: u64,
    /// Mean surprise, with entropy and size taken out.
    pub partial_surprise: u64,
    /// Clustering, with entropy and size taken out.
    pub partial_moran: u64,
}

/// What correlations have to reach, by order keys.
#[derive(Debug, Clone, Copy, PartialEq, Eq, Structural)]
pub struct GoBars {
    /// The best plain one.
    pub rho: u64,
    /// The best one with entropy and size taken out.
    pub partial: u64,
}

/// Which of the criteria are met.
#[derive(Debug, Clone, Copy, PartialEq, Eq, Structural)]
pub struct Criteria {
    /// A signal goes along with the error.
    pub correlates: bool,
    /// A signal tells stale binaries from others.
    pub tells: bool,
    /// The detector fires on stale binaries.
    pub fires: bool,
    /// It is quiet on ordinary binaries.
    pub quiet: bool,
    /// A signal goes along with the error beyond entropy and size.
    pub holds_up: bool,
}

/// The greater of two keys.
pub open spec fn greater(a: u64, b: u64) -> u64 {
    if a < b {
        b
    } else {
        a
    }
}

/// Whether a ranking reaches seven tenths; one that does not exist counts a half.
pub open spec fn reaches_seven_tenths(a: Option<Auroc>) -> bool {
    a matches Some(x) && 10 * x.wins >= 7 * (2 * (x.positives * x.negatives))
}

impl Criteria {
    /// Whether these are the criteria of a verdict with these correlations: the best
    /// correlation reaches its bar; the better detector ranks at least seven tenths
    /// of the pairs right; it fires on at least one stale binary, and on at most
    /// fifteen in a hundred of the ordinary ones; and the best partial correlation
    /// reaches its bar.
    pub open spec fn are_criteria(self, v: Verdict, c: Correlations, bars: GoBars) -> bool {
        &&& self.correlates == (greater(
            greater(c.rho_surprise, c.rho_moran),
            greater(c.rho_nis, c.rho_maxrun),
        ) >= bars.rho)
        &&& self.tells == (reaches_seven_tenths(v.auc_surprise) || reaches_seven_tenths(
            v.auc_moran,
        ))
        &&& self.fires == (v.drifted_fires > 0)
        &&& self.quiet == (100 * v.false_alarms <= 15 * v.holdout)
        &&& self.holds_up == (greater(c.partial_surprise, c.partial_moran) >= bars.partial)
    }

    /// Whether all criteria are met.
    pub open spec fn spec_go(self) -> bool {
        self.correlates && self.tells && self.fires && self.quiet && self.holds_up
    }

    /// Whether all criteria are met.
    pub fn go(&self) -> (r: bool)
        ensures
            r == self.spec_go(),
    {
        self.correlates && self.tells && self.fires && self.quiet && self.holds_up
    }
}

fn greater_of(a: u64, b: u64) -> (r: u64)
    ensures
        r == greater(a, b),
{
    if a < b {
        b
    } else {
        a
    }
}

fn tells_enough(a: &Option<Auroc>) -> (r: bool)
    ensures
        r == reaches_seven_tenths(*a),
{
    match a {
        None => false,
        Some(x) => {
            proof {
                assert(0 <= x.positives * x.negatives <= u128::MAX) by (nonlinear_arith)
                    requires
                        0 <= x.positives <= u64::MAX,
                        0 <= x.negatives <= u64::MAX,
                ;
            }
            let pairs: u128 = x.positives as u128 * x.negatives as u128;
            let fifths: u128 = pairs / 5;
            let rest: u128 = pairs % 5;
            fifths <= x.wins / 7 && x.wins - 7 * fifths >= (7 * rest + 4) / 5
        },
    }
}

impl Verdict {
    /// The criteria for relying on the detector.
    pub fn criteria(&self, c: &Correlations, bars: GoBars) -> (r: Criteria)
        ensures
            r.are_criteria(*self, *c, bars),
    {
        Criteria {
            correlates: greater_of(
                greater_of(c.rho_surprise, c.rho_moran),
                greater_of(c.rho_nis, c.rho_maxrun),
            ) >= bars.rho,
            tells: tells_enough(&self.auc_surprise) || tells_enough(&self.auc_moran),
            fires: self.drifted_fires > 0,
            quiet: 100 * self.false_alarms as u128 <= 15 * self.holdout as u128,
            holds_up: greater_of(c.partial_surprise, c.partial_moran) >= bars.partial,
        }
    }
}

// ── Laws ───────────────────────────────────────────────────────────────────

/// The first `k` records but the packed ones.
pub open spec fn unpacked_below(v: Seq<Record>, k: int) -> Seq<Record>
    decreases k,
{
    if k <= 0 {
        Seq::empty()
    } else if v[k - 1].role == Role::Packed {
        unpacked_below(v, k - 1)
    } else {
        unpacked_below(v, k - 1).push(v[k - 1])
    }
}

/// Whether no packed binary has a measure.
spec fn skips_packed(m: Measure) -> bool {
    match m {
        Measure::Ece(role) => role != Role::Packed,
        Measure::Surprise(role) => role != Role::Packed,
        Measure::DriftedEce(_) => false,
    }
}

proof fn lemma_prefix(v: Seq<Record>, w: Seq<Record>, m: Measure, p: Property, b: bool, t: u64, k: int)
    requires
        0 <= k <= v.len(),
        k <= w.len(),
        forall|i: int| 0 <= i < k ==> v[i] == w[i],
    ensures
        measures_below(v, m, k) == measures_below(w, m, k),
        count_below(v, p, k) == count_below(w, p, k),
        detector_below(v, b, t, k) == detector_below(w, b, t, k),
    decreases k,
{
    if k > 0 {
        lemma_prefix(v, w, m, p, b, t, k - 1);
    }
}

proof fn lemma_unpacked(v: Seq<Record>, m: Measure, p: Property, b: bool, t: u64, k: int)
    requires
        0 <= k <= v.len(),
        skips_packed(m),
        p is Holdout || p is HoldoutFires,
    ensures
        ({
            let w = unpacked_below(v, k);
            &&& measures_below(w, m, w.len() as int) == measures_below(v, m, k)
            &&& count_below(w, p, w.len() as int) == count_below(v, p, k)
            &&& detector_below(w, b, t, w.len() as int) == detector_below(v, b, t, k)
        }),
    decreases k,
{
    if k > 0 {
        lemma_unpacked(v, m, p, b, t, k - 1);
        let before = unpacked_below(v, k - 1);
        let w = unpacked_below(v, k);
        lemma_prefix(before, w, m, p, b, t, before.len() as int);
    }
}

proof fn lemma_one_quantile(v: Seq<u64>, num: int, den: int, zero: u64, x: u64, y: u64)
    requires
        quantile_or(v, num, den, zero, x),
        quantile_or(v, num, den, zero, y),
    ensures
        x == y,
{
    if v.len() > 0 {
        let at = quantile_position(v.len() as int, num, den);
        let o = choose|o: Seq<usize>| #[trigger] is_order(v, o) && x == v[o[at] as int];
        let q = choose|q: Seq<usize>| #[trigger] is_order(v, q) && y == v[q[at] as int];
        law_order_is_unique(v, o, q);
    }
}

/// Calibration counts as stale from the least error on, if not from a greater one.
pub proof fn law_threshold_has_a_floor(a: Verdict, v: Seq<Record>, zero: u64, floor: u64)
    requires
        a.is_verdict(v, zero, floor),
    ensures
        a.drift_thr >= floor,
        a.n_bins == v.len(),
{
}

/// Packed binaries have no say in what is correlated: without them the threshold,
/// the stale binaries, the rankings, the level at which the detector fires and its
/// false alarms are the same.
pub proof fn law_packed_binaries_do_not_correlate(
    a: Verdict,
    b: Verdict,
    v: Seq<Record>,
    zero: u64,
    floor: u64,
)
    requires
        a.is_verdict(v, zero, floor),
        b.is_verdict(unpacked_below(v, v.len() as int), zero, floor),
    ensures
        a.drift_thr == b.drift_thr,
        a.n_drifted == b.n_drifted,
        a.auc_surprise == b.auc_surprise,
        a.auc_moran == b.auc_moran,
        a.null_p95 == b.null_p95,
        a.holdout == b.holdout,
        a.false_alarms == b.false_alarms,
{
    let n = v.len() as int;
    let w = unpacked_below(v, n);
    let held = Measure::Ece(Role::CleanHoldout);
    let fit = Measure::Surprise(Role::CleanFit);
    let eces = measures_below(v, held, n);
    lemma_unpacked(v, held, Property::Holdout, false, a.drift_thr, n);
    lemma_unpacked(v, fit, Property::HoldoutFires(a.null_p95), true, a.drift_thr, n);
    let x = choose|q: u64| #[trigger]
        quantile_or(eces, 9, 10, zero, q) && a.drift_thr == greater(floor, q);
    let y = choose|q: u64| #[trigger]
        quantile_or(measures_below(w, held, w.len() as int), 9, 10, zero, q) && b.drift_thr
            == greater(floor, q);
    lemma_one_quantile(eces, 9, 10, zero, x, y);
    lemma_one_quantile(measures_below(v, fit, n), 19, 20, zero, a.null_p95, b.null_p95);
}

// ── What the verdict counts ────────────────────────────────────────────────

/// Held-out ordinary code is benign, desynchronised code obfuscated, and what else there
/// is keeps its name.
pub proof fn law_roles_name_regimes(role: Seq<char>)
    ensures
        role_regime("clean_holdout"@) == "benign"@,
        role_regime("desync"@) == "obfuscated"@,
        role != "clean_holdout"@ && role != "desync"@ ==> role_regime(role) == role,
        Role::Desync.spec_is_obfuscated() && Role::Packed.spec_is_obfuscated(),
        !Role::CleanFit.spec_is_obfuscated() && !Role::CleanHoldout.spec_is_obfuscated(),
{
    reveal_strlit("clean_holdout");
    reveal_strlit("desync");
    assert("clean_holdout"@.len() != "desync"@.len());
}

proof fn lemma_events(e: Seq<bool>, k: int)
    requires
        0 <= k <= e.len(),
    ensures
        events_below(e, k) == e.take(k).filter(|x: bool| x).len(),
    decreases k,
{
    reveal(Seq::filter);
    if k > 0 {
        lemma_events(e, k - 1);
        assert(e.take(k).drop_last() =~= e.take(k - 1));
        assert(e.take(k).last() == e[k - 1]);
    } else {
        assert(e.take(k) =~= Seq::empty());
    }
}

proof fn lemma_clustered(e: Seq<bool>, k: int)
    requires
        0 <= k <= e.len(),
    ensures
        Set::new(|i: int| 0 <= i < k && is_clustered(e, i)).finite(),
        clustered_below(e, k) == Set::new(|i: int| 0 <= i < k && is_clustered(e, i)).len(),
    decreases k,
{
    let now = Set::new(|i: int| 0 <= i < k && is_clustered(e, i));
    if k > 0 {
        lemma_clustered(e, k - 1);
        let before = Set::new(|i: int| 0 <= i < k - 1 && is_clustered(e, i));
        if is_clustered(e, k - 1) {
            assert(now =~= before.insert(k - 1));
        } else {
            assert(now =~= before);
        }
    } else {
        assert(now =~= Set::empty());
    }
}

/// An event is clustered exactly where it stands first, second or third of three events
/// in a row.
pub proof fn law_clusters_are_runs_of_three(e: Seq<bool>, i: int)
    requires
        0 <= i < e.len(),
    ensures
        is_clustered(e, i) <==> {
            ||| i + 2 < e.len() && e[i] && e[i + 1] && e[i + 2]
            ||| 1 <= i && i + 1 < e.len() && e[i - 1] && e[i] && e[i + 1]
            ||| 2 <= i && e[i - 2] && e[i - 1] && e[i]
        },
{
    if i + 2 < e.len() && e[i] && e[i + 1] && e[i + 2] {
        assert(triple_at(e, i));
    }
    if 1 <= i && i + 1 < e.len() && e[i - 1] && e[i] && e[i + 1] {
        assert(triple_at(e, i - 1));
    }
    if 2 <= i && e[i - 2] && e[i - 1] && e[i] {
        assert(triple_at(e, i - 2));
    }
    if is_clustered(e, i) {
        let s = choose|s: int| s <= i < s + 3 && #[trigger] triple_at(e, s);
        assert(s == i || s == i - 1 || s == i - 2);
    }
}

/// Events and clustered events are counted each once.
pub proof fn law_clusters_are_counted(e: Seq<bool>)
    ensures
        events_below(e, e.len() as int) == e.filter(|x: bool| x).len(),
        clustered_below(e, e.len() as int) == Set::new(
            |i: int| 0 <= i < e.len() && is_clustered(e, i),
        ).len(),
{
    lemma_events(e, e.len() as int);
    lemma_clustered(e, e.len() as int);
    assert(e.take(e.len() as int) =~= e);
}

proof fn lemma_measures(
    v: Seq<Record>,
    m: Measure,
    k: int,
    f: spec_fn(Record) -> bool,
    g: spec_fn(Record) -> u64,
)
    requires
        0 <= k <= v.len(),
        forall|r: Record| #[trigger]
            measured(r, m) == (if f(r) {
                Some(g(r))
            } else {
                None
            }),
    ensures
        measures_below(v, m, k) == v.take(k).filter(f).map_values(g),
    decreases k,
{
    reveal(Seq::filter);
    if k > 0 {
        lemma_measures(v, m, k - 1, f, g);
        assert(v.take(k).drop_last() =~= v.take(k - 1));
        assert(v.take(k).last() == v[k - 1]);
        let before = v.take(k - 1).filter(f);
        assert(measured(v[k - 1], m) == (if f(v[k - 1]) {
            Some(g(v[k - 1]))
        } else {
            None
        }));
        if f(v[k - 1]) {
            assert(before.push(v[k - 1]).map_values(g) =~= before.map_values(g).push(g(v[k - 1])));
        }
    } else {
        assert(v.take(k) =~= Seq::empty());
        assert(Seq::<Record>::empty().map_values(g) =~= Seq::empty());
    }
}

/// Errors and surprise are taken of the binaries of a role, and the errors of drifted
/// ones of those that are obfuscated or packed and err above the threshold.
pub proof fn law_measures_of_roles(v: Seq<Record>, role: Role, t: u64)
    ensures
        measures_below(v, Measure::Ece(role), v.len() as int) == v.filter(
            |r: Record| r.role == role,
        ).map_values(|r: Record| r.ece),
        measures_below(v, Measure::Surprise(role), v.len() as int) == v.filter(
            |r: Record| r.role == role,
        ).map_values(|r: Record| r.surprise),
        measures_below(v, Measure::DriftedEce(t), v.len() as int) == v.filter(
            |r: Record| (r.role == Role::Desync || r.role == Role::Packed) && t < r.ece,
        ).map_values(|r: Record| r.ece),
{
    let n = v.len() as int;
    assert(v.take(n) =~= v);
    lemma_measures(v, Measure::Ece(role), n, |r: Record| r.role == role, |r: Record| r.ece);
    lemma_measures(
        v,
        Measure::Surprise(role),
        n,
        |r: Record| r.role == role,
        |r: Record| r.surprise,
    );
    lemma_measures(
        v,
        Measure::DriftedEce(t),
        n,
        |r: Record| (r.role == Role::Desync || r.role == Role::Packed) && t < r.ece,
        |r: Record| r.ece,
    );
}

proof fn lemma_counts(v: Seq<Record>, p: Property, k: int, f: spec_fn(Record) -> bool)
    requires
        0 <= k <= v.len(),
        forall|r: Record| #[trigger] has(r, p) == f(r),
    ensures
        count_below(v, p, k) == v.take(k).filter(f).len(),
    decreases k,
{
    reveal(Seq::filter);
    if k > 0 {
        lemma_counts(v, p, k - 1, f);
        assert(v.take(k).drop_last() =~= v.take(k - 1));
        assert(v.take(k).last() == v[k - 1]);
        assert(has(v[k - 1], p) == f(v[k - 1]));
    } else {
        assert(v.take(k) =~= Seq::empty());
    }
}

proof fn lemma_detector(v: Seq<Record>, spatial: bool, t: u64, k: int)
    requires
        0 <= k <= v.len(),
    ensures
        detector_below(v, spatial, t, k) == v.take(k).filter(
            |r: Record| r.role != Role::Packed,
        ).map_values(
            |r: Record|
                Sample {
                    key: if spatial {
                        r.moran
                    } else {
                        r.surprise
                    },
                    positive: r.ece > t,
                },
        ),
    decreases k,
{
    reveal(Seq::filter);
    let f = |r: Record| r.role != Role::Packed;
    let g = |r: Record|
        Sample {
            key: if spatial {
                r.moran
            } else {
                r.surprise
            },
            positive: r.ece > t,
        };
    if k > 0 {
        lemma_detector(v, spatial, t, k - 1);
        assert(v.take(k).drop_last() =~= v.take(k - 1));
        assert(v.take(k).last() == v[k - 1]);
        let before = v.take(k - 1).filter(f);
        if f(v[k - 1]) {
            assert(before.push(v[k - 1]).map_values(g) =~= before.map_values(g).push(g(v[k - 1])));
        }
    } else {
        assert(v.take(k) =~= Seq::empty());
        assert(Seq::<Record>::empty().map_values(g) =~= Seq::empty());
    }
}

/// A detector is tried on every binary that is not packed, by surprise or by clustering,
/// and has to find those that err above the threshold.
pub proof fn law_detectors_are_tried(v: Seq<Record>, t: u64)
    ensures
        detector_below(v, false, t, v.len() as int) == v.filter(
            |r: Record| r.role != Role::Packed,
        ).map_values(|r: Record| Sample { key: r.surprise, positive: r.ece > t }),
        detector_below(v, true, t, v.len() as int) == v.filter(
            |r: Record| r.role != Role::Packed,
        ).map_values(|r: Record| Sample { key: r.moran, positive: r.ece > t }),
{
    let n = v.len() as int;
    assert(v.take(n) =~= v);
    lemma_detector(v, false, t, n);
    lemma_detector(v, true, t, n);
    let w = v.filter(|r: Record| r.role != Role::Packed);
    assert(detector_below(v, false, t, n) =~= w.map_values(
        |r: Record| Sample { key: r.surprise, positive: r.ece > t },
    ));
    assert(detector_below(v, true, t, n) =~= w.map_values(
        |r: Record| Sample { key: r.moran, positive: r.ece > t },
    ));
}

/// What a verdict counts: held-out ordinary binaries, and those of them that surprise
/// above the bar; obfuscated or packed ones that err above the threshold, and those of
/// them that surprise above the bar.
pub proof fn law_verdict_counts(a: Verdict, v: Seq<Record>, zero: u64, floor: u64)
    requires
        a.is_verdict(v, zero, floor),
    ensures
        a.holdout == v.filter(|r: Record| r.role == Role::CleanHoldout).len(),
        a.false_alarms == v.filter(
            |r: Record| r.role == Role::CleanHoldout && a.null_p95 < r.surprise,
        ).len(),
        a.drifted_obf == v.filter(
            |r: Record| (r.role == Role::Desync || r.role == Role::Packed) && a.drift_thr < r.ece,
        ).len(),
        a.drifted_fires == v.filter(
            |r: Record|
                (r.role == Role::Desync || r.role == Role::Packed) && a.drift_thr < r.ece
                    && a.null_p95 < r.surprise,
        ).len(),
        v.filter(|r: Record| r.role == Role::CleanFit).len() > 0 ==> is_quantile(
            v.filter(|r: Record| r.role == Role::CleanFit).map_values(|r: Record| r.surprise),
            19,
            20,
            a.null_p95,
        ),
        v.filter(|r: Record| r.role == Role::CleanHoldout).len() > 0 ==> is_median(
            v.filter(|r: Record| r.role == Role::CleanHoldout).map_values(|r: Record| r.ece),
            a.clean_ece_med,
        ),
        v.filter(|r: Record| r.role == Role::Desync).len() > 0 ==> is_median(
            v.filter(|r: Record| r.role == Role::Desync).map_values(|r: Record| r.ece),
            a.desync_ece_med,
        ),
{
    let n = v.len() as int;
    let t = a.drift_thr;
    let null = a.null_p95;
    assert(v.take(n) =~= v);
    law_measures_of_roles(v, Role::CleanFit, t);
    law_measures_of_roles(v, Role::CleanHoldout, t);
    law_measures_of_roles(v, Role::Desync, t);
    lemma_counts(v, Property::Holdout, n, |r: Record| r.role == Role::CleanHoldout);
    lemma_counts(
        v,
        Property::HoldoutFires(null),
        n,
        |r: Record| r.role == Role::CleanHoldout && null < r.surprise,
    );
    lemma_counts(
        v,
        Property::Drifted(t),
        n,
        |r: Record| (r.role == Role::Desync || r.role == Role::Packed) && t < r.ece,
    );
    lemma_counts(
        v,
        Property::DriftedFires(t, null),
        n,
        |r: Record|
            (r.role == Role::Desync || r.role == Role::Packed) && t < r.ece && null < r.surprise,
    );
}

/// Drift counts from the ninth tenth of the errors of held-out ordinary binaries on, or
/// from the floor where that is higher; mild are the drifted ones up to their median,
/// and missed those of them that do not surprise.
pub proof fn law_mild_drift(a: Verdict, v: Seq<Record>, zero: u64, floor: u64)
    requires
        a.is_verdict(v, zero, floor),
    ensures
        ({
            let held = v.filter(|r: Record| r.role == Role::CleanHoldout).map_values(
                |r: Record| r.ece,
            );
            &&& a.drift_thr >= floor
            &&& a.drift_thr == floor || (held.len() > 0 && is_quantile(held, 9, 10, a.drift_thr))
                || (held.len() == 0 && a.drift_thr == zero)
        }),
        ({
            let drifted = v.filter(
                |r: Record| (r.role == Role::Desync || r.role == Role::Packed) && a.drift_thr < r.ece,
            ).map_values(|r: Record| r.ece);
            match a.mild {
                None => drifted.len() < 2,
                Some(m) => drifted.len() >= 2 && exists|mid: u64| #[trigger]
                    is_median(drifted, mid) && m.total == v.filter(
                        |r: Record|
                            (r.role == Role::Desync || r.role == Role::Packed) && a.drift_thr
                                < r.ece <= mid,
                    ).len() && m.missed == v.filter(
                        |r: Record|
                            (r.role == Role::Desync || r.role == Role::Packed) && a.drift_thr
                                < r.ece <= mid && r.surprise <= a.null_p95,
                    ).len(),
            }
        }),
{
    let n = v.len() as int;
    let t = a.drift_thr;
    let null = a.null_p95;
    assert(v.take(n) =~= v);
    law_measures_of_roles(v, Role::CleanHoldout, t);
    let drifted = measures_below(v, Measure::DriftedEce(t), n);
    if let Some(m) = a.mild {
        let mid = choose|mid: u64| #[trigger]
            is_median(drifted, mid) && m.total == count_below(v, Property::Mild(t, mid), n)
                && m.missed == count_below(v, Property::MildMissed(t, mid, null), n);
        lemma_counts(
            v,
            Property::Mild(t, mid),
            n,
            |r: Record| (r.role == Role::Desync || r.role == Role::Packed) && t < r.ece <= mid,
        );
        lemma_counts(
            v,
            Property::MildMissed(t, mid, null),
            n,
            |r: Record|
                (r.role == Role::Desync || r.role == Role::Packed) && t < r.ece <= mid && r.surprise
                    <= null,
        );
        assert(is_median(drifted, mid));
    }
}

/// When the verdict is a go: some correlation reaches its bar, one of the two detectors
/// ranks seven tenths of the pairs right, at least one stale binary is found, at most
/// fifteen in a hundred of the ordinary ones are, and some partial correlation reaches
/// its bar.
pub proof fn law_go(k: Criteria, v: Verdict, c: Correlations, bars: GoBars)
    requires
        k.are_criteria(v, c, bars),
    ensures
        k.spec_go() <==> {
            &&& c.rho_surprise >= bars.rho || c.rho_moran >= bars.rho || c.rho_nis >= bars.rho
                || c.rho_maxrun >= bars.rho
            &&& (v.auc_surprise matches Some(x) && 5 * x.wins >= 7 * (x.positives * x.negatives))
                || (v.auc_moran matches Some(x) && 5 * x.wins >= 7 * (x.positives * x.negatives))
            &&& v.drifted_fires >= 1
            &&& 20 * v.false_alarms <= 3 * v.holdout
            &&& c.partial_surprise >= bars.partial || c.partial_moran >= bars.partial
        },
{
}

} // verus!
