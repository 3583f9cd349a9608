//! Verdicts under a bar that depends on the size of a binary.

use vstd::prelude::*;

use crate::regime::{law_verdict_needs_a_statistic, Regime};
use crate::switching::{law_higher_bar_only_abstains, SignatureClassifier};
use crate::text::str_eq;

verus! {

/// The statistics of a binary, by order keys.
#[derive(Debug, Clone, Copy, PartialEq, Eq, Structural)]
pub struct Reads {
    /// Mean surprise.
    pub glob: u64,
    /// Clustering.
    pub spat: u64,
    /// Entropy of the region, where it was measured.
    pub entropy: Option<u64>,
}

/// The bars that statistics are held against, by order keys.
#[derive(Debug, Clone, Copy, PartialEq, Eq, Structural)]
pub struct Bars {
    /// The bar for mean surprise.
    pub glob_hi: u64,
    /// The bar for clustering that is the same for every size.
    pub flat: u64,
    /// The bar for clustering at this size.
    pub sized: u64,
    /// The bar for entropy.
    pub pack_ent_lo: u64,
}

impl Bars {
    /// The bar at this size, but never below the flat one.
    pub open spec fn floored(self) -> u64 {
        if self.sized > self.flat {
            self.sized
        } else {
            self.flat
        }
    }

    /// The rules with the bar `spat_hi` for clustering.
    pub open spec fn with(self, spat_hi: u64) -> SignatureClassifier {
        SignatureClassifier {
            glob_hi: self.glob_hi,
            spat_hi,
            pack_ent_lo: Some(self.pack_ent_lo),
        }
    }

    /// The rules with the bar `spat_hi` for clustering, on which mean surprise
    /// never fires.
    pub open spec fn spatial(self, spat_hi: u64) -> SignatureClassifier {
        SignatureClassifier {
            glob_hi: u64::MAX,
            spat_hi,
            pack_ent_lo: Some(self.pack_ent_lo),
        }
    }
}

/// Three verdicts on one binary, one for each bar.
#[derive(Debug, Clone, Copy, PartialEq, Eq, Structural)]
pub struct Verdicts {
    /// By the threshold rule.
    pub rule: Regime,
    /// By the guarded rule, where the entropy is known.
    pub guard: Option<Regime>,
    /// By the threshold rule without mean surprise.
    pub spat_only: Regime,
}

/// The verdicts with the bar `spat_hi` for clustering.
pub open spec fn verdicts(r: Reads, b: Bars, spat_hi: u64) -> Verdicts {
    Verdicts {
        rule: b.with(spat_hi).rule(r.glob, r.spat),
        guard: match r.entropy {
            Some(e) => Some(b.with(spat_hi).guarded(r.glob, r.spat, e)),
            None => None,
        },
        spat_only: b.spatial(spat_hi).rule(r.glob, r.spat),
    }
}

/// The verdicts on one binary under every bar.
#[derive(Debug, Clone, Copy, PartialEq, Eq, Structural)]
pub struct Rethresholded {
    /// Under the flat bar.
    pub flat: Verdicts,
    /// Under the bar for its size.
    pub sized: Verdicts,
    /// Under the higher of the two.
    pub floored: Verdicts,
    /// Whether the flat bar is the higher one.
    pub floor_binds: bool,
}

/// Which recorded verdict the flat bar does not reproduce.
#[derive(Debug, Clone, Copy, PartialEq, Eq, Structural)]
pub enum ReplayFault {
    /// That of the threshold rule.
    Rule,
    /// That of the guarded rule.
    Guard,
}

/// The verdicts under every bar.
pub open spec fn rethresholded(r: Reads, b: Bars) -> Rethresholded {
    Rethresholded {
        flat: verdicts(r, b, b.flat),
        sized: verdicts(r, b, b.sized),
        floored: verdicts(r, b, b.floored()),
        floor_binds: b.sized < b.flat,
    }
}

/// The first recorded verdict that the flat bar does not reproduce. A verdict of
/// the guarded rule is only held against it where the entropy is known.
pub open spec fn replay_fault(
    r: Reads,
    b: Bars,
    rule: Option<Seq<char>>,
    guard: Option<Seq<char>>,
) -> Option<ReplayFault> {
    let v = verdicts(r, b, b.flat);
    if rule matches Some(t) && t != v.rule.spec_tag() {
        Some(ReplayFault::Rule)
    } else {
        match (guard, v.guard) {
            (Some(t), Some(g)) => if t != g.spec_tag() {
                Some(ReplayFault::Guard)
            } else {
                None
            },
            _ => None,
        }
    }
}

fn judge(r: &Reads, b: &Bars, spat_hi: u64) -> (v: Verdicts)
    ensures
        v == verdicts(*r, *b, spat_hi),
{
    let rules: SignatureClassifier = SignatureClassifier {
        glob_hi: b.glob_hi,
        spat_hi,
        pack_ent_lo: Some(b.pack_ent_lo),
    };
    let spatial: SignatureClassifier = SignatureClassifier {
        glob_hi: u64::MAX,
        spat_hi,
        pack_ent_lo: Some(b.pack_ent_lo),
    };
    let guard: Option<Regime> = match r.entropy {
        Some(e) => Some(rules.classify_guard(r.glob, r.spat, e)),
        None => None,
    };
    Verdicts {
        rule: rules.classify_rule(r.glob, r.spat),
        guard,
        spat_only: spatial.classify_rule(r.glob, r.spat),
    }
}

/// Judges a binary anew under every bar, once the recorded verdicts have been
/// reproduced under the flat one.
pub fn rethreshold(
    r: &Reads,
    b: &Bars,
    rule: Option<&str>,
    guard: Option<&str>,
) -> (v: Result<Rethresholded, ReplayFault>)
    ensures
        match replay_fault(
            *r,
            *b,
            match rule {
                Some(t) => Some(t@),
                None => None,
            },
            match guard {
                Some(t) => Some(t@),
                None => None,
            },
        ) {
            Some(f) => v == Err::<Rethresholded, ReplayFault>(f),
            None => v == Ok::<Rethresholded, ReplayFault>(rethresholded(*r, *b)),
        },
{
    let flat: Verdicts = judge(r, b, b.flat);
    if let Some(t) = rule {
        if !str_eq(t, flat.rule.tag()) {
            return Err(ReplayFault::Rule);
        }
    }
    if let Some(t) = guard {
        if let Some(g) = flat.guard {
            if !str_eq(t, g.tag()) {
                return Err(ReplayFault::Guard);
            }
        }
    }
    let sized: Verdicts = judge(r, b, b.sized);
    let higher: u64 = if b.sized > b.flat {
        b.sized
    } else {
        b.flat
    };
    let floored: Verdicts = judge(r, b, higher);
    Ok(Rethresholded { flat, sized, floored, floor_binds: b.sized < b.flat })
}

/// The floored bar only ever silences the flat one: what it calls anything but
/// benign, the flat bar calls the same.
pub proof fn law_floored_bar_only_silences(r: Reads, b: Bars)
    ensures
        ({
            let v = rethresholded(r, b);
            &&& v.floored.rule != Regime::Benign ==> v.floored.rule == v.flat.rule
            &&& v.floored.spat_only != Regime::Benign ==> v.floored.spat_only == v.flat.spat_only
            &&& (v.floored.guard matches Some(g) ==> (g != Regime::Benign ==> v.flat.guard == Some(
                g,
            )))
        }),
{
    let e = match r.entropy {
        Some(e) => e,
        None => 0,
    };
    law_higher_bar_only_abstains(b.with(b.flat), b.with(b.floored()), r.glob, r.spat, e);
    law_higher_bar_only_abstains(b.spatial(b.flat), b.spatial(b.floored()), r.glob, r.spat, e);
}

/// A packed verdict is carried by a statistic above its bar.
pub proof fn law_packed_verdict_is_carried(r: Reads, b: Bars, spat_hi: u64)
    ensures
        verdicts(r, b, spat_hi).rule == Regime::Packed ==> r.spat > spat_hi || r.glob > b.glob_hi,
{
    law_verdict_needs_a_statistic(r.glob > b.glob_hi, r.spat > spat_hi, true);
}

/// A binary is obfuscated where mean surprise exceeds its bar, and else packed where
/// clustering exceeds its own and, for the guarded rule, entropy too; without mean
/// surprise, clustering alone decides.
pub proof fn law_verdicts_by_bars(r: Reads, b: Bars, spat_hi: u64)
    requires
        b.glob_hi < u64::MAX,
    ensures
        ({
            let v = verdicts(r, b, spat_hi);
            &&& v.rule == Regime::Obfuscated <==> r.glob > b.glob_hi
            &&& v.rule == Regime::Packed <==> r.glob <= b.glob_hi && r.spat > spat_hi
            &&& v.spat_only == Regime::Packed <==> r.spat > spat_hi
            &&& v.spat_only == Regime::Benign <==> r.spat <= spat_hi
            &&& v.guard is None <==> r.entropy is None
            &&& r.entropy matches Some(e) ==> {
                &&& v.guard == Some(Regime::Obfuscated) <==> r.glob > b.glob_hi
                &&& v.guard == Some(Regime::Packed) <==> r.glob <= b.glob_hi && r.spat > spat_hi
                    && e > b.pack_ent_lo
            }
        }),
{
}

/// Each bar gives its own verdicts; the floored one is the higher of the other two, and
/// the floor binds where the flat bar is above that for the size.
pub proof fn law_floor_is_the_higher_bar(r: Reads, b: Bars)
    ensures
        ({
            let v = rethresholded(r, b);
            &&& v.flat == verdicts(r, b, b.flat)
            &&& v.sized == verdicts(r, b, b.sized)
            &&& b.flat >= b.sized ==> v.floored == v.flat
            &&& b.sized >= b.flat ==> v.floored == v.sized
            &&& v.floor_binds <==> b.flat > b.sized
        }),
{
}

/// A recorded verdict is at fault where it is not the one under the flat bar, that of
/// the threshold rule first; that of the guarded rule only where the entropy is known.
pub proof fn law_replay_faults(
    r: Reads,
    b: Bars,
    rule: Option<Seq<char>>,
    guard: Option<Seq<char>>,
)
    ensures
        ({
            let v = verdicts(r, b, b.flat);
            let bad_rule = rule is Some && rule != Some(v.rule.spec_tag());
            let bad_guard = guard is Some && (v.guard matches Some(g) && guard != Some(
                g.spec_tag(),
            ));
            &&& replay_fault(r, b, rule, guard) == Some(ReplayFault::Rule) <==> bad_rule
            &&& replay_fault(r, b, rule, guard) == Some(ReplayFault::Guard) <==> !bad_rule
                && bad_guard
            &&& replay_fault(r, b, rule, guard) is None <==> !bad_rule && !bad_guard
        }),
{
}

} // verus!
