//! Regimes: what kind of binary the engine is looking at.

use vstd::prelude::*;

use crate::text::str_eq;

verus! {

/// The kind of a binary.
#[derive(Debug, Clone, Copy, PartialEq, Eq, Structural)]
pub enum Regime {
    /// Ordinary compiler output.
    Benign,
    /// Compressed or encrypted code.
    Packed,
    /// Code made hard to read.
    Obfuscated,
}

/// The data priors that a regime switches on.
#[derive(Debug, Clone, Copy, PartialEq, Eq, Structural)]
pub struct EnginePriors {
    /// High entropy speaks for data.
    pub entropy: bool,
    /// Long decode chains speak for code.
    pub chainfwd: bool,
}

impl Regime {
    /// The tag of a regime.
    pub open spec fn spec_tag(self) -> Seq<char> {
        match self {
            Regime::Benign => "benign"@,
            Regime::Packed => "packed"@,
            Regime::Obfuscated => "obfuscated"@,
        }
    }

    /// The position of a regime.
    pub open spec fn spec_idx(self) -> int {
        match self {
            Regime::Benign => 0,
            Regime::Packed => 1,
            Regime::Obfuscated => 2,
        }
    }

    /// The regime at position `i`; the first for any other number.
    pub open spec fn spec_at(i: int) -> Regime {
        if i == 1 {
            Regime::Packed
        } else if i == 2 {
            Regime::Obfuscated
        } else {
            Regime::Benign
        }
    }

    /// The tag of a regime.
    pub fn tag(self) -> (r: &'static str)
        ensures
            r@ == self.spec_tag(),
    {
        match self {
            Regime::Benign => "benign",
            Regime::Packed => "packed",
            Regime::Obfuscated => "obfuscated",
        }
    }

    /// The position of a regime.
    pub fn idx(self) -> (r: usize)
        ensures
            r == self.spec_idx(),
            r < 3,
    {
        match self {
            Regime::Benign => 0,
            Regime::Packed => 1,
            Regime::Obfuscated => 2,
        }
    }

    /// The priors that the regime switches on: none for ordinary code, entropy
    /// for packed code, decode chains for obfuscated code.
    pub fn engine(self) -> (r: EnginePriors)
        ensures
            r.entropy == (self == Regime::Packed),
            r.chainfwd == (self == Regime::Obfuscated),
    {
        match self {
            Regime::Benign => EnginePriors { entropy: false, chainfwd: false },
            Regime::Packed => EnginePriors { entropy: true, chainfwd: false },
            Regime::Obfuscated => EnginePriors { entropy: false, chainfwd: true },
        }
    }

    /// All regimes, by position.
    pub fn all() -> (r: Vec<Regime>)
        ensures
            r@ == seq![Regime::Benign, Regime::Packed, Regime::Obfuscated],
    {
        let mut out: Vec<Regime> = Vec::new();
        out.push(Regime::Benign);
        out.push(Regime::Packed);
        out.push(Regime::Obfuscated);
        proof {
            assert(out@ =~= seq![Regime::Benign, Regime::Packed, Regime::Obfuscated]);
        }
        out
    }
}

/// The regime with the tag `s`.
pub open spec fn regime_tagged(s: Seq<char>) -> Option<Regime> {
    if s == "benign"@ {
        Some(Regime::Benign)
    } else if s == "packed"@ {
        Some(Regime::Packed)
    } else if s == "obfuscated"@ {
        Some(Regime::Obfuscated)
    } else {
        None
    }
}

/// The regime with the tag `s`.
pub fn parse_regime(s: &str) -> (r: Option<Regime>)
    ensures
        r == regime_tagged(s@),
{
    if str_eq(s, "benign") {
        Some(Regime::Benign)
    } else if str_eq(s, "packed") {
        Some(Regime::Packed)
    } else if str_eq(s, "obfuscated") {
        Some(Regime::Obfuscated)
    } else {
        None
    }
}

// ── Choosing a regime ──────────────────────────────────────────────────────

/// The regime that a signature points to: global surprise above its threshold
/// means obfuscated; otherwise spatial clustering above its threshold means
/// packed, provided the bytes look packed; anything else is benign.
pub open spec fn signature_regime(glob_over: bool, spat_over: bool, packed_like: bool) -> Regime {
    if glob_over {
        Regime::Obfuscated
    } else if spat_over && packed_like {
        Regime::Packed
    } else {
        Regime::Benign
    }
}

/// The threshold rule, from whether each statistic exceeds its threshold.
pub fn classify_rule(glob_over: bool, spat_over: bool) -> (r: Regime)
    ensures
        r == signature_regime(glob_over, spat_over, true),
{
    classify_guard(glob_over, spat_over, None)
}

/// The threshold rule with the guard on packed code. `entropy_over` says whether
/// the entropy exceeds its threshold; without a threshold the guard is idle.
pub fn classify_guard(glob_over: bool, spat_over: bool, entropy_over: Option<bool>) -> (r: Regime)
    ensures
        r == signature_regime(glob_over, spat_over, entropy_over != Some(false)),
{
    let packed_like: bool = match entropy_over {
        Some(b) => b,
        None => true,
    };
    if glob_over {
        Regime::Obfuscated
    } else if spat_over && packed_like {
        Regime::Packed
    } else {
        Regime::Benign
    }
}

/// The regime of the smallest of the first `n` distances, the first one if
/// several are; benign if there is none. A missing distance does not count.
pub open spec fn nearest_below(d: Seq<Option<u64>>, n: int) -> Regime
    decreases n,
{
    if n <= 0 {
        Regime::Benign
    } else {
        match (d[n - 1], least_below(d, n - 1)) {
            (None, _) => nearest_below(d, n - 1),
            (Some(x), None) => Regime::spec_at(n - 1),
            (Some(x), Some(m)) => if x < m {
                Regime::spec_at(n - 1)
            } else {
                nearest_below(d, n - 1)
            },
        }
    }
}

/// The smallest of the first `n` distances.
pub open spec fn least_below(d: Seq<Option<u64>>, n: int) -> Option<u64>
    decreases n,
{
    if n <= 0 {
        None
    } else {
        match (d[n - 1], least_below(d, n - 1)) {
            (None, m) => m,
            (Some(x), None) => Some(x),
            (Some(x), Some(m)) => if x < m {
                Some(x)
            } else {
                Some(m)
            },
        }
    }
}

/// The regime at the smallest distance. Distances are given by keys that order
/// as they do, by position of the regime; a regime that takes no part has none.
pub fn nearest(distances: &Vec<Option<u64>>) -> (r: Regime)
    requires
        distances@.len() <= 3,
    ensures
        r == nearest_below(distances@, distances@.len() as int),
{
    let all: Vec<Regime> = Regime::all();
    let mut best: Regime = Regime::Benign;
    let mut least: Option<u64> = None;
    let mut k: usize = 0;
    while k < distances.len()
        invariant
            k <= distances@.len() <= 3,
            all@ == seq![Regime::Benign, Regime::Packed, Regime::Obfuscated],
            best == nearest_below(distances@, k as int),
            least == least_below(distances@, k as int),
        decreases distances@.len() - k,
    {
        if let Some(x) = distances[k] {
            let closer: bool = match least {
                Some(m) => x < m,
                None => true,
            };
            if closer {
                best = all[k];
                least = Some(x);
            }
        }
        k += 1;
    }
    best
}

// ── Laws ───────────────────────────────────────────────────────────────────

/// A regime is known by its tag.
pub proof fn law_tag_round_trip(r: Regime)
    ensures
        regime_tagged(r.spec_tag()) == Some(r),
{
    reveal_strlit("benign");
    reveal_strlit("packed");
    reveal_strlit("obfuscated");
    assert("benign"@.len() == 6);
    assert("packed"@.len() == 6);
    assert("obfuscated"@.len() == 10);
    assert("benign"@[0] == 'b');
    assert("packed"@[0] == 'p');
}

/// A regime is known by its position.
pub proof fn law_idx_round_trip(r: Regime)
    ensures
        Regime::spec_at(r.spec_idx()) == r,
        0 <= r.spec_idx() < 3,
{
}

/// The guard only ever turns a packed verdict into a benign one.
pub proof fn law_guard_only_abstains(glob_over: bool, spat_over: bool, packed_like: bool)
    ensures
        signature_regime(glob_over, spat_over, packed_like) == signature_regime(
            glob_over,
            spat_over,
            true,
        ) || (signature_regime(glob_over, spat_over, true) == Regime::Packed && signature_regime(
            glob_over,
            spat_over,
            packed_like,
        ) == Regime::Benign),
{
}

/// A verdict other than benign rests on a statistic above its threshold.
pub proof fn law_verdict_needs_a_statistic(glob_over: bool, spat_over: bool, packed_like: bool)
    ensures
        signature_regime(glob_over, spat_over, packed_like) == Regime::Packed ==> spat_over
            && !glob_over,
        signature_regime(glob_over, spat_over, packed_like) == Regime::Obfuscated <==> glob_over,
{
}

/// Global surprise alone makes a binary obfuscated; without it clustering makes it
/// packed, where its bytes look packed; all else is benign.
pub proof fn law_verdicts_by_statistics(glob_over: bool, spat_over: bool, packed_like: bool)
    ensures
        ({
            let r = signature_regime(glob_over, spat_over, packed_like);
            &&& r == Regime::Obfuscated <==> glob_over
            &&& r == Regime::Packed <==> !glob_over && spat_over && packed_like
            &&& r == Regime::Benign <==> !glob_over && !(spat_over && packed_like)
        }),
{
}

proof fn lemma_nearest(d: Seq<Option<u64>>, n: int)
    requires
        0 <= n <= d.len() <= 3,
    ensures
        least_below(d, n) is None ==> nearest_below(d, n) == Regime::Benign && forall|i: int|
            0 <= i < n ==> #[trigger] d[i] is None,
        least_below(d, n) matches Some(m) ==> {
            let at = nearest_below(d, n).spec_idx();
            &&& 0 <= at < n
            &&& d[at] == Some(m)
            &&& forall|i: int|
                0 <= i < n ==> (#[trigger] d[i] matches Some(x) ==> m <= x && (i < at ==> m < x))
        },
    decreases n,
{
    if n > 0 {
        lemma_nearest(d, n - 1);
    }
}

/// The nearest regime is at a distance that no other undercuts, nor one before it
/// equals; without any distance it is the benign one.
pub proof fn law_nearest_regime_is_nearest(d: Seq<Option<u64>>, i: int)
    requires
        d.len() <= 3,
        0 <= i < d.len(),
    ensures
        ({
            let r = nearest_below(d, d.len() as int);
            let at: int = match r {
                Regime::Benign => 0,
                Regime::Packed => 1,
                Regime::Obfuscated => 2,
            };
            match d[i] {
                Some(x) => {
                    &&& at < d.len()
                    &&& d[at] matches Some(m)
                    &&& m <= x
                    &&& i < at ==> m < x
                },
                None => (forall|j: int| 0 <= j < d.len() ==> #[trigger] d[j] is None) ==> r
                    == Regime::Benign,
            }
        }),
{
    lemma_nearest(d, d.len() as int);
}

} // verus!
