//! Picking the level that a program was built at, and counting how often the
//! pick is right.

use vstd::prelude::*;

use crate::rows::LevelRow;
use crate::text::{opt_string, str_eq, strings};

verus! {

/// The number of the smallest of the first `k` distances below `limit`, the
/// first one if several are; zero where there is none. A missing distance does
/// not count.
pub open spec fn closest(d: Seq<Option<u64>>, limit: u64, k: int) -> (int, u64)
    decreases k,
{
    if k <= 0 {
        (0, limit)
    } else {
        let (best, at) = closest(d, limit, k - 1);
        match d[k - 1] {
            Some(x) => if x < at {
                (k - 1, x)
            } else {
                (best, at)
            },
            None => (best, at),
        }
    }
}

/// The number of the nearest centre. `limit` is the key of infinity.
pub fn nearest_index(d: &Vec<Option<u64>>, limit: u64) -> (r: usize)
    ensures
        r == closest(d@, limit, d@.len() as int).0,
{
    let mut best: usize = 0;
    let mut at: u64 = limit;
    let mut k: usize = 0;
    while k < d.len()
        invariant
            k <= d@.len(),
            (best as int, at) == closest(d@, limit, k as int),
        decreases d@.len() - k,
    {
        if let Some(x) = d[k] {
            if x < at {
                at = x;
                best = k;
            }
        }
        k += 1;
    }
    best
}

/// The nearest centre is one of the centres, and none that counts is nearer.
pub proof fn law_nearest_is_nearest(d: Seq<Option<u64>>, limit: u64, k: int, i: int)
    requires
        0 <= i < k <= d.len(),
        d[i] matches Some(x) && x < limit,
    ensures
        0 <= closest(d, limit, k).0 < k,
        d[closest(d, limit, k).0] == Some(closest(d, limit, k).1),
        d[i] matches Some(x) && closest(d, limit, k).1 <= x,
    decreases k,
{
    if i < k - 1 {
        law_nearest_is_nearest(d, limit, k - 1, i);
    } else {
        lemma_closest(d, limit, k - 1);
    }
}

proof fn lemma_closest(d: Seq<Option<u64>>, limit: u64, k: int)
    requires
        0 <= k <= d.len(),
    ensures
        ({
            let c = closest(d, limit, k);
            (c == (0int, limit)) || (0 <= c.0 < k && d[c.0] == Some(c.1))
        }),
        closest(d, limit, k).1 <= limit,
    decreases k,
{
    if k > 0 {
        lemma_closest(d, limit, k - 1);
    }
}

/// Whether a row tests the level called `label`.
pub open spec fn tests_level(r: LevelRow, label: Seq<char>) -> bool {
    !r.fits && r.level@ == label
}

/// The numbers of the rows, among the first `k`, that test a level.
pub open spec fn testers_below(v: Seq<LevelRow>, label: Seq<char>, k: int) -> Seq<usize>
    decreases k,
{
    if k <= 0 {
        Seq::empty()
    } else if tests_level(v[k - 1], label) {
        testers_below(v, label, k - 1).push((k - 1) as usize)
    } else {
        testers_below(v, label, k - 1)
    }
}

/// How often picks were right.
#[derive(Debug, Clone, Copy, PartialEq, Eq, Structural)]
pub struct Selection {
    /// Builds tested.
    pub n: usize,
    /// Right picks by the signature.
    pub sig: usize,
    /// Right picks by size and entropy.
    pub se: usize,
}

/// One more build tested.
pub open spec fn with_row(s: Selection, r: LevelRow) -> Selection {
    Selection {
        n: (s.n + 1) as usize,
        sig: if opt_string(r.sig_pick) == Some(r.level@) {
            (s.sig + 1) as usize
        } else {
            s.sig
        },
        se: if opt_string(r.se_pick) == Some(r.level@) {
            (s.se + 1) as usize
        } else {
            s.se
        },
    }
}

/// How often picks were right among the first `k` rows that test; at the level
/// called `label`, or at any.
pub open spec fn selection_below(v: Seq<LevelRow>, label: Option<Seq<char>>, k: int) -> Selection
    decreases k,
{
    if k <= 0 {
        Selection { n: 0, sig: 0, se: 0 }
    } else {
        let s = selection_below(v, label, k - 1);
        let r = v[k - 1];
        if !r.fits && (label matches Some(l) ==> r.level@ == l) {
            with_row(s, r)
        } else {
            s
        }
    }
}

/// What was found for one level.
#[derive(Debug)]
pub struct LevelSummary {
    /// The number of the level.
    pub level: usize,
    /// The rows that test it.
    pub members: Vec<usize>,
    /// How often picks were right.
    pub hits: Selection,
}

fn is_pick(pick: &Option<String>, level: &String) -> (r: bool)
    ensures
        r == (opt_string(*pick) == Some(level@)),
{
    match pick {
        Some(p) => str_eq(p.as_str(), level.as_str()),
        None => false,
    }
}

/// Counts how often picks were right; at the level called `label`, or at any.
pub fn count_picks(v: &Vec<LevelRow>, label: Option<&str>) -> (r: Selection)
    ensures
        r == selection_below(
            v@,
            match label {
                Some(l) => Some(l@),
                None => None,
            },
            v@.len() as int,
        ),
{
    let ghost want: Option<Seq<char>> = match label {
        Some(l) => Some(l@),
        None => None,
    };
    let mut s: Selection = Selection { n: 0, sig: 0, se: 0 };
    let len: usize = v.len();
    let mut k: usize = 0;
    while k < len
        invariant
            len == v@.len(),
            k <= len,
            s.n <= k,
            s.sig <= k,
            s.se <= k,
            want == (match label {
                Some(l) => Some(l@),
                None => None,
            }),
            s == selection_below(v@, want, k as int),
        decreases len - k,
    {
        let r: &LevelRow = &v[k];
        let here: bool = match label {
            Some(l) => str_eq(r.level.as_str(), l),
            None => true,
        };
        if !r.fits && here {
            s.n = s.n + 1;
            if is_pick(&r.sig_pick, &r.level) {
                s.sig = s.sig + 1;
            }
            if is_pick(&r.se_pick, &r.level) {
                s.se = s.se + 1;
            }
        }
        k += 1;
    }
    s
}

fn testers(v: &Vec<LevelRow>, label: &str) -> (r: Vec<usize>)
    ensures
        r@ == testers_below(v@, label@, v@.len() as int),
{
    let mut out: Vec<usize> = Vec::new();
    let mut k: usize = 0;
    while k < v.len()
        invariant
            k <= v@.len(),
            out@ == testers_below(v@, label@, k as int),
        decreases v@.len() - k,
    {
        if !v[k].fits && str_eq(v[k].level.as_str(), label) {
            out.push(k);
        }
        k += 1;
    }
    out
}

/// Whether `s` is what was found for level `i`.
pub open spec fn is_summary(s: LevelSummary, v: Seq<LevelRow>, labels: Seq<Seq<char>>) -> bool {
    &&& s.level < labels.len()
    &&& s.members@ == testers_below(v, labels[s.level as int], v.len() as int)
    &&& s.members@.len() > 0
    &&& s.hits == selection_below(v, Some(labels[s.level as int]), v.len() as int)
}

/// The levels, among the first `k`, that some row tests.
pub open spec fn tested_below(v: Seq<LevelRow>, labels: Seq<Seq<char>>, k: int) -> Seq<usize>
    decreases k,
{
    if k <= 0 {
        Seq::empty()
    } else if testers_below(v, labels[k - 1], v.len() as int).len() > 0 {
        tested_below(v, labels, k - 1).push((k - 1) as usize)
    } else {
        tested_below(v, labels, k - 1)
    }
}

/// Sums up every level that some row tests, in order.
pub fn summarize_levels(v: &Vec<LevelRow>, labels: &Vec<String>) -> (r: Vec<LevelSummary>)
    ensures
        r@.map_values(|s: LevelSummary| s.level) == tested_below(
            v@,
            strings(labels@),
            labels@.len() as int,
        ),
        forall|i: int| 0 <= i < r@.len() ==> is_summary(#[trigger] r@[i], v@, strings(labels@)),
{
    let ghost names = strings(labels@);
    let mut out: Vec<LevelSummary> = Vec::new();
    let mut k: usize = 0;
    proof {
        assert(out@.map_values(|s: LevelSummary| s.level) =~= tested_below(v@, names, 0));
    }
    while k < labels.len()
        invariant
            k <= labels@.len(),
            names == strings(labels@),
            names.len() == labels@.len(),
            out@.map_values(|s: LevelSummary| s.level) == tested_below(v@, names, k as int),
            forall|i: int| 0 <= i < out@.len() ==> is_summary(#[trigger] out@[i], v@, names),
        decreases labels@.len() - k,
    {
        let label: &str = labels[k].as_str();
        let ghost before = out@;
        proof {
            assert(names[k as int] == label@);
        }
        let members: Vec<usize> = testers(v, label);
        if members.len() > 0 {
            let hits: Selection = count_picks(v, Some(label));
            out.push(LevelSummary { level: k, members, hits });
            proof {
                assert(out@.map_values(|s: LevelSummary| s.level) =~= before.map_values(
                    |s: LevelSummary| s.level,
                ).push(k));
            }
        }
        k += 1;
    }
    out
}

/// Every build counts for one level: the builds tested at a level are those that
/// count there.
pub proof fn law_members_are_counted(v: Seq<LevelRow>, label: Seq<char>, k: int)
    requires
        0 <= k <= v.len() <= usize::MAX,
    ensures
        selection_below(v, Some(label), k).n == testers_below(v, label, k).len(),
        testers_below(v, label, k).len() <= k,
    decreases k,
{
    if k > 0 {
        law_members_are_counted(v, label, k - 1);
    }
}

proof fn lemma_first_closest(d: Seq<Option<u64>>, limit: u64, k: int)
    requires
        0 <= k <= d.len(),
    ensures
        ({
            let c = closest(d, limit, k);
            &&& c.1 <= limit
            &&& forall|i: int| 0 <= i < k ==> (#[trigger] d[i] matches Some(x) ==> c.1 <= x || limit
                <= x)
            &&& c.1 == limit ==> c.0 == 0
            &&& c.1 < limit ==> 0 <= c.0 < k && d[c.0] == Some(c.1)
            &&& forall|i: int|
                0 <= i < c.0 ==> (#[trigger] d[i] matches Some(x) ==> c.1 < x)
        }),
    decreases k,
{
    if k > 0 {
        lemma_first_closest(d, limit, k - 1);
    }
}

/// Of several smallest distances the first counts; where none lies below the limit, the
/// first level does.
pub proof fn law_first_nearest_counts(d: Seq<Option<u64>>, limit: u64, i: int)
    requires
        0 <= i < d.len(),
    ensures
        ({
            let c = closest(d, limit, d.len() as int);
            &&& (forall|j: int| 0 <= j < d.len() ==> (#[trigger] d[j] matches Some(x) ==> x >= limit))
                ==> c.0 == 0
            &&& i < c.0 ==> (d[i] matches Some(x) ==> x > c.1)
            &&& d[i] matches Some(x) ==> c.1 <= x || limit <= x
        }),
{
    lemma_first_closest(d, limit, d.len() as int);
    let c = closest(d, limit, d.len() as int);
    if c.1 < limit {
        assert(d[c.0] == Some(c.1));
    }
}

proof fn lemma_testers(v: Seq<LevelRow>, label: Seq<char>, k: int)
    requires
        0 <= k <= v.len() <= usize::MAX,
    ensures
        forall|i: usize| #[trigger]
            testers_below(v, label, k).contains(i) <==> i < k && !v[i as int].fits
                && v[i as int].level@ == label,
    decreases k,
{
    if k > 0 {
        lemma_testers(v, label, k - 1);
        let before = testers_below(v, label, k - 1);
        assert forall|i: usize| #[trigger] testers_below(v, label, k).contains(i) <==> i < k
            && !v[i as int].fits && v[i as int].level@ == label by {
            vstd::seq_lib::lemma_seq_contains_after_push(before, (k - 1) as usize, i);
            assert(before.contains(i) <==> i < k - 1 && !v[i as int].fits && v[i as int].level@
                == label);
        }
    }
}

proof fn lemma_selection(v: Seq<LevelRow>, label: Option<Seq<char>>, k: int)
    requires
        0 <= k <= v.len() <= usize::MAX,
    ensures
        ({
            let s = selection_below(v, label, k);
            let counts = |r: LevelRow| !r.fits && (label matches Some(l) ==> r.level@ == l);
            &&& s.n == v.take(k).filter(counts).len()
            &&& s.sig == v.take(k).filter(
                |r: LevelRow| counts(r) && opt_string(r.sig_pick) == Some(r.level@),
            ).len()
            &&& s.se == v.take(k).filter(
                |r: LevelRow| counts(r) && opt_string(r.se_pick) == Some(r.level@),
            ).len()
            &&& s.n <= k && s.sig <= k && s.se <= k
        }),
    decreases k,
{
    reveal(Seq::filter);
    if k > 0 {
        lemma_selection(v, label, k - 1);
        assert(v.take(k).drop_last() =~= v.take(k - 1));
        assert(v.take(k).last() == v[k - 1]);
    } else {
        assert(v.take(k) =~= Seq::empty());
    }
}

/// Picks are counted over the builds that test, at one level or at any: all of them, and
/// those where the pick is the level the build was made at.
pub proof fn law_picks_are_counted(v: Seq<LevelRow>, label: Option<Seq<char>>, i: usize)
    requires
        i < v.len() <= usize::MAX,
    ensures
        ({
            let s = selection_below(v, label, v.len() as int);
            let counts = |r: LevelRow| !r.fits && (label matches Some(l) ==> r.level@ == l);
            &&& s.n == v.filter(counts).len()
            &&& s.sig == v.filter(
                |r: LevelRow| counts(r) && opt_string(r.sig_pick) == Some(r.level@),
            ).len()
            &&& s.se == v.filter(
                |r: LevelRow| counts(r) && opt_string(r.se_pick) == Some(r.level@),
            ).len()
        }),
        label matches Some(l) ==> (testers_below(v, l, v.len() as int).contains(i)
            <==> !v[i as int].fits && v[i as int].level@ == l),
{
    lemma_selection(v, label, v.len() as int);
    assert(v.take(v.len() as int) =~= v);
    if let Some(l) = label {
        lemma_testers(v, l, v.len() as int);
    }
}

proof fn lemma_tested(v: Seq<LevelRow>, labels: Seq<Seq<char>>, k: int)
    requires
        0 <= k <= labels.len() <= usize::MAX,
    ensures
        forall|i: usize| #[trigger]
            tested_below(v, labels, k).contains(i) <==> i < k && testers_below(
                v,
                labels[i as int],
                v.len() as int,
            ).len() > 0,
    decreases k,
{
    if k > 0 {
        lemma_tested(v, labels, k - 1);
        let before = tested_below(v, labels, k - 1);
        assert forall|i: usize| #[trigger] tested_below(v, labels, k).contains(i) <==> i < k
            && testers_below(v, labels[i as int], v.len() as int).len() > 0 by {
            vstd::seq_lib::lemma_seq_contains_after_push(before, (k - 1) as usize, i);
            assert(before.contains(i) <==> i < k - 1 && testers_below(
                v,
                labels[i as int],
                v.len() as int,
            ).len() > 0);
        }
    }
}

/// A level is summed up exactly where some build tests it.
pub proof fn law_levels_with_a_test(v: Seq<LevelRow>, labels: Seq<Seq<char>>, i: usize)
    requires
        i < labels.len() <= usize::MAX,
        v.len() <= usize::MAX,
    ensures
        tested_below(v, labels, labels.len() as int).contains(i) <==> exists|k: int|
            0 <= k < v.len() && !(#[trigger] v[k]).fits && v[k].level@ == labels[i as int],
{
    lemma_tested(v, labels, labels.len() as int);
    let l = labels[i as int];
    lemma_testers(v, l, v.len() as int);
    let at = testers_below(v, l, v.len() as int);
    if at.len() > 0 {
        assert(at.contains(at[0]));
        assert(!v[at[0] as int].fits);
    }
    if exists|k: int| 0 <= k < v.len() && !(#[trigger] v[k]).fits && v[k].level@ == l {
        let k = choose|k: int| 0 <= k < v.len() && !(#[trigger] v[k]).fits && v[k].level@ == l;
        assert(at.contains(k as usize));
    }
}

} // verus!
