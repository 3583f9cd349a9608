//! Which functions are believed to be called, and how that compares with the
//! functions that are known.
//!
//! Beliefs, priors and edge confidences are carried as keys: integers that
//! order as the values do.

use std::collections::{BTreeSet, HashMap};

use vstd::prelude::*;

use crate::addresses::{ascending, count_shared, is_listing, lemma_count_step, sorted_items};
use crate::bench::{from_on, how_many, law_counts_are_of_a_kind};
use crate::calibration::Sample;

verus! {

broadcast use {
    vstd::std_specs::btree::group_btree_axioms,
    vstd::std_specs::hash::group_hash_axioms,
};

/// A call from one function to another.
#[derive(Debug, Clone, Copy, PartialEq, Eq, Structural)]
pub struct CallEdge {
    /// The caller.
    pub from: u64,
    /// The function called.
    pub to: u64,
    /// How far the edge is trusted.
    pub trust: u64,
    /// Belief in the caller, times trust in the edge.
    pub force: u64,
}

/// What is believed of every candidate function.
#[derive(Debug)]
pub struct SoftModel {
    /// The candidates.
    pub heads: Vec<u64>,
    /// What local evidence says of each candidate.
    pub prior: Vec<u64>,
    /// What is believed, by address.
    pub belief: Vec<(u64, u64)>,
    /// The calls.
    pub edges: Vec<CallEdge>,
}

/// The values that beliefs are held against.
#[derive(Debug, Clone, Copy, PartialEq, Eq, Structural)]
pub struct Marks {
    /// More than nothing.
    pub trace: u64,
    /// One half.
    pub half: u64,
    /// Confirmed.
    pub high: u64,
}

/// The last belief about `a` among the first `k`.
pub open spec fn belief_below(v: Seq<(u64, u64)>, a: u64, k: int) -> Option<u64>
    decreases k,
{
    if k <= 0 {
        None
    } else if v[k - 1].0 == a {
        Some(v[k - 1].1)
    } else {
        belief_below(v, a, k - 1)
    }
}

/// What is believed of `a`.
pub open spec fn belief_of(v: Seq<(u64, u64)>, a: u64) -> Option<u64> {
    belief_below(v, a, v.len() as int)
}

/// Whether `a` is believed at least as far as `mark`.
pub open spec fn believed(v: Seq<(u64, u64)>, a: u64, mark: u64) -> bool {
    belief_of(v, a) matches Some(b) && b >= mark
}

/// Being believed at least as far as `mark`.
pub open spec fn as_far_as(v: Seq<(u64, u64)>, mark: u64) -> spec_fn(u64) -> bool {
    |a: u64| believed(v, a, mark)
}

/// Lying in the decoy, and being believed at least as far as `mark`.
pub open spec fn leaks_at(v: Seq<(u64, u64)>, lo: u64, mark: u64) -> spec_fn(u64) -> bool {
    |a: u64| a >= lo && believed(v, a, mark)
}

/// Lying below the decoy, and being believed further than `mark`.
pub open spec fn reached_below(v: Seq<(u64, u64)>, lo: u64, mark: u64) -> spec_fn(u64) -> bool {
    |a: u64| a < lo && (belief_of(v, a) matches Some(b) && b > mark)
}

/// Whether `index` looks up beliefs.
pub open spec fn is_index(index: Map<u64, u64>, v: Seq<(u64, u64)>) -> bool {
    forall|a: u64|
        (#[trigger] index.dom().contains(a) <==> belief_of(v, a) is Some) && (index.dom().contains(
            a,
        ) ==> belief_of(v, a) == Some(index[a]))
}

/// Beliefs by address.
pub fn index_beliefs(v: &Vec<(u64, u64)>) -> (r: HashMap<u64, u64>)
    ensures
        is_index(r@, v@),
{
    let mut map: HashMap<u64, u64> = HashMap::new();
    let mut k: usize = 0;
    while k < v.len()
        invariant
            k <= v@.len(),
            forall|a: u64|
                (#[trigger] map@.dom().contains(a) <==> belief_below(v@, a, k as int) is Some) && (
                map@.dom().contains(a) ==> belief_below(v@, a, k as int) == Some(map@[a])),
        decreases v@.len() - k,
    {
        map.insert(v[k].0, v[k].1);
        k += 1;
    }
    map
}

fn holds(index: &HashMap<u64, u64>, v: &Vec<(u64, u64)>, a: u64, mark: u64) -> (r: bool)
    requires
        is_index(index@, v@),
    ensures
        r == believed(v@, a, mark),
{
    proof {
        assert(index@.dom().contains(a) <==> belief_of(v@, a) is Some);
    }
    match index.get(&a) {
        Some(b) => *b >= mark,
        None => false,
    }
}

/// Counts the members of a set that are believed at least as far as `mark`.
pub fn count_believed(
    index: &HashMap<u64, u64>,
    v: &Vec<(u64, u64)>,
    set: &BTreeSet<u64>,
    mark: u64,
) -> (r: usize)
    requires
        is_index(index@, v@),
    ensures
        r == set@.filter(as_far_as(v@, mark)).len(),
        r <= set@.len(),
{
    let mut kept: BTreeSet<u64> = BTreeSet::new();
    let list: Vec<u64> = sorted_items(set);
    let mut k: usize = 0;
    proof {
        assert(kept@ =~= Set::empty());
    }
    while k < list.len()
        invariant
            k <= list@.len(),
            is_index(index@, v@),
            is_listing(list@, set@),
            forall|a: u64| #[trigger]
                kept@.contains(a) <==> list@.take(k as int).contains(a) && believed(v@, a, mark),
        decreases list@.len() - k,
    {
        let ghost before = kept@;
        let ghost now = list@.take(k + 1);
        let ghost past = list@.take(k as int);
        if holds(index, v, list[k], mark) {
            kept.insert(list[k]);
        }
        proof {
            assert forall|a: u64| #[trigger]
                kept@.contains(a) <==> now.contains(a) && believed(v@, a, mark) by {
                if past.contains(a) {
                    let j = choose|j: int| 0 <= j < past.len() && past[j] == a;
                    assert(now[j] == a);
                }
                if now.contains(a) {
                    let j = choose|j: int| 0 <= j < now.len() && now[j] == a;
                    if j < k {
                        assert(past[j] == a);
                    }
                }
                assert(now[k as int] == list@[k as int]);
            }
        }
        k += 1;
    }
    proof {
        assert(list@.take(k as int) =~= list@);
        assert forall|a: u64| #[trigger] kept@.contains(a) <==> set@.filter(
            as_far_as(v@, mark),
        ).contains(a) by {
            assert(set@.contains(a) <==> list@.contains(a));
        }
        assert(kept@ =~= set@.filter(as_far_as(v@, mark)));
        vstd::set_lib::lemma_len_subset(kept@, set@);
    }
    kept.len()
}

/// Counts the candidates in the decoy that begins at `lo` which are believed at
/// least as far as `mark`.
pub fn leak_at(
    index: &HashMap<u64, u64>,
    v: &Vec<(u64, u64)>,
    heads: &Vec<u64>,
    lo: u64,
    mark: u64,
) -> (r: usize)
    requires
        is_index(index@, v@),
    ensures
        r == how_many(heads@, leaks_at(v@, lo, mark), heads@.len() as int),
{
    let len: usize = heads.len();
    let mut n: usize = 0;
    let mut k: usize = 0;
    while k < len
        invariant
            len == heads@.len(),
            k <= len,
            n <= k,
            is_index(index@, v@),
            n == how_many(heads@, leaks_at(v@, lo, mark), k as int),
        decreases len - k,
    {
        if heads[k] >= lo && holds(index, v, heads[k], mark) {
            n += 1;
        }
        k += 1;
    }
    n
}

/// Counts the candidates below the decoy that are believed further than `mark`.
pub fn count_reached(
    index: &HashMap<u64, u64>,
    v: &Vec<(u64, u64)>,
    heads: &Vec<u64>,
    lo: u64,
    mark: u64,
) -> (r: usize)
    requires
        is_index(index@, v@),
    ensures
        r == how_many(heads@, reached_below(v@, lo, mark), heads@.len() as int),
{
    let len: usize = heads.len();
    let mut n: usize = 0;
    let mut k: usize = 0;
    while k < len
        invariant
            len == heads@.len(),
            k <= len,
            n <= k,
            is_index(index@, v@),
            n == how_many(heads@, reached_below(v@, lo, mark), k as int),
        decreases len - k,
    {
        let a: u64 = heads[k];
        proof {
            assert(index@.dom().contains(a) <==> belief_of(v@, a) is Some);
        }
        let far: bool = match index.get(&a) {
            Some(b) => *b > mark,
            None => false,
        };
        if a < lo && far {
            n += 1;
        }
        k += 1;
    }
    n
}

/// Whether a caller that is itself believed calls `h`.
pub open spec fn is_called(edges: Seq<CallEdge>, h: u64, half: u64) -> bool {
    exists|i: int| 0 <= i < edges.len() && (#[trigger] edges[i]).to == h && edges[i].force >= half
}

/// The functions that a caller calls which is itself believed.
pub fn called_heads(edges: &Vec<CallEdge>, half: u64) -> (r: BTreeSet<u64>)
    ensures
        forall|h: u64| #[trigger] r@.contains(h) <==> is_called(edges@, h, half),
{
    let mut out: BTreeSet<u64> = BTreeSet::new();
    let mut k: usize = 0;
    proof {
        assert(out@ =~= Set::empty());
    }
    while k < edges.len()
        invariant
            k <= edges@.len(),
            forall|h: u64| #[trigger]
                out@.contains(h) <==> exists|i: int|
                    0 <= i < k && (#[trigger] edges@[i]).to == h && edges@[i].force >= half,
        decreases edges@.len() - k,
    {
        let ghost before = out@;
        let e: CallEdge = edges[k];
        if e.force >= half {
            out.insert(e.to);
        }
        proof {
            assert forall|h: u64| #[trigger] out@.contains(h) <==> exists|i: int|
                0 <= i < k + 1 && (#[trigger] edges@[i]).to == h && edges@[i].force >= half by {
                if before.contains(h) {
                    let i = choose|i: int|
                        0 <= i < k && (#[trigger] edges@[i]).to == h && edges@[i].force >= half;
                    assert(edges@[i].to == h);
                }
                if e.force >= half && e.to == h {
                    assert(edges@[k as int].to == h);
                }
            }
        }
        k += 1;
    }
    out
}

/// The candidates among the first `k`, other than the entry, that are called
/// (or, where `called` is false, that are not).
pub open spec fn side_below(
    heads: Seq<u64>,
    edges: Seq<CallEdge>,
    entry: u64,
    half: u64,
    called: bool,
    k: int,
) -> Seq<usize>
    decreases k,
{
    if k <= 0 {
        Seq::empty()
    } else if heads[k - 1] != entry && is_called(edges, heads[k - 1], half) == called {
        side_below(heads, edges, entry, half, called, k - 1).push((k - 1) as usize)
    } else {
        side_below(heads, edges, entry, half, called, k - 1)
    }
}

/// Parts the candidates, by number, into those that are called and the rest.
/// The entry belongs to neither side.
pub fn split_heads(heads: &Vec<u64>, edges: &Vec<CallEdge>, entry: u64, half: u64) -> (r: (
    Vec<usize>,
    Vec<usize>,
))
    ensures
        r.0@ == side_below(heads@, edges@, entry, half, true, heads@.len() as int),
        r.1@ == side_below(heads@, edges@, entry, half, false, heads@.len() as int),
{
    let called: BTreeSet<u64> = called_heads(edges, half);
    let mut core: Vec<usize> = Vec::new();
    let mut tail: Vec<usize> = Vec::new();
    let mut k: usize = 0;
    while k < heads.len()
        invariant
            k <= heads@.len(),
            forall|h: u64| #[trigger] called@.contains(h) <==> is_called(edges@, h, half),
            core@ == side_below(heads@, edges@, entry, half, true, k as int),
            tail@ == side_below(heads@, edges@, entry, half, false, k as int),
        decreases heads@.len() - k,
    {
        if heads[k] != entry {
            if called.contains(&heads[k]) {
                core.push(k);
            } else {
                tail.push(k);
            }
        }
        k += 1;
    }
    (core, tail)
}

proof fn lemma_side_in_bounds(
    heads: Seq<u64>,
    edges: Seq<CallEdge>,
    entry: u64,
    half: u64,
    called: bool,
    k: int,
)
    requires
        0 <= k <= heads.len() <= usize::MAX,
    ensures
        side_below(heads, edges, entry, half, called, k).len() <= k,
        forall|i: int|
            0 <= i < side_below(heads, edges, entry, half, called, k).len() ==> (
            #[trigger] side_below(heads, edges, entry, half, called, k)[i]) < k,
    decreases k,
{
    if k > 0 {
        lemma_side_in_bounds(heads, edges, entry, half, called, k - 1);
    }
}

/// Every candidate but the entry is on one side, and only on one.
pub proof fn law_sides_part_the_heads(
    heads: Seq<u64>,
    edges: Seq<CallEdge>,
    entry: u64,
    half: u64,
    k: int,
    i: usize,
)
    requires
        0 <= i < k <= heads.len() <= usize::MAX,
        heads[i as int] != entry,
    ensures
        side_below(heads, edges, entry, half, true, k).contains(i) <==> is_called(
            edges,
            heads[i as int],
            half,
        ),
        side_below(heads, edges, entry, half, false, k).contains(i) <==> !is_called(
            edges,
            heads[i as int],
            half,
        ),
    decreases k,
{
    lemma_side_in_bounds(heads, edges, entry, half, true, k - 1);
    lemma_side_in_bounds(heads, edges, entry, half, false, k - 1);
    let a = side_below(heads, edges, entry, half, true, k - 1);
    let b = side_below(heads, edges, entry, half, false, k - 1);
    let aa = side_below(heads, edges, entry, half, true, k);
    let bb = side_below(heads, edges, entry, half, false, k);
    if i < k - 1 {
        law_sides_part_the_heads(heads, edges, entry, half, k - 1, i);
        if a.contains(i) {
            let j = choose|j: int| 0 <= j < a.len() && a[j] == i;
            assert(aa[j] == i);
        }
        if b.contains(i) {
            let j = choose|j: int| 0 <= j < b.len() && b[j] == i;
            assert(bb[j] == i);
        }
        if aa.contains(i) {
            let j = choose|j: int| 0 <= j < aa.len() && aa[j] == i;
            assert(a[j] == i);
        }
        if bb.contains(i) {
            let j = choose|j: int| 0 <= j < bb.len() && bb[j] == i;
            assert(b[j] == i);
        }
    } else {
        if is_called(edges, heads[i as int], half) {
            assert(aa.last() == i);
        } else {
            assert(bb.last() == i);
        }
        if aa.contains(i) {
            let j = choose|j: int| 0 <= j < aa.len() && aa[j] == i;
            if j < a.len() {
                assert(a[j] == i);
            }
        }
        if bb.contains(i) {
            let j = choose|j: int| 0 <= j < bb.len() && bb[j] == i;
            if j < b.len() {
                assert(b[j] == i);
            }
        }
    }
}

/// Being a candidate that is a known function.
pub open spec fn is_known(heads: Seq<u64>, funcs: Set<u64>) -> spec_fn(usize) -> bool {
    |i: usize| funcs.contains(heads[i as int])
}

fn count_known(at: &Vec<usize>, heads: &Vec<u64>, funcs: &BTreeSet<u64>) -> (r: usize)
    requires
        forall|i: int| 0 <= i < at@.len() ==> (#[trigger] at@[i]) < heads@.len(),
    ensures
        r == how_many(at@, is_known(heads@, funcs@), at@.len() as int),
{
    let len: usize = at.len();
    let mut n: usize = 0;
    let mut k: usize = 0;
    while k < len
        invariant
            len == at@.len(),
            k <= len,
            n <= k,
            forall|i: int| 0 <= i < at@.len() ==> (#[trigger] at@[i]) < heads@.len(),
            n == how_many(at@, is_known(heads@, funcs@), k as int),
        decreases len - k,
    {
        if funcs.contains(&heads[at[k]]) {
            n += 1;
        }
        k += 1;
    }
    n
}

/// Among the first `k` of the candidates `at`, those that are known functions
/// or lie in the decoy that begins at `lo`, by what local evidence says of them.
pub open spec fn rivals_below(
    at: Seq<usize>,
    heads: Seq<u64>,
    prior: Seq<u64>,
    funcs: Set<u64>,
    lo: u64,
    k: int,
) -> Seq<Sample>
    decreases k,
{
    if k <= 0 {
        Seq::empty()
    } else {
        let i = at[k - 1] as int;
        let rest = rivals_below(at, heads, prior, funcs, lo, k - 1);
        if funcs.contains(heads[i]) || heads[i] >= lo {
            rest.push(Sample { key: prior[i], positive: funcs.contains(heads[i]) })
        } else {
            rest
        }
    }
}

fn rivals(at: &Vec<usize>, m: &SoftModel, funcs: &BTreeSet<u64>, lo: u64) -> (r: Vec<Sample>)
    requires
        m.prior@.len() == m.heads@.len(),
        forall|i: int| 0 <= i < at@.len() ==> (#[trigger] at@[i]) < m.heads@.len(),
    ensures
        r@ == rivals_below(at@, m.heads@, m.prior@, funcs@, lo, at@.len() as int),
{
    let mut out: Vec<Sample> = Vec::new();
    let mut k: usize = 0;
    while k < at.len()
        invariant
            k <= at@.len(),
            m.prior@.len() == m.heads@.len(),
            forall|i: int| 0 <= i < at@.len() ==> (#[trigger] at@[i]) < m.heads@.len(),
            out@ == rivals_below(at@, m.heads@, m.prior@, funcs@, lo, k as int),
        decreases at@.len() - k,
    {
        let i: usize = at[k];
        let known: bool = funcs.contains(&m.heads[i]);
        if known || m.heads[i] >= lo {
            out.push(Sample { key: m.prior[i], positive: known });
        }
        k += 1;
    }
    out
}

// ── Reachability over trusted edges ────────────────────────────────────────

/// Whether an edge trusted at least as far as `mark` leads from `a` to `b`.
pub open spec fn is_link(edges: Seq<CallEdge>, mark: u64, a: u64, b: u64) -> bool {
    exists|i: int|
        0 <= i < edges.len() && (#[trigger] edges[i]).from == a && edges[i].to == b
            && edges[i].trust >= mark
}

/// Whether `p` leads from `entry` to `a` over edges trusted as far as `mark`.
pub open spec fn is_trail(edges: Seq<CallEdge>, mark: u64, entry: u64, a: u64, p: Seq<u64>) -> bool {
    &&& p.len() > 0
    &&& p[0] == entry
    &&& p.last() == a
    &&& forall|i: int| 0 < i < p.len() ==> is_link(edges, mark, p[i - 1], #[trigger] p[i])
}

/// Whether `a` can be reached from `entry` over edges trusted as far as `mark`.
pub open spec fn is_reached(edges: Seq<CallEdge>, mark: u64, entry: u64, a: u64) -> bool {
    exists|p: Seq<u64>| is_trail(edges, mark, entry, a, p)
}

proof fn lemma_reach_step(edges: Seq<CallEdge>, mark: u64, entry: u64, a: u64, b: u64)
    requires
        is_reached(edges, mark, entry, a),
        is_link(edges, mark, a, b),
    ensures
        is_reached(edges, mark, entry, b),
{
    let p = choose|p: Seq<u64>| is_trail(edges, mark, entry, a, p);
    let q = p.push(b);
    assert forall|i: int| 0 < i < q.len() implies is_link(
        edges,
        mark,
        q[i - 1],
        #[trigger] q[i],
    ) by {
        if i < p.len() {
            assert(q[i] == p[i] && q[i - 1] == p[i - 1]);
        }
    }
    assert(is_trail(edges, mark, entry, b, q));
}

proof fn lemma_closed_holds_trail(
    edges: Seq<CallEdge>,
    mark: u64,
    s: Set<u64>,
    p: Seq<u64>,
    k: int,
)
    requires
        0 <= k < p.len(),
        s.contains(p[0]),
        forall|i: int| 0 < i < p.len() ==> is_link(edges, mark, p[i - 1], #[trigger] p[i]),
        forall|i: int|
            0 <= i < edges.len() && s.contains((#[trigger] edges[i]).from) && edges[i].trust
                >= mark ==> s.contains(edges[i].to),
    ensures
        s.contains(p[k]),
    decreases k,
{
    if k > 0 {
        lemma_closed_holds_trail(edges, mark, s, p, k - 1);
        assert(is_link(edges, mark, p[k - 1], p[k]));
    }
}

/// Everything that can be reached from `entry` over edges trusted as far as
/// `mark`.
pub fn boolean_reach(edges: &Vec<CallEdge>, entry: u64, mark: u64) -> (r: BTreeSet<u64>)
    ensures
        forall|a: u64| #[trigger] r@.contains(a) <==> is_reached(edges@, mark, entry, a),
{
    let mut found: BTreeSet<u64> = BTreeSet::new();
    found.insert(entry);
    let ghost ends = edges@.map_values(|e: CallEdge| e.to);
    let ghost all = ends.to_set().insert(entry);
    let mut more: bool = true;
    proof {
        vstd::seq_lib::seq_to_set_is_finite(ends);
        assert(found@ =~= Set::empty().insert(entry));
        assert(is_trail(edges@, mark, entry, entry, seq![entry]));
    }
    while more
        invariant
            found@.contains(entry),
            found@.finite(),
            ends == edges@.map_values(|e: CallEdge| e.to),
            all == ends.to_set().insert(entry),
            all.finite(),
            found@.subset_of(all),
            forall|a: u64| #[trigger] found@.contains(a) ==> is_reached(edges@, mark, entry, a),
            !more ==> forall|i: int|
                0 <= i < edges@.len() && found@.contains((#[trigger] edges@[i]).from)
                    && edges@[i].trust >= mark ==> found@.contains(edges@[i].to),
        decreases all.len() - found@.len(), more as int,
    {
        more = false;
        let ghost start = found@;
        let mut k: usize = 0;
        while k < edges.len()
            invariant
                k <= edges@.len(),
                found@.contains(entry),
                found@.finite(),
                start.finite(),
                start.subset_of(found@),
                more ==> start.len() < found@.len(),
                !more ==> found@ == start,
                ends == edges@.map_values(|e: CallEdge| e.to),
                all == ends.to_set().insert(entry),
                all.finite(),
                found@.subset_of(all),
                forall|a: u64| #[trigger]
                    found@.contains(a) ==> is_reached(edges@, mark, entry, a),
                !more ==> forall|i: int|
                    0 <= i < k && found@.contains((#[trigger] edges@[i]).from)
                        && edges@[i].trust >= mark ==> found@.contains(edges@[i].to),
            decreases edges@.len() - k,
        {
            let e: CallEdge = edges[k];
            if e.trust >= mark && found.contains(&e.from) && !found.contains(&e.to) {
                proof {
                    assert(edges@[k as int].from == e.from);
                    assert(is_link(edges@, mark, e.from, e.to));
                    lemma_reach_step(edges@, mark, entry, e.from, e.to);
                    assert(ends[k as int] == e.to);
                    vstd::set_lib::lemma_len_subset(start, found@);
                }
                found.insert(e.to);
                more = true;
            }
            k += 1;
        }
        proof {
            vstd::set_lib::lemma_len_subset(found@, all);
        }
    }
    proof {
        assert forall|a: u64| is_reached(edges@, mark, entry, a) implies #[trigger] found@.contains(
            a,
        ) by {
            let p = choose|p: Seq<u64>| is_trail(edges@, mark, entry, a, p);
            lemma_closed_holds_trail(edges@, mark, found@, p, p.len() - 1);
        }
    }
    found
}

/// What is reached over more trusted edges is reached over less trusted ones.
pub proof fn law_higher_trust_reaches_less(
    edges: Seq<CallEdge>,
    low: u64,
    high: u64,
    entry: u64,
    a: u64,
)
    requires
        low <= high,
        is_reached(edges, high, entry, a),
    ensures
        is_reached(edges, low, entry, a),
{
    let p = choose|p: Seq<u64>| is_trail(edges, high, entry, a, p);
    assert forall|i: int| 0 < i < p.len() implies is_link(edges, low, p[i - 1], #[trigger] p[i]) by {
        assert(is_link(edges, high, p[i - 1], p[i]));
        let j = choose|j: int|
            0 <= j < edges.len() && (#[trigger] edges[j]).from == p[i - 1] && edges[j].to == p[i]
                && edges[j].trust >= high;
        assert(edges[j].from == p[i - 1]);
    }
    assert(is_trail(edges, low, entry, a, p));
}

/// What no edge leads to is not reached, unless it is the entry. A decoy that
/// nothing calls stays out.
pub proof fn law_uncalled_is_not_reached(edges: Seq<CallEdge>, mark: u64, entry: u64, a: u64)
    requires
        a != entry,
        forall|i: int| 0 <= i < edges.len() ==> (#[trigger] edges[i]).to != a,
    ensures
        !is_reached(edges, mark, entry, a),
{
    if is_reached(edges, mark, entry, a) {
        let p = choose|p: Seq<u64>| is_trail(edges, mark, entry, a, p);
        assert(p.len() > 1);
        assert(is_link(edges, mark, p[p.len() - 2], p[p.len() - 1]));
    }
}

/// Counts the members at `lo` or above.
pub fn count_members_from(set: &BTreeSet<u64>, lo: u64) -> (r: usize)
    ensures
        r == set@.filter(from_on(lo)).len(),
{
    let items: Vec<u64> = sorted_items(set);
    let ghost p = Set::new(from_on(lo));
    let mut n: usize = 0;
    let mut k: usize = 0;
    proof {
        assert(items@.take(0).to_set().intersect(p) =~= Set::empty());
    }
    while k < items.len()
        invariant
            k <= items@.len(),
            ascending(items@),
            p == Set::new(from_on(lo)),
            n <= k,
            n == items@.take(k as int).to_set().intersect(p).len(),
        decreases items@.len() - k,
    {
        proof {
            lemma_count_step(items@, p, k as int);
        }
        if items[k] >= lo {
            n += 1;
        }
        k += 1;
    }
    proof {
        assert(items@.take(k as int) =~= items@);
        assert(set@.filter(from_on(lo)) =~= set@.intersect(p));
    }
    n
}

/// A point of a trade-off: how many known functions are found, and how much of
/// the decoy comes with them.
#[derive(Debug, Clone, Copy, PartialEq, Eq, Structural)]
pub struct Point {
    /// Known functions found.
    pub found: usize,
    /// Functions found in the decoy.
    pub leak: usize,
}

/// Whether `r` is the point of the set `s`.
pub open spec fn is_point(r: Point, s: Set<u64>, funcs: Set<u64>, lo: u64) -> bool {
    r.found == s.intersect(funcs).len() && r.leak == s.filter(from_on(lo)).len()
}

/// Whether `s` is what is reached.
pub open spec fn is_reach(s: Set<u64>, edges: Seq<CallEdge>, mark: u64, entry: u64) -> bool {
    forall|a: u64| #[trigger] s.contains(a) <==> is_reached(edges, mark, entry, a)
}

/// The trade-off of reachability, over how far edges must be trusted.
pub fn boolean_frontier(
    edges: &Vec<CallEdge>,
    funcs: &BTreeSet<u64>,
    entry: u64,
    lo: u64,
    marks: &Vec<u64>,
) -> (r: Vec<Point>)
    ensures
        r@.len() == marks@.len(),
        forall|i: int, s: Set<u64>|
            0 <= i < marks@.len() && #[trigger] is_reach(s, edges@, marks@[i], entry) ==> is_point(
                r@[i],
                s,
                funcs@,
                lo,
            ),
{
    let mut out: Vec<Point> = Vec::new();
    let mut k: usize = 0;
    while k < marks.len()
        invariant
            k <= marks@.len(),
            out@.len() == k,
            forall|i: int, s: Set<u64>|
                0 <= i < k && #[trigger] is_reach(s, edges@, marks@[i], entry) ==> is_point(
                    out@[i],
                    s,
                    funcs@,
                    lo,
                ),
        decreases marks@.len() - k,
    {
        let reach: BTreeSet<u64> = boolean_reach(edges, entry, marks[k]);
        let ghost before = out@;
        out.push(
            Point { found: count_shared(&reach, funcs), leak: count_members_from(&reach, lo) },
        );
        proof {
            assert forall|i: int, s: Set<u64>|
                0 <= i < k + 1 && #[trigger] is_reach(
                    s,
                    edges@,
                    marks@[i],
                    entry,
                ) implies is_point(out@[i], s, funcs@, lo) by {
                if i == k {
                    assert forall|a: u64| s.contains(a) <==> #[trigger] reach@.contains(a) by {}
                    assert(s =~= reach@);
                } else {
                    assert(out@[i] == before[i]);
                }
            }
        }
        k += 1;
    }
    out
}

/// Whether `r` is the point of what is believed as far as `mark`.
pub open spec fn is_belief_point(
    r: Point,
    m: SoftModel,
    funcs: Set<u64>,
    lo: u64,
    mark: u64,
) -> bool {
    &&& r.found == funcs.filter(as_far_as(m.belief@, mark)).len()
    &&& r.leak == how_many(m.heads@, leaks_at(m.belief@, lo, mark), m.heads@.len() as int)
}

/// The trade-off of belief, over how far functions must be believed.
pub fn belief_frontier(m: &SoftModel, funcs: &BTreeSet<u64>, lo: u64, marks: &Vec<u64>) -> (r: Vec<
    Point,
>)
    ensures
        r@.len() == marks@.len(),
        forall|i: int|
            0 <= i < marks@.len() ==> is_belief_point(
                #[trigger] r@[i],
                *m,
                funcs@,
                lo,
                marks@[i],
            ),
{
    let index: HashMap<u64, u64> = index_beliefs(&m.belief);
    let mut out: Vec<Point> = Vec::new();
    let mut k: usize = 0;
    while k < marks.len()
        invariant
            k <= marks@.len(),
            is_index(index@, m.belief@),
            out@.len() == k,
            forall|i: int|
                0 <= i < k ==> is_belief_point(#[trigger] out@[i], *m, funcs@, lo, marks@[i]),
        decreases marks@.len() - k,
    {
        out.push(
            Point {
                found: count_believed(&index, &m.belief, funcs, marks[k]),
                leak: leak_at(&index, &m.belief, &m.heads, lo, marks[k]),
            },
        );
        k += 1;
    }
    out
}

// ── The report ─────────────────────────────────────────────────────────────

/// What a decoy shows of a model.
#[derive(Debug)]
pub struct DecoyReport {
    /// Candidates in the decoy with any belief at all.
    pub traced: usize,
    /// Candidates in the decoy believed by half.
    pub half: usize,
    /// Candidates in the decoy that count as confirmed.
    pub high: usize,
    /// Candidates below the decoy with more than a trace of belief.
    pub reached: usize,
    /// Uncalled candidates that are known functions or decoys, by local evidence.
    pub rivals: Vec<Sample>,
}

/// How a model compares with the functions that are known.
#[derive(Debug)]
pub struct FunctionReport {
    /// Known functions.
    pub known: usize,
    /// Known functions that count as confirmed.
    pub confirmed: usize,
    /// Candidates with a believed caller.
    pub core: Vec<usize>,
    /// Those of them that are known functions.
    pub core_known: usize,
    /// Candidates without one.
    pub tail: Vec<usize>,
    /// Those of them that are known functions.
    pub tail_known: usize,
    /// What the decoy shows, where one is known.
    pub decoy: Option<DecoyReport>,
}

impl DecoyReport {
    /// Whether this is what the decoy from `lo` shows of `m`.
    pub open spec fn is_decoy_report(
        self,
        m: SoftModel,
        funcs: Set<u64>,
        lo: u64,
        marks: Marks,
        tail: Seq<usize>,
    ) -> bool {
        let n = m.heads@.len() as int;
        &&& self.traced == how_many(m.heads@, leaks_at(m.belief@, lo, marks.trace), n)
        &&& self.half == how_many(m.heads@, leaks_at(m.belief@, lo, marks.half), n)
        &&& self.high == how_many(m.heads@, leaks_at(m.belief@, lo, marks.high), n)
        &&& self.reached == how_many(m.heads@, reached_below(m.belief@, lo, marks.trace), n)
        &&& self.rivals@ == rivals_below(
            tail,
            m.heads@,
            m.prior@,
            funcs,
            lo,
            tail.len() as int,
        )
    }
}

impl FunctionReport {
    /// Whether this is how `m` compares with the functions `funcs`.
    pub open spec fn is_report(
        self,
        m: SoftModel,
        funcs: Set<u64>,
        entry: u64,
        decoy: Option<u64>,
        marks: Marks,
    ) -> bool {
        let n = m.heads@.len() as int;
        let known = is_known(m.heads@, funcs);
        &&& self.known == funcs.len()
        &&& self.confirmed == funcs.filter(as_far_as(m.belief@, marks.high)).len()
        &&& self.core@ == side_below(m.heads@, m.edges@, entry, marks.half, true, n)
        &&& self.core_known == how_many(self.core@, known, self.core@.len() as int)
        &&& self.tail@ == side_below(m.heads@, m.edges@, entry, marks.half, false, n)
        &&& self.tail_known == how_many(self.tail@, known, self.tail@.len() as int)
        &&& match (decoy, self.decoy) {
            (Some(lo), Some(d)) => d.is_decoy_report(m, funcs, lo, marks, self.tail@),
            (None, None) => true,
            _ => false,
        }
    }
}

/// Compares a model with the functions that are known. Candidates with a
/// believed caller form the core; the rest, but for the entry, form the tail.
pub fn report_function_calibration(
    m: &SoftModel,
    funcs: &BTreeSet<u64>,
    entry: u64,
    decoy: Option<u64>,
    marks: Marks,
) -> (r: FunctionReport)
    requires
        m.prior@.len() == m.heads@.len(),
    ensures
        r.is_report(*m, funcs@, entry, decoy, marks),
{
    let index: HashMap<u64, u64> = index_beliefs(&m.belief);
    let confirmed: usize = count_believed(&index, &m.belief, funcs, marks.high);
    let n: usize = m.heads.len();
    let (core, tail) = split_heads(&m.heads, &m.edges, entry, marks.half);
    proof {
        lemma_side_in_bounds(m.heads@, m.edges@, entry, marks.half, true, n as int);
        lemma_side_in_bounds(m.heads@, m.edges@, entry, marks.half, false, n as int);
    }
    let core_known: usize = count_known(&core, &m.heads, funcs);
    let tail_known: usize = count_known(&tail, &m.heads, funcs);
    let shown: Option<DecoyReport> = match decoy {
        Some(lo) => Some(
            DecoyReport {
                traced: leak_at(&index, &m.belief, &m.heads, lo, marks.trace),
                half: leak_at(&index, &m.belief, &m.heads, lo, marks.half),
                high: leak_at(&index, &m.belief, &m.heads, lo, marks.high),
                reached: count_reached(&index, &m.belief, &m.heads, lo, marks.trace),
                rivals: rivals(&tail, m, funcs, lo),
            },
        ),
        None => None,
    };
    FunctionReport {
        known: funcs.len(),
        confirmed,
        core,
        core_known,
        tail,
        tail_known,
        decoy: shown,
    }
}

/// What is confirmed in a decoy is at least traced there: higher marks leak no
/// more.
pub proof fn law_higher_belief_leaks_less(
    m: SoftModel,
    lo: u64,
    low: u64,
    high: u64,
    k: int,
)
    requires
        low <= high,
        0 <= k <= m.heads@.len(),
    ensures
        how_many(m.heads@, leaks_at(m.belief@, lo, high), k) <= how_many(
            m.heads@,
            leaks_at(m.belief@, lo, low),
            k,
        ),
    decreases k,
{
    if k > 0 {
        law_higher_belief_leaks_less(m, lo, low, high, k - 1);
    }
}

// ── Summaries ──────────────────────────────────────────────────────────────

/// Scoring at least `mark`.
pub open spec fn scores_at_least(mark: u64) -> spec_fn((u64, u64)) -> bool {
    |x: (u64, u64)| x.1 >= mark
}

/// Scoring at least `mark`, and being true.
pub open spec fn hits_at_least(truth: Set<u64>, mark: u64) -> spec_fn((u64, u64)) -> bool {
    |x: (u64, u64)| x.1 >= mark && truth.contains(x.0)
}

/// Counts the scores of at least `mark`.
pub fn count_scores(v: &Vec<(u64, u64)>, mark: u64) -> (r: usize)
    ensures
        r == how_many(v@, scores_at_least(mark), v@.len() as int),
{
    let len: usize = v.len();
    let mut n: usize = 0;
    let mut k: usize = 0;
    while k < len
        invariant
            len == v@.len(),
            k <= len,
            n <= k,
            n == how_many(v@, scores_at_least(mark), k as int),
        decreases len - k,
    {
        if v[k].1 >= mark {
            n += 1;
        }
        k += 1;
    }
    n
}

/// Counts the scores of at least `mark` that belong to true addresses.
pub fn count_hits(v: &Vec<(u64, u64)>, truth: &BTreeSet<u64>, mark: u64) -> (r: usize)
    ensures
        r == how_many(v@, hits_at_least(truth@, mark), v@.len() as int),
{
    let len: usize = v.len();
    let mut n: usize = 0;
    let mut k: usize = 0;
    while k < len
        invariant
            len == v@.len(),
            k <= len,
            n <= k,
            n == how_many(v@, hits_at_least(truth@, mark), k as int),
        decreases len - k,
    {
        if v[k].1 >= mark && truth.contains(&v[k].0) {
            n += 1;
        }
        k += 1;
    }
    n
}

// ── Resolved indirect calls ────────────────────────────────────────────────

/// Where the target of an indirect call was found.
#[derive(Debug, Clone, Copy, PartialEq, Eq, Structural)]
pub enum ResolveKind {
    /// The table of initialisers.
    InitArray,
    /// The table of finalisers.
    FiniArray,
    /// A relocation.
    Relocation,
    /// A jump table.
    JumpTable,
    /// A pointer in data.
    DataPointer,
    /// A table of labels.
    ComputedGoto,
    /// A jump table relative to its own address.
    PieRelJumpTable,
    /// A virtual method table.
    Vtable,
}

impl ResolveKind {
    /// How the kind is written.
    pub open spec fn spec_tag(self) -> Seq<char> {
        match self {
            ResolveKind::InitArray => "init_array"@,
            ResolveKind::FiniArray => "fini_array"@,
            ResolveKind::Relocation => "reloc"@,
            ResolveKind::JumpTable => "jump_table"@,
            ResolveKind::DataPointer => "data_ptr"@,
            ResolveKind::ComputedGoto => "computed_goto"@,
            ResolveKind::PieRelJumpTable => "pie_rel"@,
            ResolveKind::Vtable => "vtable"@,
        }
    }

    /// How the kind is written.
    pub fn tag(self) -> (r: &'static str)
        ensures
            r@ == self.spec_tag(),
    {
        match self {
            ResolveKind::InitArray => "init_array",
            ResolveKind::FiniArray => "fini_array",
            ResolveKind::Relocation => "reloc",
            ResolveKind::JumpTable => "jump_table",
            ResolveKind::DataPointer => "data_ptr",
            ResolveKind::ComputedGoto => "computed_goto",
            ResolveKind::PieRelJumpTable => "pie_rel",
            ResolveKind::Vtable => "vtable",
        }
    }
}

/// A resolved indirect call.
#[derive(Debug, Clone, Copy, PartialEq, Eq, Structural)]
pub struct ResolvedEdge {
    /// The caller.
    pub from: u64,
    /// The target.
    pub to: u64,
    /// How far the edge is trusted.
    pub trust: u64,
    /// Where the target was found.
    pub kind: ResolveKind,
}

/// Being of the kind `kind`.
pub open spec fn of_kind(kind: ResolveKind) -> spec_fn(ResolvedEdge) -> bool {
    |e: ResolvedEdge| e.kind == kind
}

/// Counts the resolved calls of one kind.
pub fn count_kind(edges: &Vec<ResolvedEdge>, kind: ResolveKind) -> (r: usize)
    ensures
        r == how_many(edges@, of_kind(kind), edges@.len() as int),
{
    let len: usize = edges.len();
    let mut n: usize = 0;
    let mut k: usize = 0;
    while k < len
        invariant
            len == edges@.len(),
            k <= len,
            n <= k,
            n == how_many(edges@, of_kind(kind), k as int),
        decreases len - k,
    {
        if edges[k].kind == kind {
            n += 1;
        }
        k += 1;
    }
    n
}

/// The targets of resolved calls.
pub open spec fn resolved_targets(edges: Seq<ResolvedEdge>) -> Seq<u64> {
    edges.map_values(|e: ResolvedEdge| e.to)
}

/// Counts the targets of resolved calls, each once.
pub fn count_targets(edges: &Vec<ResolvedEdge>) -> (r: usize)
    ensures
        r == resolved_targets(edges@).to_set().len(),
{
    let ghost all = resolved_targets(edges@);
    let mut out: BTreeSet<u64> = BTreeSet::new();
    let mut k: usize = 0;
    proof {
        assert(out@ =~= all.take(0).to_set());
    }
    while k < edges.len()
        invariant
            k <= edges@.len(),
            all == resolved_targets(edges@),
            out@ == all.take(k as int).to_set(),
        decreases edges@.len() - k,
    {
        let ghost past = all.take(k as int);
        let ghost now = all.take(k + 1);
        out.insert(edges[k].to);
        proof {
            assert(now =~= past.push(edges@[k as int].to));
            assert forall|a: u64| #[trigger] out@.contains(a) <==> now.to_set().contains(a) by {
                if past.contains(a) {
                    let j = choose|j: int| 0 <= j < past.len() && past[j] == a;
                    assert(now[j] == a);
                }
                assert(now[k as int] == edges@[k as int].to);
                if now.contains(a) {
                    let j = choose|j: int| 0 <= j < now.len() && now[j] == a;
                    if j < k {
                        assert(past[j] == a);
                    }
                }
            }
            assert(out@ =~= now.to_set());
        }
        k += 1;
    }
    proof {
        assert(all.take(k as int) =~= all);
    }
    out.len()
}

// ── What the figures say ───────────────────────────────────────────────────

proof fn lemma_belief(v: Seq<(u64, u64)>, a: u64, k: int)
    requires
        0 <= k <= v.len(),
    ensures
        match belief_below(v, a, k) {
            Some(b) => exists|i: int|
                0 <= i < k && #[trigger] v[i] == (a, b) && forall|j: int|
                    i < j < k ==> (#[trigger] v[j]).0 != a,
            None => forall|j: int| 0 <= j < k ==> (#[trigger] v[j]).0 != a,
        },
    decreases k,
{
    if k > 0 {
        lemma_belief(v, a, k - 1);
        if v[k - 1].0 == a {
            assert(v[k - 1] == (a, v[k - 1].1));
        } else if belief_below(v, a, k - 1) is Some {
            let b = belief_below(v, a, k - 1)->0;
            let i = choose|i: int|
                0 <= i < k - 1 && #[trigger] v[i] == (a, b) && forall|j: int|
                    i < j < k - 1 ==> (#[trigger] v[j]).0 != a;
            assert(v[i] == (a, b));
        }
    }
}

/// What is believed of an address is what was said of it last; it leaks at a mark where
/// it lies in the decoy and is believed at least that far, and is reached below the decoy
/// where it is believed further.
pub proof fn law_last_belief_counts(v: Seq<(u64, u64)>, i: int, lo: u64, mark: u64)
    requires
        0 <= i < v.len(),
        forall|j: int| i < j < v.len() ==> (#[trigger] v[j]).0 != v[i].0,
    ensures
        belief_of(v, v[i].0) == Some(v[i].1),
        believed(v, v[i].0, mark) <==> v[i].1 >= mark,
        leaks_at(v, lo, mark)(v[i].0) <==> lo <= v[i].0 && mark <= v[i].1,
        reached_below(v, lo, mark)(v[i].0) <==> v[i].0 < lo && mark < v[i].1,
{
    lemma_belief(v, v[i].0, v.len() as int);
    let b = belief_of(v, v[i].0);
    if b is Some {
        let k = choose|k: int|
            0 <= k < v.len() && #[trigger] v[k] == (v[i].0, b->0) && forall|j: int|
                k < j < v.len() ==> (#[trigger] v[j]).0 != v[i].0;
        assert(k == i);
    } else {
        assert(v[i].0 != v[i].0);
    }
}

/// Nothing is believed of an address of which nothing was said.
pub proof fn law_unsaid_is_not_believed(v: Seq<(u64, u64)>, a: u64, mark: u64)
    requires
        forall|j: int| 0 <= j < v.len() ==> (#[trigger] v[j]).0 != a,
    ensures
        belief_of(v, a) is None,
        !believed(v, a, mark),
{
    lemma_belief(v, a, v.len() as int);
}

/// A candidate is called where an edge of at least the mark's force leads to it.
pub proof fn law_called_by_force(edges: Seq<CallEdge>, h: u64, half: u64, i: int)
    ensures
        0 <= i < edges.len() && edges[i].to == h && half <= edges[i].force ==> is_called(
            edges,
            h,
            half,
        ),
        is_called(edges, h, half) ==> exists|j: int|
            0 <= j < edges.len() && (#[trigger] edges[j]).to == h && half <= edges[j].force,
{
}

proof fn lemma_rivals(
    at: Seq<usize>,
    heads: Seq<u64>,
    prior: Seq<u64>,
    funcs: Set<u64>,
    lo: u64,
    k: int,
)
    requires
        0 <= k <= at.len(),
    ensures
        rivals_below(at, heads, prior, funcs, lo, k) == at.take(k).filter(
            |i: usize| funcs.contains(heads[i as int]) || heads[i as int] >= lo,
        ).map_values(
            |i: usize| Sample { key: prior[i as int], positive: funcs.contains(heads[i as int]) },
        ),
    decreases k,
{
    reveal(Seq::filter);
    let f = |i: usize| funcs.contains(heads[i as int]) || heads[i as int] >= lo;
    let g = |i: usize|
        Sample { key: prior[i as int], positive: funcs.contains(heads[i as int]) };
    if k > 0 {
        lemma_rivals(at, heads, prior, funcs, lo, k - 1);
        assert(at.take(k).drop_last() =~= at.take(k - 1));
        assert(at.take(k).last() == at[k - 1]);
        let before = at.take(k - 1).filter(f);
        if f(at[k - 1]) {
            assert(before.push(at[k - 1]).map_values(g) =~= before.map_values(g).push(
                g(at[k - 1]),
            ));
        }
    } else {
        assert(at.take(k) =~= Seq::empty());
        assert(Seq::<usize>::empty().map_values(g) =~= Seq::empty());
    }
}

/// What a decoy shows: how many candidates in it are believed by a trace, by half and as
/// confirmed, how many below it by more than a trace, and, as rivals, the uncalled ones
/// that are known functions or lie in it, the known ones as positive.
pub proof fn law_decoy_report(
    d: DecoyReport,
    m: SoftModel,
    funcs: Set<u64>,
    lo: u64,
    marks: Marks,
    tail: Seq<usize>,
)
    requires
        d.is_decoy_report(m, funcs, lo, marks, tail),
    ensures
        d.traced == m.heads@.filter(
            |a: u64| lo <= a && (belief_of(m.belief@, a) matches Some(b) && b >= marks.trace),
        ).len(),
        d.half == m.heads@.filter(
            |a: u64| lo <= a && (belief_of(m.belief@, a) matches Some(b) && b >= marks.half),
        ).len(),
        d.high == m.heads@.filter(
            |a: u64| lo <= a && (belief_of(m.belief@, a) matches Some(b) && b >= marks.high),
        ).len(),
        d.reached == m.heads@.filter(
            |a: u64| a < lo && (belief_of(m.belief@, a) matches Some(b) && b > marks.trace),
        ).len(),
        d.rivals@ == tail.filter(
            |i: usize| funcs.contains(m.heads@[i as int]) || m.heads@[i as int] >= lo,
        ).map_values(
            |i: usize|
                Sample { key: m.prior@[i as int], positive: funcs.contains(m.heads@[i as int]) },
        ),
{
    let v = m.belief@;
    assert(leaks_at(v, lo, marks.trace) =~= (|a: u64|
        lo <= a && (belief_of(v, a) matches Some(b) && b >= marks.trace)));
    assert(leaks_at(v, lo, marks.half) =~= (|a: u64|
        lo <= a && (belief_of(v, a) matches Some(b) && b >= marks.half)));
    assert(leaks_at(v, lo, marks.high) =~= (|a: u64|
        lo <= a && (belief_of(v, a) matches Some(b) && b >= marks.high)));
    assert(reached_below(v, lo, marks.trace) =~= (|a: u64|
        a < lo && (belief_of(v, a) matches Some(b) && b > marks.trace)));
    law_counts_are_of_a_kind(m.heads@, leaks_at(v, lo, marks.trace));
    law_counts_are_of_a_kind(m.heads@, leaks_at(v, lo, marks.half));
    law_counts_are_of_a_kind(m.heads@, leaks_at(v, lo, marks.high));
    law_counts_are_of_a_kind(m.heads@, reached_below(v, lo, marks.trace));
    lemma_rivals(tail, m.heads@, m.prior@, funcs, lo, tail.len() as int);
    assert(tail.take(tail.len() as int) =~= tail);
}

/// How a model compares with what is known: confirmed are the known functions believed
/// as far as the highest mark, and of the called and uncalled candidates the known ones
/// are counted.
pub proof fn law_function_report(
    r: FunctionReport,
    m: SoftModel,
    funcs: Set<u64>,
    entry: u64,
    decoy: Option<u64>,
    marks: Marks,
)
    requires
        r.is_report(m, funcs, entry, decoy, marks),
    ensures
        r.known == funcs.len(),
        r.confirmed == funcs.filter(
            |a: u64| (belief_of(m.belief@, a) matches Some(b) && b >= marks.high),
        ).len(),
        r.core_known == r.core@.filter(|i: usize| funcs.contains(m.heads@[i as int])).len(),
        r.tail_known == r.tail@.filter(|i: usize| funcs.contains(m.heads@[i as int])).len(),
        r.core@ == side_below(
            m.heads@,
            m.edges@,
            entry,
            marks.half,
            true,
            m.heads@.len() as int,
        ),
        r.tail@ == side_below(
            m.heads@,
            m.edges@,
            entry,
            marks.half,
            false,
            m.heads@.len() as int,
        ),
        r.decoy is Some <==> decoy is Some,
        decoy matches Some(lo) ==> (r.decoy matches Some(d) && d.is_decoy_report(
            m,
            funcs,
            lo,
            marks,
            r.tail@,
        )),
{
    assert(as_far_as(m.belief@, marks.high) =~= (|a: u64|
        (belief_of(m.belief@, a) matches Some(b) && b >= marks.high)));
    assert(is_known(m.heads@, funcs) =~= (|i: usize| funcs.contains(m.heads@[i as int])));
    law_counts_are_of_a_kind(r.core@, is_known(m.heads@, funcs));
    law_counts_are_of_a_kind(r.tail@, is_known(m.heads@, funcs));
}

proof fn lemma_entry_is_no_side(
    heads: Seq<u64>,
    edges: Seq<CallEdge>,
    entry: u64,
    half: u64,
    called: bool,
    k: int,
)
    requires
        0 <= k <= heads.len() <= usize::MAX,
    ensures
        forall|i: usize| #[trigger]
            side_below(heads, edges, entry, half, called, k).contains(i) ==> i < k
                && heads[i as int] != entry && is_called(edges, heads[i as int], half) == called,
        forall|i: int, j: int|
            0 <= i < j < side_below(heads, edges, entry, half, called, k).len() ==> side_below(
                heads,
                edges,
                entry,
                half,
                called,
                k,
            )[i] < side_below(heads, edges, entry, half, called, k)[j],
    decreases k,
{
    if k > 0 {
        lemma_entry_is_no_side(heads, edges, entry, half, called, k - 1);
        let before = side_below(heads, edges, entry, half, called, k - 1);
        let now = side_below(heads, edges, entry, half, called, k);
        assert forall|i: usize| #[trigger] now.contains(i) implies i < k && heads[i as int] != entry
            && is_called(edges, heads[i as int], half) == called by {
            vstd::seq_lib::lemma_seq_contains_after_push(before, (k - 1) as usize, i);
        }
        assert forall|i: int, j: int| 0 <= i < j < now.len() implies now[i] < now[j] by {
            if now.len() > before.len() && i < before.len() {
                assert(before.contains(before[i]));
            }
        }
    }
}

/// The sides list candidates in order, each once, and never the entry.
pub proof fn law_entry_is_on_no_side(
    heads: Seq<u64>,
    edges: Seq<CallEdge>,
    entry: u64,
    half: u64,
    called: bool,
    i: int,
    j: int,
)
    requires
        heads.len() <= usize::MAX,
        0 <= i < j < side_below(heads, edges, entry, half, called, heads.len() as int).len(),
    ensures
        ({
            let side = side_below(heads, edges, entry, half, called, heads.len() as int);
            side[i] < side[j] < heads.len() && heads[side[i] as int] != entry
                && heads[side[j] as int] != entry
        }),
{
    let side = side_below(heads, edges, entry, half, called, heads.len() as int);
    lemma_entry_is_no_side(heads, edges, entry, half, called, heads.len() as int);
    assert(side.contains(side[i]) && side.contains(side[j]));
}

/// Points of a frontier count what is reached or believed: known functions, and what
/// lies in the decoy.
pub proof fn law_points_count(r: Point, s: Set<u64>, funcs: Set<u64>, lo: u64)
    requires
        is_point(r, s, funcs, lo),
    ensures
        r.found == s.filter(|a: u64| funcs.contains(a)).len(),
        r.leak == s.filter(|a: u64| lo <= a).len(),
{
    assert(s.filter(|a: u64| funcs.contains(a)) =~= s.intersect(funcs));
    assert(from_on(lo) =~= (|a: u64| lo <= a));
}

/// Edges lead on where they are trusted at least as far as the mark, and the entry is
/// always reached.
pub proof fn law_reach_goes_by_trusted_edges(
    edges: Seq<CallEdge>,
    mark: u64,
    entry: u64,
    i: int,
)
    requires
        0 <= i < edges.len(),
    ensures
        is_reached(edges, mark, entry, entry),
        is_reached(edges, mark, entry, edges[i].from) && mark <= edges[i].trust ==> is_reached(
            edges,
            mark,
            entry,
            edges[i].to,
        ),
{
    assert(is_trail(edges, mark, entry, entry, seq![entry]));
    if is_reached(edges, mark, entry, edges[i].from) && mark <= edges[i].trust {
        assert(is_link(edges, mark, edges[i].from, edges[i].to));
        lemma_reach_step(edges, mark, entry, edges[i].from, edges[i].to);
    }
}

/// What is reached is the entry, or is called over an edge trusted as far as the mark
/// from something reached.
pub proof fn law_reached_from_reached(edges: Seq<CallEdge>, mark: u64, entry: u64, a: u64)
    requires
        is_reached(edges, mark, entry, a),
        a != entry,
    ensures
        exists|i: int|
            0 <= i < edges.len() && (#[trigger] edges[i]).to == a && mark <= edges[i].trust
                && is_reached(edges, mark, entry, edges[i].from),
{
    let p = choose|p: Seq<u64>| is_trail(edges, mark, entry, a, p);
    let n = p.len() as int;
    assert(n > 1);
    assert(is_link(edges, mark, p[n - 2], p[n - 1]));
    let q = p.drop_last();
    assert forall|i: int| 0 < i < q.len() implies is_link(
        edges,
        mark,
        q[i - 1],
        #[trigger] q[i],
    ) by {
        assert(p[i - 1] == q[i - 1] && p[i] == q[i]);
    }
    assert(is_trail(edges, mark, entry, p[n - 2], q));
}

} // verus!
