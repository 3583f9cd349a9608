//! Dominators: blocks that every path from the entry passes.

use vstd::prelude::*;

verus! {

/// Whether every edge leads to a node.
pub open spec fn is_closed(succ: Seq<Vec<usize>>) -> bool {
    forall|i: int, x: int| #![trigger succ[i]@[x]]
        0 <= i < succ.len() && 0 <= x < succ[i]@.len() ==> succ[i]@[x] < succ.len()
}

/// Whether an edge leads from `i` to `j`.
pub open spec fn edge(succ: Seq<Vec<usize>>, i: usize, j: usize) -> bool {
    i < succ.len() && succ[i as int]@.contains(j)
}

/// Whether `p` is a path from `e`.
pub open spec fn is_walk(succ: Seq<Vec<usize>>, e: usize, p: Seq<usize>) -> bool {
    &&& p.len() > 0
    &&& p[0] == e
    &&& forall|i: int| 0 <= i < p.len() - 1 ==> edge(succ, #[trigger] p[i], p[i + 1])
}

/// Whether `p` is a path from `e` to `b`.
pub open spec fn walks_to(succ: Seq<Vec<usize>>, e: usize, b: usize, p: Seq<usize>) -> bool {
    is_walk(succ, e, p) && p.last() == b
}

/// Whether a path leads from `e` to `b`.
pub open spec fn reachable(succ: Seq<Vec<usize>>, e: usize, b: usize) -> bool {
    exists|p: Seq<usize>| #[trigger] walks_to(succ, e, b, p)
}

/// Whether a path leads from `e` to `b` that does not pass `d`.
pub open spec fn reachable_without(
    succ: Seq<Vec<usize>>,
    e: usize,
    b: usize,
    d: usize,
) -> bool {
    exists|p: Seq<usize>| #[trigger] walks_to(succ, e, b, p) && !p.contains(d)
}

/// Whether every path from `e` to `b` passes `d`.
pub open spec fn dominates(succ: Seq<Vec<usize>>, e: usize, d: usize, b: usize) -> bool {
    forall|p: Seq<usize>| #[trigger] walks_to(succ, e, b, p) ==> p.contains(d)
}

/// Whether `d` dominates `b` and is another node.
pub open spec fn strictly_dominates(
    succ: Seq<Vec<usize>>,
    e: usize,
    d: usize,
    b: usize,
) -> bool {
    d != b && dominates(succ, e, d, b)
}

/// Whether `d` is the dominator of `b` that is nearest to it.
pub open spec fn is_idom(succ: Seq<Vec<usize>>, e: usize, d: usize, b: usize) -> bool {
    &&& strictly_dominates(succ, e, d, b)
    &&& forall|c: usize| #[trigger]
        strictly_dominates(succ, e, c, b) ==> dominates(succ, e, c, d)
}

// ── Facts on paths ─────────────────────────────────────────────────────────

proof fn lemma_prefix(succ: Seq<Vec<usize>>, e: usize, p: Seq<usize>, i: int)
    requires
        is_walk(succ, e, p),
        0 <= i < p.len(),
    ensures
        walks_to(succ, e, p[i], p.take(i + 1)),
{
    let q = p.take(i + 1);
    assert forall|j: int| 0 <= j < q.len() - 1 implies edge(succ, #[trigger] q[j], q[j + 1]) by {
        assert(edge(succ, p[j], p[j + 1]));
    }
}

proof fn lemma_extend(succ: Seq<Vec<usize>>, e: usize, p: Seq<usize>, b: usize)
    requires
        is_walk(succ, e, p),
        edge(succ, p.last(), b),
    ensures
        walks_to(succ, e, b, p.push(b)),
{
    let q = p.push(b);
    assert forall|j: int| 0 <= j < q.len() - 1 implies edge(succ, #[trigger] q[j], q[j + 1]) by {
        if j < p.len() - 1 {
            assert(edge(succ, p[j], p[j + 1]));
        }
    }
}

proof fn lemma_walk_stays(succ: Seq<Vec<usize>>, e: usize, p: Seq<usize>, i: int)
    requires
        is_closed(succ),
        e < succ.len(),
        is_walk(succ, e, p),
        0 <= i < p.len(),
    ensures
        p[i] < succ.len(),
    decreases i,
{
    if i > 0 {
        assert(edge(succ, p[i - 1], p[i - 1 + 1]));
        let row = succ[p[i - 1] as int]@;
        let x = choose|x: int| 0 <= x < row.len() && row[x] == p[i];
        assert(succ[p[i - 1] as int]@[x] < succ.len());
    }
}

/// Only nodes dominate what can be reached.
pub proof fn law_dominators_are_nodes(succ: Seq<Vec<usize>>, e: usize, d: usize, b: usize)
    requires
        is_closed(succ),
        e < succ.len(),
        reachable(succ, e, b),
        dominates(succ, e, d, b),
    ensures
        d < succ.len(),
        reachable(succ, e, d),
{
    let p = choose|p: Seq<usize>| #[trigger] walks_to(succ, e, b, p);
    let i = choose|i: int| 0 <= i < p.len() && p[i] == d;
    lemma_walk_stays(succ, e, p, i);
    lemma_prefix(succ, e, p, i);
}

/// Every node dominates itself.
pub proof fn law_dominance_is_reflexive(succ: Seq<Vec<usize>>, e: usize, b: usize)
    ensures
        dominates(succ, e, b, b),
{
    assert forall|p: Seq<usize>| #[trigger] walks_to(succ, e, b, p) implies p.contains(b) by {
        assert(p[p.len() - 1] == b);
    }
}

/// The entry dominates every node.
pub proof fn law_entry_dominates(succ: Seq<Vec<usize>>, e: usize, b: usize)
    ensures
        dominates(succ, e, e, b),
{
    assert forall|p: Seq<usize>| #[trigger] walks_to(succ, e, b, p) implies p.contains(e) by {
        assert(p[0] == e);
    }
}

/// A dominator of a dominator is a dominator.
pub proof fn law_dominance_is_transitive(
    succ: Seq<Vec<usize>>,
    e: usize,
    c: usize,
    d: usize,
    b: usize,
)
    requires
        dominates(succ, e, c, d),
        dominates(succ, e, d, b),
    ensures
        dominates(succ, e, c, b),
{
    assert forall|p: Seq<usize>| #[trigger] walks_to(succ, e, b, p) implies p.contains(c) by {
        let i = choose|i: int| 0 <= i < p.len() && p[i] == d;
        lemma_prefix(succ, e, p, i);
        let q = p.take(i + 1);
        assert(q.contains(c));
        let j = choose|j: int| 0 <= j < q.len() && q[j] == c;
        assert(p[j] == c);
    }
}

proof fn lemma_mutual(succ: Seq<Vec<usize>>, e: usize, d: usize, b: usize, p: Seq<usize>)
    requires
        dominates(succ, e, d, b),
        dominates(succ, e, b, d),
        walks_to(succ, e, b, p),
    ensures
        d == b,
    decreases p.len(),
{
    let i = choose|i: int| 0 <= i < p.len() && p[i] == d;
    lemma_prefix(succ, e, p, i);
    let q = p.take(i + 1);
    assert(q.contains(b));
    let j = choose|j: int| 0 <= j < q.len() && q[j] == b;
    assert(p[j] == b);
    if d != b {
        lemma_prefix(succ, e, p, j);
        lemma_mutual(succ, e, d, b, p.take(j + 1));
    }
}

/// Two nodes that can be reached do not dominate each other.
pub proof fn law_dominance_is_antisymmetric(
    succ: Seq<Vec<usize>>,
    e: usize,
    d: usize,
    b: usize,
)
    requires
        reachable(succ, e, b),
        dominates(succ, e, d, b),
        dominates(succ, e, b, d),
    ensures
        d == b,
{
    let p = choose|p: Seq<usize>| #[trigger] walks_to(succ, e, b, p);
    lemma_mutual(succ, e, d, b, p);
}

/// A node has at most one nearest dominator.
pub proof fn law_idom_is_unique(succ: Seq<Vec<usize>>, e: usize, c: usize, d: usize, b: usize)
    requires
        is_closed(succ),
        e < succ.len(),
        reachable(succ, e, b),
        is_idom(succ, e, c, b),
        is_idom(succ, e, d, b),
    ensures
        c == d,
{
    law_dominators_are_nodes(succ, e, d, b);
    assert(strictly_dominates(succ, e, c, b));
    assert(strictly_dominates(succ, e, d, b));
    law_dominance_is_antisymmetric(succ, e, c, d);
}

// ── What can be reached ────────────────────────────────────────────────────

/// How many of the first `k` nodes have not been seen.
spec fn unseen(seen: Seq<bool>, k: int) -> nat
    decreases k,
{
    if k <= 0 {
        0
    } else {
        unseen(seen, k - 1) + (if seen[k - 1] {
            0nat
        } else {
            1nat
        })
    }
}

proof fn lemma_unseen_update(seen: Seq<bool>, j: int, k: int)
    requires
        0 <= j < seen.len(),
        0 <= k <= seen.len(),
        !seen[j],
    ensures
        unseen(seen.update(j, true), k) == unseen(seen, k) - (if j < k {
            1int
        } else {
            0
        }),
    decreases k,
{
    if k > 0 {
        lemma_unseen_update(seen, j, k - 1);
    }
}

proof fn lemma_closed_holds_walk(
    succ: Seq<Vec<usize>>,
    e: usize,
    d: usize,
    seen: Seq<bool>,
    p: Seq<usize>,
    k: int,
)
    requires
        is_closed(succ),
        e < succ.len(),
        seen.len() == succ.len(),
        is_walk(succ, e, p),
        !p.contains(d),
        e != d ==> seen[e as int],
        forall|i: usize, j: usize|
            i < succ.len() && seen[i as int] && j != d && #[trigger] edge(succ, i, j) ==> j
                < succ.len() && seen[j as int],
        0 <= k < p.len(),
    ensures
        p[k] < succ.len(),
        seen[p[k] as int],
    decreases k,
{
    lemma_walk_stays(succ, e, p, k);
    assert(p.contains(p[k]));
    if k > 0 {
        lemma_closed_holds_walk(succ, e, d, seen, p, k - 1);
        assert(edge(succ, p[k - 1], p[k - 1 + 1]));
    } else {
        assert(p.contains(p[0]));
    }
}

/// Which nodes a path from `e` reaches that does not pass `d`.
pub fn reach_without(succ: &Vec<Vec<usize>>, e: usize, d: usize) -> (r: Vec<bool>)
    requires
        is_closed(succ@),
        e < succ@.len(),
    ensures
        r@.len() == succ@.len(),
        forall|b: usize|
            b < succ@.len() ==> #[trigger] r@[b as int] == reachable_without(succ@, e, b, d),
{
    let n: usize = succ.len();
    let mut seen: Vec<bool> = Vec::new();
    let mut k: usize = 0;
    while k < n
        invariant
            k <= n,
            seen@.len() == k,
            forall|i: int| 0 <= i < k ==> !(#[trigger] seen@[i]),
        decreases n - k,
    {
        seen.push(false);
        k += 1;
    }
    let mut work: Vec<usize> = Vec::new();
    if e != d {
        seen.set(e, true);
        work.push(e);
        proof {
            let p = seq![e];
            assert(walks_to(succ@, e, e, p));
            assert(!p.contains(d));
        }
    }
    while work.len() > 0
        invariant
            n == succ@.len(),
            seen@.len() == n,
            e < n,
            is_closed(succ@),
            e != d ==> seen@[e as int],
            forall|x: int|
                0 <= x < work@.len() ==> #[trigger] work@[x] < n && seen@[work@[x] as int],
            forall|b: usize|
                b < n && #[trigger] seen@[b as int] ==> reachable_without(succ@, e, b, d),
            forall|i: usize, j: usize|
                i < n && seen@[i as int] && !work@.contains(i) && j != d && #[trigger] edge(
                    succ@,
                    i,
                    j,
                ) ==> j < n && seen@[j as int],
        decreases unseen(seen@, n as int), work@.len(),
    {
        let ghost before_work = work@;
        let ghost before_seen = seen@;
        let a: usize = match work.pop() {
            Some(x) => x,
            None => 0,
        };
        let row: &Vec<usize> = &succ[a];
        proof {
            assert(a == before_work[before_work.len() - 1]);
            assert(work@ =~= before_work.drop_last());
        }
        let mut x: usize = 0;
        while x < row.len()
            invariant
                n == succ@.len(),
                seen@.len() == n,
                a < n,
                x <= row@.len(),
                row@ == succ@[a as int]@,
                is_closed(succ@),
                e != d ==> seen@[e as int],
                seen@[a as int],
                before_seen.len() == n,
                before_work.len() > 0,
                a == before_work[before_work.len() - 1],
                forall|y: int|
                    0 <= y < work@.len() ==> #[trigger] work@[y] < n && seen@[work@[y] as int],
                forall|b: usize|
                    b < n && #[trigger] seen@[b as int] ==> reachable_without(succ@, e, b, d),
                forall|b: int|
                    0 <= b < n && #[trigger] before_seen[b] ==> seen@[b],
                forall|b: usize|
                    b < n && #[trigger] seen@[b as int] ==> before_seen[b as int]
                        || work@.contains(b),
                forall|b: usize| #[trigger]
                    before_work.drop_last().contains(b) ==> work@.contains(b),
                forall|y: int|
                    0 <= y < x ==> #[trigger] row@[y] == d || seen@[row@[y] as int],
                unseen(seen@, n as int) <= unseen(before_seen, n as int),
                unseen(seen@, n as int) == unseen(before_seen, n as int) ==> work@.len()
                    == before_work.len() - 1,
            decreases row@.len() - x,
        {
            let b: usize = row[x];
            proof {
                assert(succ@[a as int]@[x as int] < succ@.len());
            }
            if b != d && !seen[b] {
                let ghost mid_work = work@;
                let ghost mid_seen = seen@;
                seen.set(b, true);
                work.push(b);
                proof {
                    lemma_unseen_update(mid_seen, b as int, n as int);
                    let p = choose|p: Seq<usize>| #[trigger]
                        walks_to(succ@, e, a, p) && !p.contains(d);
                    assert(edge(succ@, a, b));
                    lemma_extend(succ@, e, p, b);
                    let q = p.push(b);
                    assert(!q.contains(d)) by {
                        if q.contains(d) {
                            let z = choose|z: int| 0 <= z < q.len() && q[z] == d;
                            if z < p.len() {
                                assert(p[z] == d);
                            }
                        }
                    }
                    assert(reachable_without(succ@, e, b, d));
                    assert(work@[mid_work.len() as int] == b);
                    assert forall|c: usize| #[trigger] mid_work.contains(c) implies work@.contains(
                        c,
                    ) by {
                        let z = choose|z: int| 0 <= z < mid_work.len() && mid_work[z] == c;
                        assert(work@[z] == c);
                    }
                    assert forall|c: usize| c < n && #[trigger] seen@[c as int] implies
                        before_seen[c as int] || work@.contains(c) by {
                        if c != b {
                            assert(mid_seen[c as int]);
                        }
                    }
                    assert forall|c: usize| #[trigger]
                        before_work.drop_last().contains(c) implies work@.contains(c) by {
                        assert(mid_work.contains(c));
                    }
                }
            }
            x += 1;
        }
        proof {
            assert forall|i: usize, j: usize|
                i < n && seen@[i as int] && !work@.contains(i) && j != d && #[trigger] edge(
                    succ@,
                    i,
                    j,
                ) implies j < n && seen@[j as int] by {
                if i == a {
                    let y = choose|y: int| 0 <= y < row@.len() && row@[y] == j;
                    assert(row@[y] == d || seen@[row@[y] as int]);
                    assert(succ@[a as int]@[y] < succ@.len());
                } else {
                    assert(before_seen[i as int]);
                    if before_work.contains(i) {
                        let z = choose|z: int| 0 <= z < before_work.len() && before_work[z] == i;
                        assert(before_work.drop_last()[z] == i);
                        assert(before_work.drop_last().contains(i));
                    }
                    assert(before_seen[j as int]);
                }
            }
        }
    }
    proof {
        assert forall|b: usize|
            b < succ@.len() implies #[trigger] seen@[b as int] == reachable_without(
            succ@,
            e,
            b,
            d,
        ) by {
            if reachable_without(succ@, e, b, d) {
                let p = choose|p: Seq<usize>| #[trigger]
                    walks_to(succ@, e, b, p) && !p.contains(d);
                assert forall|i: usize, j: usize|
                    i < succ@.len() && seen@[i as int] && j != d && #[trigger] edge(
                        succ@,
                        i,
                        j,
                    ) implies j < succ@.len() && seen@[j as int] by {
                    assert(!work@.contains(i));
                }
                lemma_closed_holds_walk(succ@, e, d, seen@, p, p.len() - 1);
            }
        }
    }
    seen
}

proof fn lemma_reachable_is_without(succ: Seq<Vec<usize>>, e: usize, b: usize, d: usize)
    requires
        is_closed(succ),
        e < succ.len(),
        d >= succ.len(),
    ensures
        reachable_without(succ, e, b, d) == reachable(succ, e, b),
{
    if reachable(succ, e, b) {
        let p = choose|p: Seq<usize>| #[trigger] walks_to(succ, e, b, p);
        assert(!p.contains(d)) by {
            if p.contains(d) {
                let i = choose|i: int| 0 <= i < p.len() && p[i] == d;
                lemma_walk_stays(succ, e, p, i);
            }
        }
    }
}

proof fn lemma_dominates_is_cut(succ: Seq<Vec<usize>>, e: usize, d: usize, b: usize)
    ensures
        dominates(succ, e, d, b) == !reachable_without(succ, e, b, d),
{
    if !reachable_without(succ, e, b, d) {
        assert forall|p: Seq<usize>| #[trigger] walks_to(succ, e, b, p) implies p.contains(d) by {}
    }
}

// ── Counting ───────────────────────────────────────────────────────────────

/// For how many numbers below `k` does `f` hold.
pub open spec fn tally(f: spec_fn(int) -> bool, k: int) -> int
    decreases k,
{
    if k <= 0 {
        0
    } else {
        tally(f, k - 1) + (if f(k - 1) {
            1int
        } else {
            0
        })
    }
}

proof fn lemma_tally_bounds(f: spec_fn(int) -> bool, k: int)
    requires
        0 <= k,
    ensures
        0 <= tally(f, k) <= k,
    decreases k,
{
    if k > 0 {
        lemma_tally_bounds(f, k - 1);
    }
}

proof fn lemma_tally_le(f: spec_fn(int) -> bool, g: spec_fn(int) -> bool, k: int)
    requires
        forall|i: int| 0 <= i < k && #[trigger] f(i) ==> g(i),
    ensures
        tally(f, k) <= tally(g, k),
    decreases k,
{
    if k > 0 {
        lemma_tally_le(f, g, k - 1);
    }
}

proof fn lemma_tally_eq(f: spec_fn(int) -> bool, g: spec_fn(int) -> bool, k: int)
    requires
        forall|i: int| 0 <= i < k && #[trigger] f(i) ==> g(i),
        tally(f, k) == tally(g, k),
    ensures
        forall|i: int| 0 <= i < k && #[trigger] g(i) ==> f(i),
    decreases k,
{
    if k > 0 {
        lemma_tally_le(f, g, k - 1);
        lemma_tally_eq(f, g, k - 1);
    }
}

proof fn lemma_tally_but_one(f: spec_fn(int) -> bool, g: spec_fn(int) -> bool, x: int, k: int)
    requires
        forall|i: int| 0 <= i < k ==> #[trigger] g(i) == (f(i) && i != x),
        0 <= x ==> (x < k ==> f(x)),
        0 <= x,
    ensures
        tally(g, k) == tally(f, k) - (if x < k {
            1int
        } else {
            0
        }),
    decreases k,
{
    if k > 0 {
        assert(g(k - 1) == (f(k - 1) && k - 1 != x));
        lemma_tally_but_one(f, g, x, k - 1);
    }
}

/// Whether a number is a dominator of `b`.
pub open spec fn dominator_of(succ: Seq<Vec<usize>>, e: usize, b: usize) -> spec_fn(int) -> bool {
    |c: int| dominates(succ, e, c as usize, b)
}

/// The number of dominators of `b`.
pub open spec fn depth(succ: Seq<Vec<usize>>, e: usize, b: usize) -> int {
    tally(dominator_of(succ, e, b), succ.len() as int)
}

/// A strict dominator is the nearest exactly where it has one dominator fewer.
pub proof fn law_idom_is_one_above(succ: Seq<Vec<usize>>, e: usize, d: usize, b: usize)
    requires
        is_closed(succ),
        e < succ.len() <= usize::MAX,
        b < succ.len(),
        reachable(succ, e, b),
        strictly_dominates(succ, e, d, b),
    ensures
        is_idom(succ, e, d, b) <==> depth(succ, e, d) + 1 == depth(succ, e, b),
{
    let n = succ.len() as int;
    let f = dominator_of(succ, e, d);
    let h = dominator_of(succ, e, b);
    let g = |c: int| c != b && dominates(succ, e, c as usize, b);
    law_dominance_is_reflexive(succ, e, b);
    assert(h(b as int));
    assert forall|i: int| 0 <= i < n implies #[trigger] g(i) == (h(i) && i != b) by {}
    lemma_tally_but_one(h, g, b as int, n);
    assert forall|i: int| 0 <= i < n && #[trigger] f(i) implies g(i) by {
        law_dominance_is_transitive(succ, e, i as usize, d, b);
        if i == b {
            law_dominance_is_antisymmetric(succ, e, d, b);
        }
    }
    lemma_tally_le(f, g, n);
    if is_idom(succ, e, d, b) {
        assert forall|i: int| 0 <= i < n && #[trigger] g(i) implies f(i) by {
            assert(strictly_dominates(succ, e, i as usize, b));
        }
        lemma_tally_le(g, f, n);
    }
    if depth(succ, e, d) + 1 == depth(succ, e, b) {
        lemma_tally_eq(f, g, n);
        assert forall|c: usize| #[trigger] strictly_dominates(succ, e, c, b) implies dominates(
            succ,
            e,
            c,
            d,
        ) by {
            law_dominators_are_nodes(succ, e, c, b);
            assert(g(c as int));
            assert(f(c as int));
        }
    }
}

/// Whether `d` is the nearest dominator of a node that can be reached.
pub open spec fn child_of(succ: Seq<Vec<usize>>, e: usize, d: usize) -> spec_fn(int) -> bool {
    |b: int| b != e && reachable(succ, e, b as usize) && is_idom(succ, e, d, b as usize)
}

/// For how many nodes `d` is the nearest dominator.
pub open spec fn children(succ: Seq<Vec<usize>>, e: usize, d: usize) -> int {
    tally(child_of(succ, e, d), succ.len() as int)
}

/// Whether a number is a node that can be reached.
pub open spec fn live_node(succ: Seq<Vec<usize>>, e: usize) -> spec_fn(int) -> bool {
    |b: int| reachable(succ, e, b as usize)
}

/// The greatest number of nodes that share their nearest dominator; none below
/// three nodes that can be reached.
pub open spec fn is_widest(succ: Seq<Vec<usize>>, e: usize, w: int) -> bool {
    if tally(live_node(succ, e), succ.len() as int) < 3 {
        w == 0
    } else {
        &&& forall|d: usize| d < succ.len() ==> #[trigger] children(succ, e, d) <= w
        &&& exists|d: usize| d < succ.len() && #[trigger] children(succ, e, d) == w
    }
}

fn depths(succ: &Vec<Vec<usize>>, e: usize, live: &Vec<bool>) -> (r: Vec<usize>)
    requires
        is_closed(succ@),
        e < succ@.len(),
        live@.len() == succ@.len(),
        forall|b: usize|
            b < succ@.len() ==> #[trigger] live@[b as int] == reachable(succ@, e, b),
    ensures
        r@.len() == succ@.len(),
        forall|b: usize|
            b < succ@.len() && live@[b as int] ==> #[trigger] r@[b as int] == depth(succ@, e, b),
{
    let n: usize = succ.len();
    let mut out: Vec<usize> = Vec::new();
    let mut k: usize = 0;
    while k < n
        invariant
            k <= n,
            out@.len() == k,
            forall|i: int| 0 <= i < k ==> #[trigger] out@[i] == 0,
        decreases n - k,
    {
        out.push(0);
        k += 1;
    }
    let mut d: usize = 0;
    while d < n
        invariant
            d <= n,
            n == succ@.len(),
            e < n,
            is_closed(succ@),
            live@.len() == n,
            out@.len() == n,
            forall|b: usize| b < n ==> #[trigger] live@[b as int] == reachable(succ@, e, b),
            forall|b: usize|
                b < n && live@[b as int] ==> #[trigger] out@[b as int] == tally(
                    dominator_of(succ@, e, b),
                    d as int,
                ),
            forall|b: int| 0 <= b < n ==> #[trigger] out@[b] <= d,
        decreases n - d,
    {
        let cut: Vec<bool> = reach_without(succ, e, d);
        let ghost before = out@;
        let mut b: usize = 0;
        while b < n
            invariant
                d < n,
                b <= n,
                n == succ@.len(),
                live@.len() == n,
                out@.len() == n,
                before.len() == n,
                cut@.len() == n,
                forall|c: int| 0 <= c < n ==> #[trigger] before[c] <= d,
                forall|c: int|
                    0 <= c < n ==> #[trigger] out@[c] == before[c] + (if c < b && live@[c]
                        && !cut@[c] {
                        1int
                    } else {
                        0
                    }),
            decreases n - b,
        {
            if live[b] && !cut[b] {
                let now: usize = out[b];
                proof {
                    assert(before[b as int] <= d);
                }
                out.set(b, now + 1);
            }
            b += 1;
        }
        proof {
            assert forall|b: usize|
                b < n && live@[b as int] implies #[trigger] out@[b as int] == tally(
                dominator_of(succ@, e, b),
                d + 1,
            ) by {
                assert(before[b as int] == tally(dominator_of(succ@, e, b), d as int));
                lemma_dominates_is_cut(succ@, e, d, b);
                assert(cut@[b as int] == reachable_without(succ@, e, b, d));
            }
        }
        d += 1;
    }
    out
}

fn count_children(
    succ: &Vec<Vec<usize>>,
    e: usize,
    live: &Vec<bool>,
    deep: &Vec<usize>,
    d: usize,
) -> (r: usize)
    requires
        is_closed(succ@),
        e < succ@.len(),
        d < succ@.len(),
        live@.len() == succ@.len(),
        deep@.len() == succ@.len(),
        forall|b: usize|
            b < succ@.len() ==> #[trigger] live@[b as int] == reachable(succ@, e, b),
        forall|b: usize|
            b < succ@.len() && live@[b as int] ==> #[trigger] deep@[b as int] == depth(
                succ@,
                e,
                b,
            ),
    ensures
        r == children(succ@, e, d),
{
    let n: usize = succ.len();
    let cut: Vec<bool> = reach_without(succ, e, d);
    let ghost f = child_of(succ@, e, d);
    let mut count: usize = 0;
    let mut b: usize = 0;
    while b < n
        invariant
            b <= n,
            n == succ@.len(),
            e < n,
            d < n,
            is_closed(succ@),
            live@.len() == n,
            deep@.len() == n,
            cut@.len() == n,
            f == child_of(succ@, e, d),
            forall|c: usize| c < n ==> #[trigger] live@[c as int] == reachable(succ@, e, c),
            forall|c: usize|
                c < n && live@[c as int] ==> #[trigger] deep@[c as int] == depth(succ@, e, c),
            forall|c: usize|
                c < n ==> #[trigger] cut@[c as int] == reachable_without(succ@, e, c, d),
            count == tally(f, b as int),
            count <= b,
        decreases n - b,
    {
        proof {
            assert(live@[b as int] == reachable(succ@, e, b));
            assert(cut@[b as int] == reachable_without(succ@, e, b, d));
            lemma_dominates_is_cut(succ@, e, d, b);
            if live@[b as int] && strictly_dominates(succ@, e, d, b) {
                law_dominators_are_nodes(succ@, e, d, b);
                assert(live@[d as int]);
                assert(deep@[d as int] == depth(succ@, e, d));
                assert(deep@[b as int] == depth(succ@, e, b));
                law_idom_is_one_above(succ@, e, d, b);
                lemma_tally_bounds(dominator_of(succ@, e, d), n as int);
                lemma_tally_bounds(dominator_of(succ@, e, b), n as int);
            }
        }
        if b != e && b != d && live[b] && !cut[b] && deep[b] > 0 && deep[d] == deep[b] - 1 {
            count += 1;
        }
        b += 1;
    }
    count
}

/// The greatest number of nodes that share their nearest dominator; none below
/// three nodes that can be reached.
pub fn widest_dominator(succ: &Vec<Vec<usize>>, e: usize) -> (r: usize)
    requires
        is_closed(succ@),
        e < succ@.len(),
    ensures
        is_widest(succ@, e, r as int),
        r <= succ@.len(),
{
    let n: usize = succ.len();
    let live: Vec<bool> = reach_without(succ, e, n);
    proof {
        assert forall|b: usize| b < n implies #[trigger] live@[b as int] == reachable(
            succ@,
            e,
            b,
        ) by {
            lemma_reachable_is_without(succ@, e, b, n);
        }
    }
    let mut alive: usize = 0;
    let mut k: usize = 0;
    while k < n
        invariant
            k <= n,
            n == succ@.len(),
            live@.len() == n,
            forall|b: usize| b < n ==> #[trigger] live@[b as int] == reachable(succ@, e, b),
            alive == tally(live_node(succ@, e), k as int),
            alive <= k,
        decreases n - k,
    {
        proof {
            assert(live@[k as int] == reachable(succ@, e, k));
        }
        if live[k] {
            alive += 1;
        }
        k += 1;
    }
    if alive < 3 {
        return 0;
    }
    let deep: Vec<usize> = depths(succ, e, &live);
    let mut best: usize = count_children(succ, e, &live, &deep, 0);
    proof {
        lemma_tally_bounds(child_of(succ@, e, 0), n as int);
    }
    let mut d: usize = 1;
    while d < n
        invariant
            1 <= d <= n,
            n == succ@.len(),
            e < n,
            is_closed(succ@),
            live@.len() == n,
            deep@.len() == n,
            forall|b: usize| b < n ==> #[trigger] live@[b as int] == reachable(succ@, e, b),
            forall|b: usize|
                b < n && live@[b as int] ==> #[trigger] deep@[b as int] == depth(succ@, e, b),
            forall|c: usize| c < d ==> #[trigger] children(succ@, e, c) <= best,
            exists|c: usize| c < d && #[trigger] children(succ@, e, c) == best,
            best <= n,
        decreases n - d,
    {
        let here: usize = count_children(succ, e, &live, &deep, d);
        let ghost was = best;
        proof {
            lemma_tally_bounds(child_of(succ@, e, d), n as int);
        }
        if here > best {
            best = here;
        }
        proof {
            if best == was {
                let c = choose|c: usize| c < d && #[trigger] children(succ@, e, c) == was;
                assert(c < d + 1 && children(succ@, e, c) == best);
            } else {
                assert(children(succ@, e, d) == best);
            }
        }
        d += 1;
    }
    best
}

proof fn lemma_tally_is_len(f: spec_fn(int) -> bool, k: int)
    requires
        0 <= k,
    ensures
        Set::new(|i: int| 0 <= i < k && f(i)).finite(),
        tally(f, k) == Set::new(|i: int| 0 <= i < k && f(i)).len(),
    decreases k,
{
    let now = Set::new(|i: int| 0 <= i < k && f(i));
    if k == 0 {
        assert(now =~= Set::empty());
    } else {
        lemma_tally_is_len(f, k - 1);
        let before = Set::new(|i: int| 0 <= i < k - 1 && f(i));
        if f(k - 1) {
            assert(now =~= before.insert(k - 1));
        } else {
            assert(now =~= before);
        }
    }
}

/// The widest dominator has as many nodes for which it is the nearest as any has. It is
/// nothing where no three nodes can be reached.
pub proof fn law_widest_dominator(succ: Seq<Vec<usize>>, e: usize, w: int)
    requires
        is_closed(succ),
        e < succ.len() <= usize::MAX,
        is_widest(succ, e, w),
    ensures
        ({
            let n = succ.len() as int;
            let live = Set::new(|b: int| 0 <= b < n && reachable(succ, e, b as usize));
            let below = |d: usize|
                Set::new(
                    |b: int|
                        0 <= b < n && b != e && reachable(succ, e, b as usize) && is_idom(
                            succ,
                            e,
                            d,
                            b as usize,
                        ),
                );
            &&& live.len() < 3 ==> w == 0
            &&& live.len() >= 3 ==> forall|d: usize| d < n ==> (#[trigger] below(d)).len() <= w
            &&& live.len() >= 3 ==> exists|d: usize| d < n && (#[trigger] below(d)).len() == w
        }),
{
    let n = succ.len() as int;
    let live = Set::new(|b: int| 0 <= b < n && reachable(succ, e, b as usize));
    let below = |d: usize|
        Set::new(
            |b: int|
                0 <= b < n && b != e && reachable(succ, e, b as usize) && is_idom(
                    succ,
                    e,
                    d,
                    b as usize,
                ),
        );
    lemma_tally_is_len(live_node(succ, e), n);
    assert(live =~= Set::new(|i: int| 0 <= i < n && live_node(succ, e)(i)));
    assert forall|d: usize| d < n implies (#[trigger] below(d)).len() == children(succ, e, d) by {
        lemma_tally_is_len(child_of(succ, e, d), n);
        assert(below(d) =~= Set::new(|i: int| 0 <= i < n && child_of(succ, e, d)(i)));
    }
    if live.len() >= 3 {
        let d = choose|d: usize| d < succ.len() && #[trigger] children(succ, e, d) == w;
        assert(below(d).len() == w);
    }
}

} // verus!
