//! Function entries and the control-flow graphs of recovered functions.

use std::collections::{BTreeSet, HashMap};

use vstd::prelude::*;

use crate::addresses::{is_listing, lemma_listing_len, sorted_items};
use crate::dominators::{is_widest, widest_dominator};
use crate::superset::{law_kinds_are_groups, Instruction, Superset};

verus! {

broadcast use {
    vstd::std_specs::btree::group_btree_axioms,
    vstd::std_specs::hash::group_hash_axioms,
};

// ── Control flow inside a function ─────────────────────────────────────────

/// The first `k` entries of a table but for `a`.
pub open spec fn entries_but(table: Seq<u64>, a: u64, k: int) -> Seq<u64>
    decreases k,
{
    if k <= 0 {
        Seq::empty()
    } else if table[k - 1] != a {
        entries_but(table, a, k - 1).push(table[k - 1])
    } else {
        entries_but(table, a, k - 1)
    }
}

/// `a` alone, where it is a member.
pub open spec fn if_member(set: Set<u64>, a: u64) -> Seq<u64> {
    if set.contains(a) {
        seq![a]
    } else {
        Seq::empty()
    }
}

/// Where control goes from `a` without leaving the function: a call only
/// returns, and a jump without a static target goes through the table.
pub open spec fn flows(s: Superset, set: Set<u64>, table: Seq<u64>, a: u64) -> Seq<u64> {
    match s.spec_at(a as int) {
        None => Seq::empty(),
        Some(i) => {
            let on = if_member(set, i.spec_end(a as int) as u64);
            if i.spec_is_ret() {
                Seq::empty()
            } else if i.spec_is_call() || !i.spec_is_jump() {
                on
            } else {
                match i.branch_target {
                    Some(t) => if_member(set, t) + (if i.spec_is_plain_jmp() {
                        Seq::empty()
                    } else {
                        on
                    }),
                    None => entries_but(table, a, table.len() as int),
                }
            }
        },
    }
}

/// Whether control goes from `a` to `b`.
pub open spec fn flows_into(s: Superset, set: Set<u64>, table: Seq<u64>, a: u64, b: u64) -> bool {
    flows(s, set, table, a).contains(b)
}

/// Whether a jump without a static target stands at `a`.
pub open spec fn jumps_by_table(s: Superset, a: u64) -> bool {
    s.spec_at(a as int) matches Some(i) && !i.spec_is_ret() && !i.spec_is_call()
        && i.spec_is_jump() && i.branch_target is None
}

/// Where control goes from `a` without leaving the function.
fn successors(s: &Superset, set: &BTreeSet<u64>, table: &Vec<u64>, a: u64) -> (r: Vec<u64>)
    requires
        s.wf(),
    ensures
        r@ == flows(*s, set@, table@, a),
        r@.len() <= table@.len() + 2,
{
    let mut out: Vec<u64> = Vec::new();
    let i: &Instruction = match s.at(a) {
        Some(i) => i,
        None => {
            return out;
        },
    };
    proof {
        assert(s.valid(a - s.base_addr));
    }
    let next: u64 = a + i.size as u64;
    if i.is_ret() {
        return out;
    }
    if i.is_call() || !i.is_jump() {
        if set.contains(&next) {
            out.push(next);
        }
        proof {
            assert(out@ =~= flows(*s, set@, table@, a));
        }
        return out;
    }
    match i.branch_target {
        Some(t) => {
            if set.contains(&t) {
                out.push(t);
            }
            if !i.is_plain_jmp() && set.contains(&next) {
                out.push(next);
            }
            proof {
                assert(out@ =~= flows(*s, set@, table@, a));
            }
            out
        },
        None => {
            let mut k: usize = 0;
            while k < table.len()
                invariant
                    k <= table@.len(),
                    out@ == entries_but(table@, a, k as int),
                    out@.len() <= k,
                decreases table@.len() - k,
            {
                if table[k] != a {
                    out.push(table[k]);
                }
                k += 1;
            }
            out
        },
    }
}

// ── Function entries ───────────────────────────────────────────────────────

/// Whether control flows into `a` from a member.
pub open spec fn has_source(s: Superset, set: Set<u64>, table: Seq<u64>, a: u64) -> bool {
    exists|b: u64| set.contains(b) && #[trigger] flows_into(s, set, table, b, a)
}

/// Whether the instruction at `b` calls `a`.
pub open spec fn calls_to(s: Superset, b: u64, a: u64) -> bool {
    s.spec_at(b as int) matches Some(i) && i.spec_is_call() && i.branch_target == Some(a)
}

/// Whether a member calls `a`.
pub open spec fn is_called(s: Superset, set: Set<u64>, a: u64) -> bool {
    exists|b: u64| set.contains(b) && #[trigger] calls_to(s, b, a)
}

/// Whether a function begins at `a`: nothing flows into it, it is the entry of
/// the program, or something calls it.
pub open spec fn is_entry(
    s: Superset,
    recovered: Set<u64>,
    table: Seq<u64>,
    e_entry: u64,
    a: u64,
) -> bool {
    recovered.contains(a) && (a == e_entry || (!table.contains(a) && (!has_source(
        s,
        recovered,
        table,
        a,
    ) || is_called(s, recovered, a))))
}

/// The entries of a program in ascending order; the least address where there
/// are none.
pub open spec fn are_entries(
    r: Seq<u64>,
    s: Superset,
    recovered: Set<u64>,
    table: Seq<u64>,
    e_entry: u64,
) -> bool {
    let all = Set::new(|a: u64| is_entry(s, recovered, table, e_entry, a));
    if all == Set::<u64>::empty() {
        r.len() == 1 && recovered.contains(r[0]) && forall|x: u64| #[trigger]
            recovered.contains(x) ==> r[0] <= x
    } else {
        is_listing(r, all)
    }
}

fn set_of(items: &Vec<u64>) -> (r: BTreeSet<u64>)
    ensures
        forall|a: u64| #[trigger] r@.contains(a) <==> items@.contains(a),
{
    let mut out: BTreeSet<u64> = BTreeSet::new();
    let mut k: usize = 0;
    while k < items.len()
        invariant
            k <= items@.len(),
            forall|a: u64| #[trigger] out@.contains(a) <==> items@.take(k as int).contains(a),
        decreases items@.len() - k,
    {
        let ghost before = out@;
        out.insert(items[k]);
        proof {
            let x = items@[k as int];
            assert forall|a: u64| #[trigger] out@.contains(a) <==> items@.take(k + 1).contains(
                a,
            ) by {
                assert(before.contains(a) <==> items@.take(k as int).contains(a));
                lemma_take_push(items@, k as int, a);
            }
        }
        k += 1;
    }
    proof {
        assert(items@.take(k as int) =~= items@);
    }
    out
}

proof fn lemma_take_push(v: Seq<u64>, k: int, a: u64)
    requires
        0 <= k < v.len(),
    ensures
        v.take(k + 1).contains(a) <==> v.take(k).contains(a) || a == v[k],
{
    if v.take(k).contains(a) {
        let j = choose|j: int| 0 <= j < v.take(k).len() && v.take(k)[j] == a;
        assert(v.take(k + 1)[j] == a);
    }
    if a == v[k] {
        assert(v.take(k + 1)[k] == a);
    }
    if v.take(k + 1).contains(a) {
        let w = v.take(k + 1);
        let j = choose|j: int| 0 <= j < w.len() && w[j] == a;
        if j < k {
            assert(v.take(k)[j] == a);
        }
    }
}

/// Whether control flows into `a` from one of the first `k` members.
spec fn has_source_below(
    s: Superset,
    set: Set<u64>,
    table: Seq<u64>,
    items: Seq<u64>,
    k: int,
    a: u64,
) -> bool {
    exists|j: int| 0 <= j < k && #[trigger] flows_into(s, set, table, items[j], a)
}

/// All addresses that control flows into.
fn targets_of(s: &Superset, set: &BTreeSet<u64>, table: &Vec<u64>, items: &Vec<u64>) -> (r: BTreeSet<
    u64,
>)
    requires
        s.wf(),
        is_listing(items@, set@),
    ensures
        forall|a: u64| #[trigger] r@.contains(a) <==> has_source(*s, set@, table@, a),
{
    let mut out: BTreeSet<u64> = BTreeSet::new();
    let mut k: usize = 0;
    while k < items.len()
        invariant
            s.wf(),
            k <= items@.len(),
            forall|a: u64| #[trigger]
                out@.contains(a) <==> has_source_below(
                    *s,
                    set@,
                    table@,
                    items@,
                    k as int,
                    a,
                ),
        decreases items@.len() - k,
    {
        let next: Vec<u64> = successors(s, set, table, items[k]);
        let ghost before = out@;
        let mut j: usize = 0;
        while j < next.len()
            invariant
                j <= next@.len(),
                forall|a: u64| #[trigger]
                    out@.contains(a) <==> before.contains(a) || next@.take(j as int).contains(a),
            decreases next@.len() - j,
        {
            let ghost mid = out@;
            out.insert(next[j]);
            proof {
                assert forall|a: u64| #[trigger]
                    out@.contains(a) <==> before.contains(a) || next@.take(j + 1).contains(a) by {
                    assert(mid.contains(a) <==> before.contains(a) || next@.take(
                        j as int,
                    ).contains(a));
                    lemma_take_push(next@, j as int, a);
                }
            }
            j += 1;
        }
        proof {
            assert(next@.take(j as int) =~= next@);
            assert forall|a: u64| #[trigger] out@.contains(a) <==> has_source_below(
                *s,
                set@,
                table@,
                items@,
                k + 1,
                a,
            ) by {
                assert(before.contains(a) <==> has_source_below(
                    *s,
                    set@,
                    table@,
                    items@,
                    k as int,
                    a,
                ));
                if next@.contains(a) {
                    assert(flows_into(*s, set@, table@, items@[k as int], a));
                }
            }
        }
        k += 1;
    }
    proof {
        assert forall|a: u64| #[trigger] out@.contains(a) <==> has_source(
            *s,
            set@,
            table@,
            a,
        ) by {
            if has_source(*s, set@, table@, a) {
                let b = choose|b: u64|
                    set@.contains(b) && #[trigger] flows_into(*s, set@, table@, b, a);
                assert(items@.to_set().contains(b));
                let j = choose|j: int| 0 <= j < items@.len() && items@[j] == b;
                assert(flows_into(*s, set@, table@, items@[j], a));
            }
            if out@.contains(a) {
                let j = choose|j: int|
                    0 <= j < items@.len() && #[trigger] flows_into(
                        *s,
                        set@,
                        table@,
                        items@[j],
                        a,
                    );
                assert(items@.to_set().contains(items@[j]));
            }
        }
    }
    out
}

/// All addresses that are called.
fn callees_of(s: &Superset, Ghost(set): Ghost<Set<u64>>, items: &Vec<u64>) -> (r: BTreeSet<u64>)
    requires
        is_listing(items@, set),
    ensures
        forall|a: u64| #[trigger] r@.contains(a) <==> is_called(*s, set, a),
{
    let mut out: BTreeSet<u64> = BTreeSet::new();
    let mut k: usize = 0;
    while k < items.len()
        invariant
            k <= items@.len(),
            forall|a: u64| #[trigger]
                out@.contains(a) <==> exists|j: int|
                    0 <= j < k && #[trigger] calls_to(*s, items@[j], a),
        decreases items@.len() - k,
    {
        let ghost before = out@;
        if let Some(i) = s.at(items[k]) {
            if i.is_call() {
                if let Some(t) = i.branch_target {
                    out.insert(t);
                }
            }
        }
        proof {
            assert forall|a: u64| #[trigger] out@.contains(a) <==> exists|j: int|
                0 <= j < k + 1 && #[trigger] calls_to(*s, items@[j], a) by {
                assert(before.contains(a) <==> exists|j: int|
                    0 <= j < k && #[trigger] calls_to(*s, items@[j], a));
                assert(out@.contains(a) <==> before.contains(a) || calls_to(
                    *s,
                    items@[k as int],
                    a,
                ));
            }
        }
        k += 1;
    }
    proof {
        assert forall|a: u64| #[trigger] out@.contains(a) <==> is_called(*s, set, a) by {
            if is_called(*s, set, a) {
                let b = choose|b: u64| set.contains(b) && #[trigger] calls_to(*s, b, a);
                assert(items@.to_set().contains(b));
                let j = choose|j: int| 0 <= j < items@.len() && items@[j] == b;
                assert(calls_to(*s, items@[j], a));
            }
            if out@.contains(a) {
                let j = choose|j: int|
                    0 <= j < items@.len() && #[trigger] calls_to(*s, items@[j], a);
                assert(items@.to_set().contains(items@[j]));
            }
        }
    }
    out
}

/// The functions of a program: what nothing flows into, the entry of the
/// program, and what is called.
pub fn discover_entries(
    s: &Superset,
    recovered: &BTreeSet<u64>,
    table: &Vec<u64>,
    e_entry: u64,
) -> (r: Vec<u64>)
    requires
        s.wf(),
        recovered@ != Set::<u64>::empty(),
    ensures
        are_entries(r@, *s, recovered@, table@, e_entry),
{
    let items: Vec<u64> = sorted_items(recovered);
    let listed: BTreeSet<u64> = set_of(table);
    let targets: BTreeSet<u64> = targets_of(s, recovered, table, &items);
    let callees: BTreeSet<u64> = callees_of(s, Ghost(recovered@), &items);
    let ghost all = Set::new(|a: u64| is_entry(*s, recovered@, table@, e_entry, a));
    let mut out: Vec<u64> = Vec::new();
    let mut k: usize = 0;
    while k < items.len()
        invariant
            k <= items@.len(),
            is_listing(items@, recovered@),
            all == Set::new(|a: u64| is_entry(*s, recovered@, table@, e_entry, a)),
            forall|a: u64| #[trigger] listed@.contains(a) <==> table@.contains(a),
            forall|a: u64| #[trigger]
                targets@.contains(a) <==> has_source(*s, recovered@, table@, a),
            forall|a: u64| #[trigger] callees@.contains(a) <==> is_called(*s, recovered@, a),
            forall|i: int, j: int| 0 <= i < j < out@.len() ==> out@[i] < out@[j],
            forall|i: int|
                0 <= i < out@.len() ==> all.contains(#[trigger] out@[i]) && exists|j: int|
                    0 <= j < k && items@[j] == out@[i],
            forall|j: int|
                0 <= j < k && all.contains(#[trigger] items@[j]) ==> out@.contains(items@[j]),
        decreases items@.len() - k,
    {
        let a: u64 = items[k];
        let ghost before = out@;
        proof {
            assert(items@.to_set().contains(a));
        }
        if a == e_entry || (!listed.contains(&a) && (!targets.contains(&a) || callees.contains(
            &a,
        ))) {
            out.push(a);
            proof {
                assert forall|i: int, j: int| 0 <= i < j < out@.len() implies out@[i]
                    < out@[j] by {
                    if j == before.len() {
                        let q = choose|q: int| 0 <= q < k && items@[q] == before[i];
                        assert(items@[q] < items@[k as int]);
                    }
                }
                assert(out@[before.len() as int] == a);
                assert forall|j: int|
                    0 <= j < k + 1 && all.contains(#[trigger] items@[j]) implies out@.contains(
                    items@[j],
                ) by {
                    if j < k {
                        let q = choose|q: int| 0 <= q < before.len() && before[q] == items@[j];
                        assert(out@[q] == items@[j]);
                    }
                }
                assert forall|i: int| 0 <= i < out@.len() implies all.contains(
                    #[trigger] out@[i],
                ) && exists|j: int| 0 <= j < k + 1 && items@[j] == out@[i] by {
                    if i < before.len() {
                        assert(out@[i] == before[i]);
                    } else {
                        assert(items@[k as int] == out@[i]);
                    }
                }
            }
        } else {
            proof {
                assert(!all.contains(a));
            }
        }
        k += 1;
    }
    proof {
        assert forall|a: u64| #[trigger] all.contains(a) <==> out@.to_set().contains(a) by {
            if all.contains(a) {
                assert(recovered@.contains(a));
                assert(items@.to_set().contains(a));
                let j = choose|j: int| 0 <= j < items@.len() && items@[j] == a;
                assert(out@.contains(items@[j]));
            }
        }
        assert(all =~= out@.to_set());
    }
    if out.len() == 0 {
        proof {
            assert(all =~= Set::empty());
            assert(items@.to_set() =~= recovered@);
            if items@.len() == 0 {
                assert(recovered@ =~= Set::empty());
            }
        }
        out.push(items[0]);
        proof {
            assert(items@.to_set().contains(items@[0]));
            assert forall|x: u64| #[trigger] recovered@.contains(x) implies out@[0] <= x by {
                assert(items@.to_set().contains(x));
                let j = choose|j: int| 0 <= j < items@.len() && items@[j] == x;
                if j > 0 {
                    assert(items@[0] < items@[j]);
                }
            }
        }
    } else {
        proof {
            assert(all.contains(out@[0]));
        }
    }
    out
}

// ── Graphs of functions ────────────────────────────────────────────────────

/// The recovered instructions in `[lo, hi)`.
pub open spec fn in_span(recovered: Set<u64>, lo: u64, hi: u64) -> Set<u64> {
    Set::new(|a: u64| recovered.contains(a) && lo <= a < hi)
}

/// The first `k` entries of a table that lie in `[lo, hi)`.
pub open spec fn table_in(table: Seq<u64>, lo: u64, hi: u64, k: int) -> Seq<u64>
    decreases k,
{
    if k <= 0 {
        Seq::empty()
    } else if lo <= table[k - 1] < hi {
        table_in(table, lo, hi, k - 1).push(table[k - 1])
    } else {
        table_in(table, lo, hi, k - 1)
    }
}

/// Whether a jump or a return stands at `b`, and `a` is the address behind it.
pub open spec fn ends_before(s: Superset, b: u64, a: u64) -> bool {
    s.spec_at(b as int) matches Some(i) && (i.spec_is_ret() || i.spec_is_jump()) && i.spec_end(
        b as int,
    ) == a
}

/// Whether `a` follows a jump or a return.
pub open spec fn follows_end(s: Superset, set: Set<u64>, a: u64) -> bool {
    exists|b: u64| set.contains(b) && #[trigger] ends_before(s, b, a)
}

/// Whether `a` is the least member.
pub open spec fn is_least(set: Set<u64>, a: u64) -> bool {
    set.contains(a) && forall|x: u64| #[trigger] set.contains(x) ==> a <= x
}

/// Whether a block begins at `a`: at the beginning, wherever control flows, and
/// behind a jump or a return.
pub open spec fn is_leader(s: Superset, set: Set<u64>, table: Seq<u64>, a: u64) -> bool {
    set.contains(a) && (is_least(set, a) || has_source(s, set, table, a) || follows_end(s, set, a))
}

/// The blocks of a function.
pub open spec fn leaders(s: Superset, set: Set<u64>, table: Seq<u64>) -> Set<u64> {
    Set::new(|a: u64| is_leader(s, set, table, a))
}

/// How often `x` stands among the first `k` entries.
pub open spec fn count_of(v: Seq<u64>, x: u64, k: int) -> int
    decreases k,
{
    if k <= 0 {
        0
    } else {
        count_of(v, x, k - 1) + (if v[k - 1] == x {
            1int
        } else {
            0
        })
    }
}

/// How often control goes from `a` to the instruction behind it.
pub open spec fn falls(s: Superset, set: Set<u64>, table: Seq<u64>, a: u64) -> int {
    match s.spec_at(a as int) {
        None => 0,
        Some(i) => {
            let next = i.spec_end(a as int) as u64;
            let to = flows(s, set, table, a);
            if set.contains(next) {
                count_of(to, next, to.len() as int)
            } else {
                0
            }
        },
    }
}

/// How often control goes straight on from the first `k` blocks.
pub open spec fn all_falls(
    s: Superset,
    set: Set<u64>,
    table: Seq<u64>,
    blocks: Seq<u64>,
    k: int,
) -> int
    decreases k,
{
    if k <= 0 {
        0
    } else {
        all_falls(s, set, table, blocks, k - 1) + falls(s, set, table, blocks[k - 1])
    }
}

/// The number of edges from the first `k` blocks.
pub open spec fn edge_count(succ: Seq<Vec<usize>>, k: int) -> int
    decreases k,
{
    if k <= 0 {
        0
    } else {
        edge_count(succ, k - 1) + succ[k - 1]@.len()
    }
}

/// The control-flow graph of a function.
pub struct FunctionCfg {
    /// Where the blocks begin, in ascending order.
    pub blocks: Vec<u64>,
    /// The blocks that control goes to, by block.
    pub succ: Vec<Vec<usize>>,
    /// The blocks that control comes from, by block.
    pub pred: Vec<Vec<usize>>,
    /// The block at which the function begins.
    pub entry_block: usize,
    /// Whether a block ends with a jump through the table.
    pub indirect: Vec<bool>,
    /// How often control goes straight on.
    pub fallthrough_edges: u64,
    /// The number of edges.
    pub total_edges: u64,
}

impl FunctionCfg {
    /// Every edge leads from a block to a block, and stands once.
    pub open spec fn wf(self) -> bool {
        let n = self.blocks@.len();
        &&& self.entry_block < n
        &&& 2 * n <= u64::MAX
        &&& self.succ@.len() == n
        &&& self.pred@.len() == n
        &&& self.indirect@.len() == n
        &&& self.total_edges == edge_count(self.succ@, n as int)
        &&& forall|i: int, x: int| #![trigger self.succ@[i]@[x]]
            0 <= i < n && 0 <= x < self.succ@[i]@.len() ==> self.succ@[i]@[x] < n
        &&& forall|i: int|
            0 <= i < n ==> (#[trigger] self.succ@[i])@.no_duplicates()
        &&& forall|j: int|
            0 <= j < n ==> (#[trigger] self.pred@[j])@.no_duplicates()
        &&& forall|j: int, x: int| #![trigger self.pred@[j]@[x]]
            0 <= j < n && 0 <= x < self.pred@[j]@.len() ==> self.pred@[j]@[x] < n
        &&& forall|i: int, j: int|
            #![trigger self.succ@[i], self.pred@[j]]
            0 <= i < n && 0 <= j < n ==> (self.pred@[j]@.contains(i as usize)
                <==> self.succ@[i]@.contains(j as usize))
    }

    /// The graph of the instructions in `set`.
    pub open spec fn is_graph(self, s: Superset, set: Set<u64>, table: Seq<u64>) -> bool {
        let n = self.blocks@.len();
        &&& self.wf()
        &&& is_listing(self.blocks@, leaders(s, set, table))
        &&& self.entry_block == 0
        &&& forall|i: int, j: int|
            #![trigger self.succ@[i], self.blocks@[j]]
            0 <= i < n && 0 <= j < n ==> (self.succ@[i]@.contains(j as usize) <==> flows_into(
                s,
                set,
                table,
                self.blocks@[i],
                self.blocks@[j],
            ))
        &&& forall|i: int|
            0 <= i < n ==> #[trigger] self.indirect@[i] == jumps_by_table(s, self.blocks@[i])
        &&& self.fallthrough_edges == all_falls(s, set, table, self.blocks@, n as int)
    }
}

proof fn lemma_count_bound(v: Seq<u64>, x: u64, k: int)
    requires
        0 <= k,
    ensures
        0 <= count_of(v, x, k) <= k,
    decreases k,
{
    if k > 0 {
        lemma_count_bound(v, x, k - 1);
    }
}

fn has_number(v: &Vec<usize>, x: usize) -> (r: bool)
    ensures
        r == v@.contains(x),
{
    let mut k: usize = 0;
    while k < v.len()
        invariant
            k <= v@.len(),
            forall|j: int| 0 <= j < k ==> v@[j] != x,
        decreases v@.len() - k,
    {
        if v[k] == x {
            return true;
        }
        k += 1;
    }
    false
}

/// The edges of one block, and how often control goes straight on.
fn block_edges(
    s: &Superset,
    set: &BTreeSet<u64>,
    table: &Vec<u64>,
    blocks: &Vec<u64>,
    index: &HashMap<u64, usize>,
    a: u64,
) -> (r: (Vec<usize>, u64))
    requires
        s.wf(),
        set@.contains(a),
        is_listing(blocks@, leaders(*s, set@, table@)),
        forall|i: int| 0 <= i < blocks@.len() ==> index@.dom().contains(#[trigger] blocks@[i]),
        forall|x: u64| #[trigger]
            index@.dom().contains(x) ==> index@[x] < blocks@.len() && blocks@[index@[x] as int]
                == x,
        table@.len() + 2 <= u64::MAX,
    ensures
        r.0@.no_duplicates(),
        r.0@.len() <= table@.len() + 2,
        forall|x: int| 0 <= x < r.0@.len() ==> #[trigger] r.0@[x] < blocks@.len(),
        forall|j: int|
            0 <= j < blocks@.len() ==> (r.0@.contains(j as usize) <==> flows_into(
                *s,
                set@,
                table@,
                a,
                #[trigger] blocks@[j],
            )),
        r.1 == falls(*s, set@, table@, a),
        r.1 <= table@.len() + 2,
{
    let mut row: Vec<usize> = Vec::new();
    let mut straight: u64 = 0;
    let next: Option<u64> = match s.at(a) {
        Some(i) => {
            proof {
                assert(s.valid(a - s.base_addr));
            }
            Some(a + i.size as u64)
        },
        None => None,
    };
    let to: Vec<u64> = successors(s, set, table, a);
    let ghost fl = flows(*s, set@, table@, a);
    let mut k: usize = 0;
    while k < to.len()
        invariant
            k <= to@.len(),
            to@ == fl,
            fl == flows(*s, set@, table@, a),
            fl.len() <= table@.len() + 2 <= u64::MAX,
            set@.contains(a),
            is_listing(blocks@, leaders(*s, set@, table@)),
            forall|i: int| 0 <= i < blocks@.len() ==> index@.dom().contains(#[trigger] blocks@[i]),
            forall|x: u64| #[trigger]
                index@.dom().contains(x) ==> index@[x] < blocks@.len() && blocks@[index@[x] as int]
                    == x,
            match s.spec_at(a as int) {
                None => next is None && fl.len() == 0,
                Some(i) => next == Some(i.spec_end(a as int) as u64),
            },
            row@.no_duplicates(),
            row@.len() <= k,
            forall|x: int| 0 <= x < row@.len() ==> #[trigger] row@[x] < blocks@.len(),
            forall|j: int|
                0 <= j < blocks@.len() ==> (row@.contains(j as usize) <==> to@.take(
                    k as int,
                ).contains(#[trigger] blocks@[j])),
            straight == (match next {
                Some(x) => if set@.contains(x) {
                    count_of(fl, x, k as int)
                } else {
                    0
                },
                None => 0,
            }),
            straight <= k,
        decreases to@.len() - k,
    {
        let t: u64 = to[k];
        let ghost before = row@;
        proof {
            assert(fl.contains(t));
            assert(flows_into(*s, set@, table@, a, t));
            assert(has_source(*s, set@, table@, t));
            assert(leaders(*s, set@, table@).contains(t) <==> set@.contains(t));
            if set@.contains(t) {
                assert(blocks@.to_set().contains(t));
                let q = choose|q: int| 0 <= q < blocks@.len() && blocks@[q] == t;
                assert(index@.dom().contains(blocks@[q]));
            }
            if index@.dom().contains(t) {
                assert(blocks@.to_set().contains(blocks@[index@[t] as int]));
            }
        }
        if let Some(j) = index.get(&t) {
            let j: usize = *j;
            if !has_number(&row, j) {
                row.push(j);
            }
            if next == Some(t) {
                straight = straight + 1;
            }
        }
        proof {
            assert forall|j: int| 0 <= j < blocks@.len() implies (row@.contains(j as usize)
                <==> to@.take(k + 1).contains(#[trigger] blocks@[j])) by {
                lemma_take_push(to@, k as int, blocks@[j]);
                assert(before.contains(j as usize) <==> to@.take(k as int).contains(blocks@[j]));
                if index@.dom().contains(t) {
                    let q = index@[t] as int;
                    if blocks@[j] == t && j != q {
                        if j < q {
                            assert(blocks@[j] < blocks@[q]);
                        } else {
                            assert(blocks@[q] < blocks@[j]);
                        }
                    }
                    if before.contains(j as usize) {
                        let w = choose|w: int| 0 <= w < before.len() && before[w] == j as usize;
                        assert(row@[w] == j as usize);
                    }
                    if !before.contains(q as usize) {
                        assert(row@[before.len() as int] == q as usize);
                    }
                } else {
                    assert(blocks@[j] != t);
                }
            }
        }
        k += 1;
    }
    proof {
        assert(to@.take(k as int) =~= to@);
    }
    (row, straight)
}

/// The sources of every block.
fn reverse_edges(succ: &Vec<Vec<usize>>) -> (r: Vec<Vec<usize>>)
    requires
        forall|i: int, x: int| #![trigger succ@[i]@[x]]
            0 <= i < succ@.len() && 0 <= x < succ@[i]@.len() ==> succ@[i]@[x] < succ@.len(),
        forall|i: int| 0 <= i < succ@.len() ==> (#[trigger] succ@[i])@.no_duplicates(),
    ensures
        r@.len() == succ@.len(),
        forall|j: int| 0 <= j < r@.len() ==> (#[trigger] r@[j])@.no_duplicates(),
        forall|i: int, j: int|
            #![trigger succ@[i], r@[j]]
            0 <= i < succ@.len() && 0 <= j < r@.len() ==> (r@[j]@.contains(i as usize)
                <==> succ@[i]@.contains(j as usize)),
        forall|j: int, x: int| #![trigger r@[j]@[x]]
            0 <= j < r@.len() && 0 <= x < r@[j]@.len() ==> r@[j]@[x] < succ@.len(),
{
    let n: usize = succ.len();
    let mut pred: Vec<Vec<usize>> = Vec::new();
    let mut k: usize = 0;
    while k < n
        invariant
            k <= n,
            pred@.len() == k,
            forall|j: int| 0 <= j < k ==> (#[trigger] pred@[j])@.len() == 0,
        decreases n - k,
    {
        pred.push(Vec::new());
        k += 1;
    }
    let mut i: usize = 0;
    while i < n
        invariant
            i <= n,
            n == succ@.len(),
            pred@.len() == n,
            forall|i: int, x: int| #![trigger succ@[i]@[x]]
                0 <= i < succ@.len() && 0 <= x < succ@[i]@.len() ==> succ@[i]@[x] < succ@.len(),
            forall|i: int| 0 <= i < succ@.len() ==> (#[trigger] succ@[i])@.no_duplicates(),
            forall|j: int| 0 <= j < n ==> (#[trigger] pred@[j])@.no_duplicates(),
            forall|j: int, x: int| #![trigger pred@[j]@[x]]
                0 <= j < n && 0 <= x < pred@[j]@.len() ==> pred@[j]@[x] < i,
            forall|h: int, j: int|
                #![trigger succ@[h], pred@[j]]
                0 <= h < i && 0 <= j < n ==> (pred@[j]@.contains(h as usize)
                    <==> succ@[h]@.contains(j as usize)),
        decreases n - i,
    {
        let row: &Vec<usize> = &succ[i];
        let ghost start = pred@;
        let mut x: usize = 0;
        while x < row.len()
            invariant
                i < n,
                n == succ@.len(),
                pred@.len() == n,
                start.len() == n,
                row@ == succ@[i as int]@,
                x <= row@.len(),
                row@.no_duplicates(),
                forall|y: int| 0 <= y < row@.len() ==> #[trigger] row@[y] < n,
                forall|j: int, y: int| #![trigger start[j]@[y]]
                    0 <= j < n && 0 <= y < start[j]@.len() ==> start[j]@[y] < i,
                forall|j: int| 0 <= j < n ==> (#[trigger] start[j])@.no_duplicates(),
                forall|j: int|
                    0 <= j < n ==> (#[trigger] pred@[j])@ == (if row@.take(x as int).contains(
                        j as usize,
                    ) {
                        start[j]@.push(i)
                    } else {
                        start[j]@
                    }),
            decreases row@.len() - x,
        {
            let j: usize = row[x];
            let ghost before = pred@;
            pred[j].push(i);
            proof {
                assert(!row@.take(x as int).contains(j)) by {
                    if row@.take(x as int).contains(j) {
                        let y = choose|y: int|
                            0 <= y < row@.take(x as int).len() && row@.take(x as int)[y] == j;
                        assert(row@[y] == row@[x as int]);
                    }
                }
                assert forall|q: int| 0 <= q < n implies (#[trigger] pred@[q])@ == (
                if row@.take(x + 1).contains(q as usize) {
                    start[q]@.push(i)
                } else {
                    start[q]@
                }) by {
                    lemma_take_push_number(row@, x as int, q as usize);
                    if q == j {
                        assert(before[q]@ == start[q]@);
                        assert(pred@[q]@ == before[q]@.push(i));
                    } else {
                        assert(pred@[q] == before[q]);
                    }
                }
            }
            x += 1;
        }
        proof {
            assert(row@.take(x as int) =~= row@);
            assert forall|j: int| 0 <= j < n implies (#[trigger] pred@[j])@.no_duplicates() by {
                assert(start[j]@.no_duplicates());
                assert forall|y: int| 0 <= y < start[j]@.len() implies start[j]@[y] != i by {
                    assert(start[j]@[y] < i);
                }
            }
            assert forall|j: int, y: int| #![trigger pred@[j]@[y]]
                0 <= j < n && 0 <= y < pred@[j]@.len() implies pred@[j]@[y] < i + 1 by {
                if y < start[j]@.len() {
                    assert(pred@[j]@[y] == start[j]@[y]);
                    assert(start[j]@[y] < i);
                }
            }
            assert forall|h: int, j: int|
                #![trigger succ@[h], pred@[j]]
                0 <= h < i + 1 && 0 <= j < n implies (pred@[j]@.contains(h as usize)
                <==> succ@[h]@.contains(j as usize)) by {
                if h < i {
                    assert(start[j]@.contains(h as usize) <==> succ@[h]@.contains(j as usize));
                    if start[j]@.contains(h as usize) {
                        let y = choose|y: int|
                            0 <= y < start[j]@.len() && start[j]@[y] == h as usize;
                        assert(pred@[j]@[y] == h as usize);
                    }
                    if pred@[j]@.contains(h as usize) {
                        let y = choose|y: int|
                            0 <= y < pred@[j]@.len() && pred@[j]@[y] == h as usize;
                        assert(start[j]@[y] == h as usize);
                    }
                } else {
                    assert(!start[j]@.contains(i)) by {
                        if start[j]@.contains(i) {
                            let y = choose|y: int| 0 <= y < start[j]@.len() && start[j]@[y] == i;
                            assert(start[j]@[y] < i);
                        }
                    }
                    if succ@[h]@.contains(j as usize) {
                        assert(pred@[j]@ == start[j]@.push(i));
                        assert(pred@[j]@[start[j]@.len() as int] == i);
                    }
                }
            }
        }
        i += 1;
    }
    pred
}

proof fn lemma_take_push_number(v: Seq<usize>, k: int, a: usize)
    requires
        0 <= k < v.len(),
    ensures
        v.take(k + 1).contains(a) <==> v.take(k).contains(a) || a == v[k],
{
    if v.take(k).contains(a) {
        let j = choose|j: int| 0 <= j < v.take(k).len() && v.take(k)[j] == a;
        assert(v.take(k + 1)[j] == a);
    }
    if a == v[k] {
        assert(v.take(k + 1)[k] == a);
    }
    if v.take(k + 1).contains(a) {
        let w = v.take(k + 1);
        let j = choose|j: int| 0 <= j < w.len() && w[j] == a;
        if j < k {
            assert(v.take(k)[j] == a);
        }
    }
}

/// The addresses behind jumps and returns.
fn ends_of(s: &Superset, Ghost(set): Ghost<Set<u64>>, items: &Vec<u64>) -> (r: BTreeSet<u64>)
    requires
        s.wf(),
        is_listing(items@, set),
    ensures
        forall|a: u64| #[trigger] r@.contains(a) <==> follows_end(*s, set, a),
{
    let mut out: BTreeSet<u64> = BTreeSet::new();
    let mut k: usize = 0;
    while k < items.len()
        invariant
            s.wf(),
            k <= items@.len(),
            forall|a: u64| #[trigger]
                out@.contains(a) <==> exists|j: int|
                    0 <= j < k && #[trigger] ends_before(*s, items@[j], a),
        decreases items@.len() - k,
    {
        let ghost before = out@;
        let a: u64 = items[k];
        if let Some(i) = s.at(a) {
            proof {
                assert(s.valid(a - s.base_addr));
            }
            if i.is_ret() || i.is_jump() {
                out.insert(a + i.size as u64);
            }
        }
        proof {
            assert forall|x: u64| #[trigger] out@.contains(x) <==> exists|j: int|
                0 <= j < k + 1 && #[trigger] ends_before(*s, items@[j], x) by {
                assert(before.contains(x) <==> exists|j: int|
                    0 <= j < k && #[trigger] ends_before(*s, items@[j], x));
                assert(out@.contains(x) <==> before.contains(x) || ends_before(
                    *s,
                    items@[k as int],
                    x,
                ));
            }
        }
        k += 1;
    }
    proof {
        assert forall|a: u64| #[trigger] out@.contains(a) <==> follows_end(*s, set, a) by {
            if follows_end(*s, set, a) {
                let b = choose|b: u64| set.contains(b) && #[trigger] ends_before(*s, b, a);
                assert(items@.to_set().contains(b));
                let j = choose|j: int| 0 <= j < items@.len() && items@[j] == b;
                assert(ends_before(*s, items@[j], a));
            }
            if out@.contains(a) {
                let j = choose|j: int|
                    0 <= j < items@.len() && #[trigger] ends_before(*s, items@[j], a);
                assert(items@.to_set().contains(items@[j]));
            }
        }
    }
    out
}

/// The members of `[lo, hi)` in ascending order.
fn items_in(items: &Vec<u64>, lo: u64, hi: u64, Ghost(all): Ghost<Set<u64>>) -> (r: Vec<u64>)
    requires
        is_listing(items@, all),
    ensures
        is_listing(r@, in_span(all, lo, hi)),
        r@.len() <= items@.len(),
{
    let ghost want = in_span(all, lo, hi);
    let mut out: Vec<u64> = Vec::new();
    let mut k: usize = 0;
    while k < items.len()
        invariant
            k <= items@.len(),
            is_listing(items@, all),
            want == in_span(all, lo, hi),
            out@.len() <= k,
            forall|i: int, j: int| 0 <= i < j < out@.len() ==> out@[i] < out@[j],
            forall|i: int|
                0 <= i < out@.len() ==> lo <= #[trigger] out@[i] < hi && items@.take(
                    k as int,
                ).contains(out@[i]),
            forall|j: int|
                0 <= j < k && lo <= #[trigger] items@[j] < hi ==> out@.contains(items@[j]),
        decreases items@.len() - k,
    {
        let a: u64 = items[k];
        let ghost before = out@;
        if lo <= a && a < hi {
            out.push(a);
            proof {
                assert(out@[before.len() as int] == a);
            }
        }
        proof {
            assert forall|i: int| 0 <= i < out@.len() implies lo <= #[trigger] out@[i] < hi
                && items@.take(k + 1).contains(out@[i]) by {
                lemma_take_push(items@, k as int, out@[i]);
                if i < before.len() {
                    assert(out@[i] == before[i]);
                }
            }
            assert forall|i: int, j: int| 0 <= i < j < out@.len() implies out@[i] < out@[j] by {
                if j == before.len() {
                    assert(items@.take(k as int).contains(before[i]));
                    let q = choose|q: int|
                        0 <= q < items@.take(k as int).len() && items@.take(k as int)[q]
                            == before[i];
                    assert(items@[q] < items@[k as int]);
                }
            }
            assert forall|j: int| 0 <= j < k + 1 && lo <= #[trigger] items@[j] < hi implies
                out@.contains(items@[j]) by {
                if j < k {
                    assert(before.contains(items@[j]));
                    let q = choose|q: int| 0 <= q < before.len() && before[q] == items@[j];
                    assert(out@[q] == items@[j]);
                }
            }
        }
        k += 1;
    }
    proof {
        assert(items@.take(k as int) =~= items@);
        assert forall|a: u64| #[trigger] out@.to_set().contains(a) <==> want.contains(a) by {
            if out@.contains(a) {
                let i = choose|i: int| 0 <= i < out@.len() && out@[i] == a;
                assert(items@.contains(out@[i]));
                assert(items@.to_set().contains(a));
            }
            if want.contains(a) {
                assert(items@.to_set().contains(a));
                let j = choose|j: int| 0 <= j < items@.len() && items@[j] == a;
                assert(out@.contains(items@[j]));
            }
        }
        assert(out@.to_set() =~= want);
    }
    out
}

fn table_between(table: &Vec<u64>, lo: u64, hi: u64) -> (r: Vec<u64>)
    ensures
        r@ == table_in(table@, lo, hi, table@.len() as int),
        r@.len() <= table@.len(),
{
    let mut out: Vec<u64> = Vec::new();
    let mut k: usize = 0;
    while k < table.len()
        invariant
            k <= table@.len(),
            out@ == table_in(table@, lo, hi, k as int),
            out@.len() <= k,
        decreases table@.len() - k,
    {
        if lo <= table[k] && table[k] < hi {
            out.push(table[k]);
        }
        k += 1;
    }
    out
}

/// The blocks of a function in ascending order.
fn find_blocks(s: &Superset, set: &BTreeSet<u64>, table: &Vec<u64>, items: &Vec<u64>) -> (r: Vec<
    u64,
>)
    requires
        s.wf(),
        is_listing(items@, set@),
    ensures
        is_listing(r@, leaders(*s, set@, table@)),
        r@.len() <= items@.len(),
        items@.len() > 0 ==> r@.len() > 0 && r@[0] == items@[0],
{
    let targets: BTreeSet<u64> = targets_of(s, set, table, items);
    let ends: BTreeSet<u64> = ends_of(s, Ghost(set@), items);
    let ghost want = leaders(*s, set@, table@);
    let mut out: Vec<u64> = Vec::new();
    let mut k: usize = 0;
    while k < items.len()
        invariant
            k <= items@.len(),
            is_listing(items@, set@),
            want == leaders(*s, set@, table@),
            forall|a: u64| #[trigger] targets@.contains(a) <==> has_source(*s, set@, table@, a),
            forall|a: u64| #[trigger] ends@.contains(a) <==> follows_end(*s, set@, a),
            out@.len() <= k,
            k > 0 ==> out@.len() > 0 && out@[0] == items@[0],
            forall|i: int, j: int| 0 <= i < j < out@.len() ==> out@[i] < out@[j],
            forall|i: int|
                0 <= i < out@.len() ==> want.contains(#[trigger] out@[i]) && items@.take(
                    k as int,
                ).contains(out@[i]),
            forall|j: int|
                0 <= j < k && want.contains(#[trigger] items@[j]) ==> out@.contains(items@[j]),
        decreases items@.len() - k,
    {
        let a: u64 = items[k];
        let ghost before = out@;
        proof {
            assert(items@.to_set().contains(a));
            assert(is_least(set@, a) <==> k == 0) by {
                if k == 0 {
                    assert forall|x: u64| #[trigger] set@.contains(x) implies a <= x by {
                        assert(items@.to_set().contains(x));
                        let j = choose|j: int| 0 <= j < items@.len() && items@[j] == x;
                        if j > 0 {
                            assert(items@[0] < items@[j]);
                        }
                    }
                } else {
                    assert(items@[0] < items@[k as int]);
                    assert(items@.to_set().contains(items@[0]));
                }
            }
        }
        if k == 0 || targets.contains(&a) || ends.contains(&a) {
            out.push(a);
            proof {
                assert(out@[before.len() as int] == a);
            }
        } else {
            proof {
                assert(!want.contains(a));
            }
        }
        proof {
            assert forall|i: int| 0 <= i < out@.len() implies want.contains(#[trigger] out@[i])
                && items@.take(k + 1).contains(out@[i]) by {
                lemma_take_push(items@, k as int, out@[i]);
                if i < before.len() {
                    assert(out@[i] == before[i]);
                }
            }
            assert forall|i: int, j: int| 0 <= i < j < out@.len() implies out@[i] < out@[j] by {
                if j == before.len() {
                    assert(items@.take(k as int).contains(before[i]));
                    let q = choose|q: int|
                        0 <= q < items@.take(k as int).len() && items@.take(k as int)[q]
                            == before[i];
                    assert(items@[q] < items@[k as int]);
                }
            }
            assert forall|j: int| 0 <= j < k + 1 && want.contains(#[trigger] items@[j]) implies
                out@.contains(items@[j]) by {
                if j < k {
                    assert(before.contains(items@[j]));
                    let q = choose|q: int| 0 <= q < before.len() && before[q] == items@[j];
                    assert(out@[q] == items@[j]);
                }
            }
        }
        k += 1;
    }
    proof {
        assert forall|a: u64| #[trigger] out@.to_set().contains(a) <==> want.contains(a) by {
            if want.contains(a) {
                assert(set@.contains(a));
                assert(items@.to_set().contains(a));
                let j = choose|j: int| 0 <= j < items@.len() && items@[j] == a;
                assert(out@.contains(items@[j]));
            }
        }
        assert(out@.to_set() =~= want);
    }
    out
}

fn block_index(blocks: &Vec<u64>) -> (r: HashMap<u64, usize>)
    ensures
        forall|i: int| 0 <= i < blocks@.len() ==> r@.dom().contains(#[trigger] blocks@[i]),
        forall|x: u64| #[trigger]
            r@.dom().contains(x) ==> r@[x] < blocks@.len() && blocks@[r@[x] as int] == x,
{
    let mut map: HashMap<u64, usize> = HashMap::new();
    let mut k: usize = 0;
    while k < blocks.len()
        invariant
            k <= blocks@.len(),
            forall|i: int| 0 <= i < k ==> map@.dom().contains(#[trigger] blocks@[i]),
            forall|x: u64| #[trigger]
                map@.dom().contains(x) ==> map@[x] < blocks@.len() && blocks@[map@[x] as int] == x,
        decreases blocks@.len() - k,
    {
        map.insert(blocks[k], k);
        k += 1;
    }
    map
}

proof fn lemma_edge_count_push(succ: Seq<Vec<usize>>, row: Vec<usize>, k: int)
    requires
        0 <= k <= succ.len(),
    ensures
        edge_count(succ.push(row), k) == edge_count(succ, k),
    decreases k,
{
    if k > 0 {
        lemma_edge_count_push(succ, row, k - 1);
    }
}

/// The graph of the function in `[lo, hi)`; nothing where it has fewer than two
/// instructions or blocks. Control that goes straight on always enters a new
/// block.
pub fn build_function_cfg(
    s: &Superset,
    recovered: &BTreeSet<u64>,
    lo: u64,
    hi: u64,
    table: &Vec<u64>,
) -> (r: Option<FunctionCfg>)
    requires
        s.wf(),
        recovered@.len() * (table@.len() + 2) <= u64::MAX,
    ensures
        ({
            let set = in_span(recovered@, lo, hi);
            let here = table_in(table@, lo, hi, table@.len() as int);
            match r {
                Some(g) => set.len() >= 2 && g.blocks@.len() >= 2 && g.is_graph(*s, set, here),
                None => set.len() < 2 || leaders(*s, set, here).len() < 2,
            }
        }),
{
    let all: Vec<u64> = sorted_items(recovered);
    let items: Vec<u64> = items_in(&all, lo, hi, Ghost(recovered@));
    let here: Vec<u64> = table_between(table, lo, hi);
    let ghost set = in_span(recovered@, lo, hi);
    proof {
        lemma_listing_len(all@, recovered@);
        lemma_listing_len(items@, set);
    }
    if items.len() < 2 {
        return None;
    }
    let members: BTreeSet<u64> = set_of(&items);
    proof {
        assert forall|a: u64| #[trigger] members@.contains(a) <==> set.contains(a) by {
            assert(items@.to_set().contains(a) <==> items@.contains(a));
        }
        assert(members@ =~= set);
    }
    let blocks: Vec<u64> = find_blocks(s, &members, &here, &items);
    proof {
        lemma_listing_len(blocks@, leaders(*s, set, here@));
    }
    if blocks.len() < 2 {
        return None;
    }
    let index: HashMap<u64, usize> = block_index(&blocks);
    let n: usize = blocks.len();
    let ghost width = table@.len() + 2;
    let ghost total = recovered@.len();
    proof {
        assert(width <= total * width) by (nonlinear_arith)
            requires
                total >= 1,
                width >= 0,
        ;
    }
    let mut succ: Vec<Vec<usize>> = Vec::new();
    let mut indirect: Vec<bool> = Vec::new();
    let mut straight: u64 = 0;
    let mut edges: u64 = 0;
    let mut k: usize = 0;
    while k < n
        invariant
            s.wf(),
            k <= n,
            n == blocks@.len(),
            n <= total,
            width == table@.len() + 2,
            here@.len() <= table@.len(),
            width <= total * width <= u64::MAX,
            members@ == set,
            is_listing(blocks@, leaders(*s, set, here@)),
            forall|i: int| 0 <= i < blocks@.len() ==> index@.dom().contains(#[trigger] blocks@[i]),
            forall|x: u64| #[trigger]
                index@.dom().contains(x) ==> index@[x] < blocks@.len() && blocks@[index@[x] as int]
                    == x,
            succ@.len() == k,
            indirect@.len() == k,
            edges == edge_count(succ@, k as int),
            straight == all_falls(*s, set, here@, blocks@, k as int),
            straight <= k * width,
            edges <= k * width,
            forall|i: int| 0 <= i < k ==> (#[trigger] succ@[i])@.no_duplicates(),
            forall|i: int, x: int| #![trigger succ@[i]@[x]]
                0 <= i < k && 0 <= x < succ@[i]@.len() ==> succ@[i]@[x] < n,
            forall|i: int, j: int|
                #![trigger succ@[i], blocks@[j]]
                0 <= i < k && 0 <= j < n ==> (succ@[i]@.contains(j as usize) <==> flows_into(
                    *s,
                    set,
                    here@,
                    blocks@[i],
                    blocks@[j],
                )),
            forall|i: int|
                0 <= i < k ==> #[trigger] indirect@[i] == jumps_by_table(*s, blocks@[i]),
        decreases n - k,
    {
        let a: u64 = blocks[k];
        proof {
            assert(blocks@.to_set().contains(a));
            assert(leaders(*s, set, here@).contains(a));
            assert((k + 1) * width <= total * width && (k + 1) * width == k * width + width)
                by (nonlinear_arith)
                requires
                    k + 1 <= total,
                    width >= 0,
            ;
        }
        let (row, falls_here): (Vec<usize>, u64) = block_edges(
            s,
            &members,
            &here,
            &blocks,
            &index,
            a,
        );
        let by_table: bool = match s.at(a) {
            Some(i) => !i.is_ret() && !i.is_call() && i.is_jump() && i.branch_target.is_none(),
            None => false,
        };
        straight = straight + falls_here;
        edges = edges + row.len() as u64;
        proof {
            lemma_edge_count_push(succ@, row, k as int);
        }
        let ghost before = succ@;
        succ.push(row);
        indirect.push(by_table);
        proof {
            assert forall|i: int, j: int|
                #![trigger succ@[i], blocks@[j]]
                0 <= i < k + 1 && 0 <= j < n implies (succ@[i]@.contains(j as usize)
                <==> flows_into(*s, set, here@, blocks@[i], blocks@[j])) by {
                if i < k {
                    assert(succ@[i] == before[i]);
                }
            }
            assert forall|i: int, x: int| #![trigger succ@[i]@[x]]
                0 <= i < k + 1 && 0 <= x < succ@[i]@.len() implies succ@[i]@[x] < n by {
                if i < k {
                    assert(succ@[i] == before[i]);
                    assert(before[i]@[x] < n);
                }
            }
        }
        k += 1;
    }
    let pred: Vec<Vec<usize>> = reverse_edges(&succ);
    proof {
        assert(2 * n <= total * width) by (nonlinear_arith)
            requires
                n <= total,
                width >= 2,
        ;
    }
    Some(
        FunctionCfg {
            blocks,
            succ,
            pred,
            entry_block: 0,
            indirect,
            fallthrough_edges: straight,
            total_edges: edges,
        },
    )
}

/// Every instruction of the function that control reaches from another begins a
/// block.
pub proof fn law_targets_begin_blocks(s: Superset, set: Set<u64>, table: Seq<u64>, a: u64, b: u64)
    requires
        set.contains(a),
        set.contains(b),
        flows_into(s, set, table, a, b),
    ensures
        leaders(s, set, table).contains(b),
{
    assert(has_source(s, set, table, b));
}

// ── Shape of a graph ───────────────────────────────────────────────────────

/// A fraction.
#[derive(Debug, Clone, Copy, PartialEq, Eq, Structural)]
pub struct Ratio {
    /// Numerator.
    pub num: u64,
    /// Denominator.
    pub den: u64,
}

impl Ratio {
    /// Whether the fraction is at least as great as another.
    pub open spec fn at_least(self, other: Ratio) -> bool {
        self.num * other.den >= other.num * self.den
    }

    /// The greater of two fractions, the first where they are equal.
    pub open spec fn spec_greater(self, other: Ratio) -> Ratio {
        if self.at_least(other) {
            self
        } else {
            other
        }
    }

    /// The greater of two fractions, the first where they are equal.
    pub fn greater(self, other: Ratio) -> (r: Ratio)
        ensures
            r == self.spec_greater(other),
    {
        proof {
            assert(self.num * other.den <= u64::MAX * u64::MAX) by (nonlinear_arith)
                requires
                    self.num <= u64::MAX,
                    other.den <= u64::MAX,
            ;
            assert(other.num * self.den <= u64::MAX * u64::MAX) by (nonlinear_arith)
                requires
                    other.num <= u64::MAX,
                    self.den <= u64::MAX,
            ;
        }
        if self.num as u128 * other.den as u128 >= other.num as u128 * self.den as u128 {
            self
        } else {
            other
        }
    }
}

/// What the shape of the control flow shows.
#[derive(Debug, Clone, Copy, PartialEq, Eq, Structural)]
pub struct Metrics {
    /// Number of functions.
    pub n_funcs: usize,
    /// Blocks of the largest function.
    pub max_blocks: usize,
    /// Share of all edges that touch the busiest block.
    pub dispatcher: Ratio,
    /// Share of all blocks that have the same nearest dominator.
    pub dom_collapse: Ratio,
    /// Share of all edges that touch the busiest block with a jump through the
    /// table.
    pub indirect: Ratio,
    /// Share of all edges that do not go straight on.
    pub struct_absence: Ratio,
}

/// Functions below that many blocks do not count.
pub const MIN_BLOCKS: usize = 8;

impl FunctionCfg {
    /// The number of edges at block `i`.
    pub open spec fn degree(self, i: int) -> int {
        (self.succ@[i]@.len() + self.pred@[i]@.len()) as int
    }

    /// The greatest number of edges at one of the first `k` blocks, or at those
    /// with a jump through the table.
    pub open spec fn busiest(self, by_table: bool, k: int) -> int
        decreases k,
    {
        if k <= 0 {
            0
        } else {
            let before = self.busiest(by_table, k - 1);
            if (!by_table || self.indirect@[k - 1]) && self.degree(k - 1) > before {
                self.degree(k - 1)
            } else {
                before
            }
        }
    }

    /// The number of edges, but at least one.
    pub open spec fn edges(self) -> int {
        if self.total_edges == 0 {
            1
        } else {
            self.total_edges as int
        }
    }

    /// The number of edges that do not go straight on.
    pub open spec fn bent(self) -> int {
        if self.fallthrough_edges > self.edges() {
            0
        } else {
            self.edges() - self.fallthrough_edges
        }
    }

    /// Whether `m` measures the graph.
    pub open spec fn is_measured(self, m: Metrics) -> bool {
        let n = self.blocks@.len() as int;
        &&& m.n_funcs == 0
        &&& m.max_blocks == n
        &&& m.dispatcher.num == self.busiest(false, n)
        &&& m.dispatcher.den == self.edges()
        &&& is_widest(self.succ@, self.entry_block, m.dom_collapse.num as int)
        &&& m.dom_collapse.den == n
        &&& m.indirect.num == self.busiest(true, n)
        &&& m.indirect.den == self.edges()
        &&& m.struct_absence.num == self.bent()
        &&& m.struct_absence.den == self.edges()
    }

    fn max_degree(&self, by_table: bool) -> (r: u64)
        requires
            self.wf(),
        ensures
            r == self.busiest(by_table, self.blocks@.len() as int),
    {
        let n: usize = self.blocks.len();
        let mut best: u64 = 0;
        let mut k: usize = 0;
        while k < n
            invariant
                self.wf(),
                n == self.blocks@.len(),
                k <= n,
                best == self.busiest(by_table, k as int),
            decreases n - k,
        {
            proof {
                let out = self.succ@[k as int]@;
                let into = self.pred@[k as int]@;
                assert forall|x: int| 0 <= x < out.len() implies #[trigger] out[x] < n by {
                    assert(self.succ@[k as int]@[x] < n);
                }
                assert forall|x: int| 0 <= x < into.len() implies #[trigger] into[x] < n by {
                    assert(self.pred@[k as int]@[x] < n);
                }
                lemma_pigeonhole(out, n as int);
                lemma_pigeonhole(into, n as int);
            }
            if !by_table || self.indirect[k] {
                let here: u64 = self.succ[k].len() as u64 + self.pred[k].len() as u64;
                if here > best {
                    best = here;
                }
            }
            k += 1;
        }
        best
    }
}

/// Distinct numbers below `n` are at most `n`.
proof fn lemma_pigeonhole(v: Seq<usize>, n: int)
    requires
        0 <= n,
        v.no_duplicates(),
        forall|x: int| 0 <= x < v.len() ==> #[trigger] v[x] < n,
    ensures
        v.len() <= n,
    decreases n,
{
    if v.len() > 0 {
        if exists|i: int| 0 <= i < v.len() && v[i] == n - 1 {
            let i = choose|i: int| 0 <= i < v.len() && v[i] == n - 1;
            let w = v.remove(i);
            assert forall|x: int| 0 <= x < w.len() implies #[trigger] w[x] < n - 1 by {
                let y = if x < i {
                    x
                } else {
                    x + 1
                };
                assert(w[x] == v[y]);
                assert(v[y] != v[i]);
            }
            assert(w.no_duplicates()) by {
                assert forall|x: int, z: int|
                    0 <= x < w.len() && 0 <= z < w.len() && x != z implies w[x] != w[z] by {
                    assert(w[x] == v[if x < i {
                        x
                    } else {
                        x + 1
                    }]);
                    assert(w[z] == v[if z < i {
                        z
                    } else {
                        z + 1
                    }]);
                }
            }
            lemma_pigeonhole(w, n - 1);
        } else {
            assert(v[0] < n);
            assert forall|x: int| 0 <= x < v.len() implies #[trigger] v[x] < n - 1 by {
                assert(v[x] != n - 1);
            }
            lemma_pigeonhole(v, n - 1);
        }
    }
}

/// Measures the shape of a graph.
pub fn cfg_metrics(g: &FunctionCfg) -> (r: Metrics)
    requires
        g.wf(),
    ensures
        g.is_measured(r),
{
    let n: usize = g.blocks.len();
    let edges: u64 = if g.total_edges == 0 {
        1
    } else {
        g.total_edges
    };
    let bent: u64 = if g.fallthrough_edges > edges {
        0
    } else {
        edges - g.fallthrough_edges
    };
    let wide: usize = widest_dominator(&g.succ, g.entry_block);
    Metrics {
        n_funcs: 0,
        max_blocks: n,
        dispatcher: Ratio { num: g.max_degree(false), den: edges },
        dom_collapse: Ratio { num: wide as u64, den: n as u64 },
        indirect: Ratio { num: g.max_degree(true), den: edges },
        struct_absence: Ratio { num: bent, den: edges },
    }
}

impl Metrics {
    /// No function yet.
    pub open spec fn none() -> Metrics {
        let zero = Ratio { num: 0, den: 1 };
        Metrics {
            n_funcs: 0,
            max_blocks: 0,
            dispatcher: zero,
            dom_collapse: zero,
            indirect: zero,
            struct_absence: zero,
        }
    }

    /// With one more function, measured as `m`: each share is the greatest one,
    /// and small functions are only counted.
    pub open spec fn joined(self, m: Metrics) -> Metrics {
        let counted = Metrics {
            n_funcs: (self.n_funcs + 1) as usize,
            max_blocks: if m.max_blocks > self.max_blocks {
                m.max_blocks
            } else {
                self.max_blocks
            },
            ..self
        };
        if m.max_blocks < MIN_BLOCKS {
            counted
        } else {
            Metrics {
                dispatcher: self.dispatcher.spec_greater(m.dispatcher),
                dom_collapse: self.dom_collapse.spec_greater(m.dom_collapse),
                indirect: self.indirect.spec_greater(m.indirect),
                struct_absence: self.struct_absence.spec_greater(m.struct_absence),
                ..counted
            }
        }
    }
}

/// Where the function at entry `k` ends.
pub open spec fn function_end(entries: Seq<u64>, text_hi: u64, k: int) -> u64 {
    if k + 1 < entries.len() {
        entries[k + 1]
    } else {
        text_hi
    }
}

/// Whether `m` measures the function between two addresses; nothing where it
/// has no graph.
pub open spec fn is_function_measure(
    m: Option<Metrics>,
    s: Superset,
    recovered: Set<u64>,
    table: Seq<u64>,
    lo: u64,
    hi: u64,
) -> bool {
    let set = in_span(recovered, lo, hi);
    let here = table_in(table, lo, hi, table.len() as int);
    match m {
        Some(x) => set.len() >= 2 && exists|g: FunctionCfg|
            g.blocks@.len() >= 2 && #[trigger] g.is_graph(s, set, here) && g.is_measured(x),
        None => set.len() < 2 || leaders(s, set, here).len() < 2,
    }
}

/// The measures of the first `k` functions taken together.
pub open spec fn summary(ms: Seq<Option<Metrics>>, k: int) -> Metrics
    decreases k,
{
    if k <= 0 {
        Metrics::none()
    } else {
        match ms[k - 1] {
            Some(m) => summary(ms, k - 1).joined(m),
            None => summary(ms, k - 1),
        }
    }
}

/// Whether `ms` measures every function.
pub open spec fn are_measures(
    ms: Seq<Option<Metrics>>,
    s: Superset,
    recovered: Set<u64>,
    table: Seq<u64>,
    entries: Seq<u64>,
    text_hi: u64,
) -> bool {
    &&& ms.len() == entries.len()
    &&& forall|k: int|
        0 <= k < entries.len() ==> is_function_measure(
            #[trigger] ms[k],
            s,
            recovered,
            table,
            entries[k],
            function_end(entries, text_hi, k),
        )
}

proof fn lemma_summary_push(ms: Seq<Option<Metrics>>, m: Option<Metrics>, k: int)
    requires
        0 <= k <= ms.len(),
    ensures
        summary(ms.push(m), k) == summary(ms, k),
    decreases k,
{
    if k > 0 {
        lemma_summary_push(ms, m, k - 1);
    }
}

/// The shape of a program: each share is the greatest of any function that has
/// enough blocks.
pub fn measure_functions(
    s: &Superset,
    recovered: &BTreeSet<u64>,
    table: &Vec<u64>,
    entries: &Vec<u64>,
    text_hi: u64,
) -> (r: Metrics)
    requires
        s.wf(),
        recovered@.len() * (table@.len() + 2) <= u64::MAX,
    ensures
        exists|ms: Seq<Option<Metrics>>| #[trigger]
            are_measures(ms, *s, recovered@, table@, entries@, text_hi) && r == summary(
                ms,
                entries@.len() as int,
            ),
{
    let zero: Ratio = Ratio { num: 0, den: 1 };
    let mut best: Metrics = Metrics {
        n_funcs: 0,
        max_blocks: 0,
        dispatcher: zero,
        dom_collapse: zero,
        indirect: zero,
        struct_absence: zero,
    };
    let ghost mut ms: Seq<Option<Metrics>> = Seq::empty();
    let n: usize = entries.len();
    let mut k: usize = 0;
    while k < n
        invariant
            s.wf(),
            n == entries@.len(),
            recovered@.len() * (table@.len() + 2) <= u64::MAX,
            k <= n,
            ms.len() == k,
            best == summary(ms, k as int),
            best.n_funcs <= k,
            forall|j: int|
                0 <= j < k ==> is_function_measure(
                    #[trigger] ms[j],
                    *s,
                    recovered@,
                    table@,
                    entries@[j],
                    function_end(entries@, text_hi, j),
                ),
        decreases n - k,
    {
        let hi: u64 = if k + 1 < n {
            entries[k + 1]
        } else {
            text_hi
        };
        let ghost before = ms;
        match build_function_cfg(s, recovered, entries[k], hi, table) {
            None => {
                proof {
                    ms = before.push(None);
                    lemma_summary_push(before, None, k as int);
                }
            },
            Some(g) => {
                let m: Metrics = cfg_metrics(&g);
                proof {
                    ms = before.push(Some(m));
                    lemma_summary_push(before, Some(m), k as int);
                    let set = in_span(recovered@, entries@[k as int], hi);
                    let here = table_in(
                        table@,
                        entries@[k as int],
                        hi,
                        table@.len() as int,
                    );
                    assert(g.is_graph(*s, set, here) && g.is_measured(m));
                }
                best.n_funcs = best.n_funcs + 1;
                if m.max_blocks > best.max_blocks {
                    best.max_blocks = m.max_blocks;
                }
                if m.max_blocks >= MIN_BLOCKS {
                    best.dispatcher = best.dispatcher.greater(m.dispatcher);
                    best.dom_collapse = best.dom_collapse.greater(m.dom_collapse);
                    best.indirect = best.indirect.greater(m.indirect);
                    best.struct_absence = best.struct_absence.greater(m.struct_absence);
                }
            },
        }
        proof {
            assert forall|j: int| 0 <= j < k + 1 implies is_function_measure(
                #[trigger] ms[j],
                *s,
                recovered@,
                table@,
                entries@[j],
                function_end(entries@, text_hi, j),
            ) by {
                if j < k {
                    assert(ms[j] == before[j]);
                }
            }
        }
        k += 1;
    }
    proof {
        assert(are_measures(ms, *s, recovered@, table@, entries@, text_hi));
    }
    best
}

// ── What a graph shows of the code ─────────────────────────────────────────

proof fn lemma_entries_but(table: Seq<u64>, a: u64, k: int, b: u64)
    requires
        0 <= k <= table.len(),
    ensures
        entries_but(table, a, k).contains(b) <==> b != a && exists|j: int|
            0 <= j < k && #[trigger] table[j] == b,
    decreases k,
{
    if k > 0 {
        lemma_entries_but(table, a, k - 1, b);
        let before = entries_but(table, a, k - 1);
        if table[k - 1] != a {
            let now = before.push(table[k - 1]);
            assert(now[before.len() as int] == table[k - 1]);
            if before.contains(b) {
                let j = choose|j: int| 0 <= j < before.len() && before[j] == b;
                assert(now[j] == b);
            }
            if now.contains(b) {
                let j = choose|j: int| 0 <= j < now.len() && now[j] == b;
                if j < before.len() {
                    assert(before[j] == b);
                }
            }
        }
    }
}

/// Inside a function control goes on behind whatever neither jumps nor returns, a call
/// among them; to the target of a direct jump, and on behind it unless the jump is
/// plain; and from an indirect jump to every other entry of the table. From a return,
/// and from where nothing decodes, it goes nowhere.
pub proof fn law_flow_by_kind(s: Superset, set: Set<u64>, table: Seq<u64>, a: u64, b: u64)
    requires
        s.wf(),
    ensures
        flows_into(s, set, table, a, b) <==> {
            &&& s.spec_at(a as int) matches Some(i)
            &&& !i.groups@.contains(3u8)
            &&& if i.groups@.contains(1u8) && !i.groups@.contains(2u8) {
                match i.branch_target {
                    Some(t) => set.contains(b) && (b == t || (b == a + i.size && i.mnemonic@
                        != "jmp"@)),
                    None => table.contains(b) && b != a,
                }
            } else {
                set.contains(b) && b == a + i.size
            }
        },
{
    if let Some(i) = s.spec_at(a as int) {
        law_kinds_are_groups(i);
        assert(s.valid(a - s.base_addr));
        let next = (a + i.size) as u64;
        let on = if_member(set, next);
        assert(on.contains(b) <==> set.contains(b) && b == next) by {
            assert(on.len() > 0 ==> on[0] == next);
        }
        if let Some(t) = i.branch_target {
            let to = if_member(set, t);
            let rest = if i.spec_is_plain_jmp() {
                Seq::<u64>::empty()
            } else {
                on
            };
            let all = to + rest;
            if set.contains(t) {
                assert(all[0] == t);
            }
            if rest.len() > 0 {
                assert(all[to.len() as int] == next);
            }
            assert(all.contains(b) <==> to.contains(b) || rest.contains(b)) by {
                if all.contains(b) {
                    let j = choose|j: int| 0 <= j < all.len() && all[j] == b;
                    if j < to.len() {
                        assert(to[j] == b);
                    } else {
                        assert(rest[j - to.len()] == b);
                    }
                }
            }
        } else {
            lemma_entries_but(table, a, table.len() as int, b);
        }
    }
}

/// A call comes back: where what stands right behind a call that does not return is
/// part of the function, control flows there. It has a source, begins a block, and has
/// an edge from the block of the call; it is no entry unless something calls it or the
/// program begins there.
pub proof fn law_calls_come_back(
    s: Superset,
    set: Set<u64>,
    table: Seq<u64>,
    e_entry: u64,
    a: u64,
    next: u64,
)
    requires
        s.wf(),
        set.contains(a),
        set.contains(next),
        s.spec_at(a as int) matches Some(i) && i.groups@.contains(2u8) && !i.groups@.contains(3u8)
            && next == a + i.size,
    ensures
        flows_into(s, set, table, a, next),
        has_source(s, set, table, next),
        leaders(s, set, table).contains(next),
        forall|g: FunctionCfg, x: int, y: int|
            #![trigger g.is_graph(s, set, table), g.blocks@[x], g.blocks@[y]]
            g.is_graph(s, set, table) && 0 <= x < g.blocks@.len() && 0 <= y < g.blocks@.len()
                && g.blocks@[x] == a && g.blocks@[y] == next ==> g.succ@[x]@.contains(y as usize)
                && g.pred@[y]@.contains(x as usize),
        is_entry(s, set, table, e_entry, next) ==> next == e_entry || exists|b: u64|
            set.contains(b) && (#[trigger] s.spec_at(b as int) matches Some(i)
                && i.groups@.contains(2u8) && i.branch_target == Some(next)),
{
    law_flow_by_kind(s, set, table, a, next);
    assert(has_source(s, set, table, next));
    assert forall|g: FunctionCfg, x: int, y: int|
        #![trigger g.is_graph(s, set, table), g.blocks@[x], g.blocks@[y]]
        g.is_graph(s, set, table) && 0 <= x < g.blocks@.len() && 0 <= y < g.blocks@.len()
            && g.blocks@[x] == a && g.blocks@[y] == next implies g.succ@[x]@.contains(y as usize)
        && g.pred@[y]@.contains(x as usize) by {
        assert(g.succ@[x]@.contains(y as usize));
        assert(g.pred@[y]@.contains(x as usize));
    }
    if is_entry(s, set, table, e_entry, next) && next != e_entry {
        let b = choose|b: u64| set.contains(b) && #[trigger] calls_to(s, b, next);
        law_kinds_are_groups(s.spec_at(b as int)->0);
        assert(s.spec_at(b as int) is Some);
    }
}

/// The edges of a graph are the flow between its blocks.
pub proof fn law_edges_are_flow(
    g: FunctionCfg,
    s: Superset,
    set: Set<u64>,
    table: Seq<u64>,
    x: int,
    y: int,
)
    requires
        g.is_graph(s, set, table),
        0 <= x < g.blocks@.len(),
        0 <= y < g.blocks@.len(),
    ensures
        g.succ@[x]@.contains(y as usize) <==> flows_into(
            s,
            set,
            table,
            g.blocks@[x],
            g.blocks@[y],
        ),
        g.pred@[y]@.contains(x as usize) <==> flows_into(
            s,
            set,
            table,
            g.blocks@[x],
            g.blocks@[y],
        ),
        x < y <==> g.blocks@[x] < g.blocks@[y],
        g.entry_block == 0,
        set.contains(g.blocks@[x]),
        forall|a: u64| #[trigger] set.contains(a) ==> g.blocks@[0] <= a,
        g.indirect@[x] <==> {
            &&& s.spec_at(g.blocks@[x] as int) matches Some(i)
            &&& i.groups@.contains(1u8)
            &&& !i.groups@.contains(2u8)
            &&& !i.groups@.contains(3u8)
            &&& i.branch_target is None
        },
{
    assert(g.succ@[x]@.contains(y as usize) <==> g.pred@[y]@.contains(x as usize));
    if let Some(i) = s.spec_at(g.blocks@[x] as int) {
        law_kinds_are_groups(i);
    }
    let all = leaders(s, set, table);
    assert(g.blocks@.to_set().contains(g.blocks@[x]));
    assert(all.contains(g.blocks@[x]));
    assert forall|a: u64| #[trigger] set.contains(a) implies g.blocks@[0] <= a by {
        let first = least_of(set, a);
        lemma_least_of(set, a);
        assert(all.contains(first));
        assert(g.blocks@.to_set().contains(first));
        let z = choose|z: int| 0 <= z < g.blocks@.len() && g.blocks@[z] == first;
        if z > 0 {
            assert(g.blocks@[0] < g.blocks@[z]);
        }
    }
}

/// The least member up to `a`, which is one.
spec fn least_of(set: Set<u64>, a: u64) -> u64
    decreases a,
{
    if exists|x: u64| x < a && #[trigger] set.contains(x) {
        let x = choose|x: u64| x < a && #[trigger] set.contains(x);
        if x < a {
            least_of(set, x)
        } else {
            a
        }
    } else {
        a
    }
}

proof fn lemma_least_of(set: Set<u64>, a: u64)
    requires
        set.contains(a),
    ensures
        is_least(set, least_of(set, a)),
        least_of(set, a) <= a,
    decreases a,
{
    if exists|x: u64| x < a && #[trigger] set.contains(x) {
        let x = choose|x: u64| x < a && #[trigger] set.contains(x);
        lemma_least_of(set, x);
    }
}

/// A block begins at the first instruction of a function, wherever control flows, and
/// behind every jump and return; nowhere else.
pub proof fn law_where_blocks_begin(s: Superset, set: Set<u64>, table: Seq<u64>, a: u64)
    requires
        s.wf(),
    ensures
        leaders(s, set, table).contains(a) <==> set.contains(a) && {
            ||| forall|x: u64| #[trigger] set.contains(x) ==> a <= x
            ||| exists|b: u64| set.contains(b) && #[trigger] flows_into(s, set, table, b, a)
            ||| exists|b: u64|
                set.contains(b) && (#[trigger] s.spec_at(b as int) matches Some(i) && (
                i.groups@.contains(1u8) || i.groups@.contains(3u8)) && b + i.size == a)
        },
{
    if follows_end(s, set, a) {
        let b = choose|b: u64| set.contains(b) && #[trigger] ends_before(s, b, a);
        law_kinds_are_groups(s.spec_at(b as int)->0);
        assert(s.spec_at(b as int) is Some);
    }
    if exists|b: u64|
        set.contains(b) && (#[trigger] s.spec_at(b as int) matches Some(i) && (i.groups@.contains(
            1u8,
        ) || i.groups@.contains(3u8)) && b + i.size == a) {
        let b = choose|b: u64|
            set.contains(b) && (#[trigger] s.spec_at(b as int) matches Some(i) && (
            i.groups@.contains(1u8) || i.groups@.contains(3u8)) && b + i.size == a);
        law_kinds_are_groups(s.spec_at(b as int)->0);
        assert(ends_before(s, b, a));
    }
}

/// The functions of a program in ascending order: where the program begins, what a call
/// leads to and what nothing flows into, but for the entries of the table; where there
/// is none of these, the first instruction alone.
pub proof fn law_entries_of_a_program(
    r: Seq<u64>,
    s: Superset,
    recovered: Set<u64>,
    table: Seq<u64>,
    e_entry: u64,
    a: u64,
)
    requires
        s.wf(),
        are_entries(r, s, recovered, table, e_entry),
    ensures
        r.len() > 0,
        forall|i: int, j: int| 0 <= i < j < r.len() ==> r[i] < r[j],
        r.contains(a) ==> recovered.contains(a),
        recovered.contains(e_entry) ==> r.contains(e_entry),
        recovered.contains(a) && !table.contains(a) && (exists|b: u64|
            recovered.contains(b) && (#[trigger] s.spec_at(b as int) matches Some(i)
                && i.groups@.contains(2u8) && i.branch_target == Some(a))) ==> r.contains(a),
        recovered.contains(a) && !table.contains(a) && (forall|b: u64|
            recovered.contains(b) ==> !#[trigger] flows_into(s, recovered, table, b, a))
            ==> r.contains(a),
        r.contains(a) && a != e_entry ==> {
            ||| r.len() == 1 && forall|x: u64| #[trigger] recovered.contains(x) ==> a <= x
            ||| !table.contains(a) && (forall|b: u64|
                recovered.contains(b) ==> !#[trigger] flows_into(s, recovered, table, b, a))
            ||| !table.contains(a) && exists|b: u64|
                recovered.contains(b) && (#[trigger] s.spec_at(b as int) matches Some(i)
                    && i.groups@.contains(2u8) && i.branch_target == Some(a))
        },
{
    let all = Set::new(|x: u64| is_entry(s, recovered, table, e_entry, x));
    if recovered.contains(e_entry) {
        assert(all.contains(e_entry));
        assert(r.to_set().contains(e_entry));
    }
    if exists|b: u64|
        recovered.contains(b) && (#[trigger] s.spec_at(b as int) matches Some(i)
            && i.groups@.contains(2u8) && i.branch_target == Some(a)) {
        let b = choose|b: u64|
            recovered.contains(b) && (#[trigger] s.spec_at(b as int) matches Some(i)
                && i.groups@.contains(2u8) && i.branch_target == Some(a));
        law_kinds_are_groups(s.spec_at(b as int)->0);
        assert(calls_to(s, b, a));
    }
    if is_called(s, recovered, a) {
        let b = choose|b: u64| recovered.contains(b) && #[trigger] calls_to(s, b, a);
        law_kinds_are_groups(s.spec_at(b as int)->0);
        assert(s.spec_at(b as int) is Some);
    }
    if all.contains(a) {
        assert(r.to_set().contains(a));
    }
    if all == Set::<u64>::empty() {
        if r.contains(a) {
            let z = choose|z: int| 0 <= z < r.len() && r[z] == a;
            assert(r[z] == r[0]);
        }
    } else {
        if r.contains(a) {
            assert(r.to_set().contains(a));
            assert(all.contains(a));
        }
        if r.len() == 0 {
            assert(all =~= Set::<u64>::empty());
        }
    }
}

proof fn lemma_table_in(table: Seq<u64>, lo: u64, hi: u64, k: int, b: u64)
    requires
        0 <= k <= table.len(),
    ensures
        table_in(table, lo, hi, k).contains(b) <==> lo <= b < hi && exists|j: int|
            0 <= j < k && #[trigger] table[j] == b,
    decreases k,
{
    if k > 0 {
        lemma_table_in(table, lo, hi, k - 1, b);
        let before = table_in(table, lo, hi, k - 1);
        if lo <= table[k - 1] < hi {
            let now = before.push(table[k - 1]);
            assert(now[before.len() as int] == table[k - 1]);
            if before.contains(b) {
                let j = choose|j: int| 0 <= j < before.len() && before[j] == b;
                assert(now[j] == b);
            }
            if now.contains(b) {
                let j = choose|j: int| 0 <= j < now.len() && now[j] == b;
                if j < before.len() {
                    assert(before[j] == b);
                }
            }
        }
    }
}

/// A function holds what was recovered from its first address up to, but not at, the
/// next function, and so does its part of the table; the last function ends where the
/// code ends.
pub proof fn law_functions_abut(
    recovered: Set<u64>,
    table: Seq<u64>,
    entries: Seq<u64>,
    text_hi: u64,
    k: int,
    a: u64,
)
    requires
        0 <= k < entries.len(),
    ensures
        ({
            let hi = function_end(entries, text_hi, k);
            let inside = if k == entries.len() - 1 {
                entries[k] <= a < text_hi
            } else {
                entries[k] <= a < entries[k + 1]
            };
            &&& in_span(recovered, entries[k], hi).contains(a) <==> recovered.contains(a) && inside
            &&& table_in(table, entries[k], hi, table.len() as int).contains(a)
                <==> table.contains(a) && inside
        }),
{
    lemma_table_in(
        table,
        entries[k],
        function_end(entries, text_hi, k),
        table.len() as int,
        a,
    );
    if table.contains(a) {
        let j = choose|j: int| 0 <= j < table.len() && table[j] == a;
        assert(table[j] == a);
    }
}

/// How often control goes straight on from an instruction: once from a call and from
/// whatever neither jumps nor returns, where the next instruction is part of the
/// function, and once from a direct jump that is not plain and leads elsewhere.
pub proof fn law_straight_edges(s: Superset, set: Set<u64>, table: Seq<u64>, a: u64)
    requires
        s.wf(),
    ensures
        s.spec_at(a as int) is None ==> falls(s, set, table, a) == 0,
        s.spec_at(a as int) matches Some(i) ==> {
            let next = (a + i.size) as u64;
            &&& !set.contains(next) || i.groups@.contains(3u8) ==> falls(s, set, table, a) == 0
            &&& set.contains(next) && !i.groups@.contains(3u8) && (i.groups@.contains(2u8)
                || !i.groups@.contains(1u8)) ==> falls(s, set, table, a) == 1
            &&& set.contains(next) && !i.groups@.contains(3u8) && i.groups@.contains(1u8)
                && !i.groups@.contains(2u8) && i.branch_target is Some && i.branch_target != Some(
                next,
            ) ==> falls(s, set, table, a) == (if i.mnemonic@ == "jmp"@ {
                0int
            } else {
                1
            })
        },
{
    if let Some(i) = s.spec_at(a as int) {
        law_kinds_are_groups(i);
        assert(s.valid(a - s.base_addr));
        let next = (a + i.size) as u64;
        let to = flows(s, set, table, a);
        reveal_with_fuel(count_of, 3);
        if let Some(t) = i.branch_target {
            assert(if_member(set, t).len() <= 1);
        }
    }
}

/// Edges and straight edges add up block by block.
pub proof fn law_edges_add_up(
    s: Superset,
    set: Set<u64>,
    table: Seq<u64>,
    blocks: Seq<u64>,
    succ: Seq<Vec<usize>>,
    row: Vec<usize>,
    a: u64,
)
    requires
        succ.len() == blocks.len(),
    ensures
        edge_count(succ, 0) == 0,
        edge_count(succ.push(row), succ.len() + 1int) == edge_count(succ, succ.len() as int)
            + row@.len(),
        all_falls(s, set, table, blocks, 0) == 0,
        all_falls(s, set, table, blocks.push(a), blocks.len() + 1int) == all_falls(
            s,
            set,
            table,
            blocks,
            blocks.len() as int,
        ) + falls(s, set, table, a),
{
    lemma_edge_count_push(succ, row, succ.len() as int);
    lemma_all_falls_push(s, set, table, blocks, a, blocks.len() as int);
}

proof fn lemma_all_falls_push(
    s: Superset,
    set: Set<u64>,
    table: Seq<u64>,
    blocks: Seq<u64>,
    a: u64,
    k: int,
)
    requires
        0 <= k <= blocks.len(),
    ensures
        all_falls(s, set, table, blocks.push(a), k) == all_falls(s, set, table, blocks, k),
    decreases k,
{
    if k > 0 {
        lemma_all_falls_push(s, set, table, blocks, a, k - 1);
    }
}

proof fn lemma_busiest(g: FunctionCfg, by_table: bool, k: int)
    requires
        0 <= k,
    ensures
        g.busiest(by_table, k) >= 0,
        forall|i: int|
            0 <= i < k && (!by_table || g.indirect@[i]) ==> #[trigger] g.degree(i) <= g.busiest(
                by_table,
                k,
            ),
        g.busiest(by_table, k) == 0 || exists|i: int|
            0 <= i < k && (!by_table || g.indirect@[i]) && #[trigger] g.degree(i) == g.busiest(
                by_table,
                k,
            ),
    decreases k,
{
    if k > 0 {
        lemma_busiest(g, by_table, k - 1);
    }
}

/// The busiest block has at least as many edges, in and out, as any; of the blocks with
/// a jump through the table it is the busiest of these. Shares are taken of all edges,
/// and the straight ones are left out of the last.
pub proof fn law_measures_of_a_graph(g: FunctionCfg, m: Metrics, i: int)
    requires
        g.is_measured(m),
        0 <= i < g.blocks@.len(),
    ensures
        m.max_blocks == g.blocks@.len(),
        m.dom_collapse.den == g.blocks@.len(),
        m.dispatcher.num >= g.succ@[i]@.len() + g.pred@[i]@.len(),
        m.dispatcher.num > 0 ==> exists|j: int|
            0 <= j < g.blocks@.len() && m.dispatcher.num == (#[trigger] g.succ@[j])@.len()
                + g.pred@[j]@.len(),
        g.indirect@[i] ==> m.indirect.num >= g.succ@[i]@.len() + g.pred@[i]@.len(),
        m.indirect.num > 0 ==> exists|j: int|
            0 <= j < g.blocks@.len() && g.indirect@[j] && m.indirect.num == (
            #[trigger] g.succ@[j])@.len() + g.pred@[j]@.len(),
        m.dispatcher.den == m.indirect.den == m.struct_absence.den,
        g.total_edges > 0 ==> m.dispatcher.den == g.total_edges,
        g.total_edges == 0 ==> m.dispatcher.den == 1,
        g.fallthrough_edges <= m.struct_absence.den ==> m.struct_absence.num + g.fallthrough_edges
            == m.struct_absence.den,
        g.fallthrough_edges > m.struct_absence.den ==> m.struct_absence.num == 0,
{
    let n = g.blocks@.len() as int;
    lemma_busiest(g, false, n);
    lemma_busiest(g, true, n);
    assert(g.degree(i) <= g.busiest(false, n));
    assert(g.indirect@[i] ==> g.degree(i) <= g.busiest(true, n));
    if m.dispatcher.num > 0 {
        let j = choose|j: int|
            0 <= j < n && (!false || g.indirect@[j]) && #[trigger] g.degree(j) == g.busiest(
                false,
                n,
            );
        assert(m.dispatcher.num == g.succ@[j]@.len() + g.pred@[j]@.len());
    }
    if m.indirect.num > 0 {
        let j = choose|j: int|
            0 <= j < n && (!true || g.indirect@[j]) && #[trigger] g.degree(j) == g.busiest(true, n);
        assert(m.indirect.num == g.succ@[j]@.len() + g.pred@[j]@.len());
    }
}

proof fn lemma_at_least_transitive(a: Ratio, b: Ratio, c: Ratio)
    requires
        b.den > 0,
        a.num * b.den >= b.num * a.den,
        b.num * c.den >= c.num * b.den,
    ensures
        a.num * c.den >= c.num * a.den,
{
    let (p, q, r, t, u, v): (int, int, int, int, int, int) = (
        a.num as int,
        a.den as int,
        b.num as int,
        b.den as int,
        c.num as int,
        c.den as int,
    );
    assert((p * t) * v >= (r * q) * v) by (nonlinear_arith)
        requires
            p * t >= r * q,
            v >= 0,
    ;
    assert((r * v) * q >= (u * t) * q) by (nonlinear_arith)
        requires
            r * v >= u * t,
            q >= 0,
    ;
    assert((p * t) * v == (p * v) * t) by (nonlinear_arith);
    assert((r * q) * v == (r * v) * q) by (nonlinear_arith);
    assert((u * t) * q == (u * q) * t) by (nonlinear_arith);
    assert(p * v >= u * q) by (nonlinear_arith)
        requires
            (p * v) * t >= (u * q) * t,
            t > 0,
    ;
}

/// The greater of two fractions is one of them, and neither is greater.
pub proof fn law_greater_of_two(a: Ratio, b: Ratio)
    ensures
        ({
            let c = a.spec_greater(b);
            &&& c == a || c == b
            &&& c.num * a.den >= a.num * c.den
            &&& c.num * b.den >= b.num * c.den
        }),
{
    assert(a.num * a.den >= a.num * a.den);
    assert(b.num * b.den >= b.num * b.den);
}

/// Whether the four shares have a denominator.
spec fn has_shares(m: Metrics) -> bool {
    m.dispatcher.den > 0 && m.dom_collapse.den > 0 && m.indirect.den > 0 && m.struct_absence.den > 0
}

proof fn lemma_summary(ms: Seq<Option<Metrics>>, n: int)
    requires
        0 <= n <= ms.len() <= usize::MAX,
        forall|k: int| 0 <= k < n && #[trigger] ms[k] is Some ==> has_shares(ms[k]->0),
    ensures
        has_shares(summary(ms, n)),
        summary(ms, n).n_funcs == ms.take(n).filter(|m: Option<Metrics>| m is Some).len(),
        forall|k: int|
            0 <= k < n && #[trigger] ms[k] is Some ==> {
                let all = summary(ms, n);
                let m = ms[k]->0;
                &&& all.max_blocks >= m.max_blocks
                &&& m.max_blocks >= 8 ==> {
                    &&& all.dispatcher.at_least(m.dispatcher)
                    &&& all.dom_collapse.at_least(m.dom_collapse)
                    &&& all.indirect.at_least(m.indirect)
                    &&& all.struct_absence.at_least(m.struct_absence)
                }
            },
    decreases n,
{
    reveal(Seq::filter);
    let some = |m: Option<Metrics>| m is Some;
    if n <= 0 {
        assert(ms.take(n) =~= Seq::empty());
    } else {
        lemma_summary(ms, n - 1);
        assert(ms.take(n).drop_last() =~= ms.take(n - 1));
        assert(ms.take(n).last() == ms[n - 1]);
        lemma_filter_shrinks(ms.take(n - 1), some);
        let before = summary(ms, n - 1);
        let all = summary(ms, n);
        if let Some(m) = ms[n - 1] {
            law_greater_of_two(before.dispatcher, m.dispatcher);
            law_greater_of_two(before.dom_collapse, m.dom_collapse);
            law_greater_of_two(before.indirect, m.indirect);
            law_greater_of_two(before.struct_absence, m.struct_absence);
            assert forall|k: int| 0 <= k < n - 1 && #[trigger] ms[k] is Some && (
            ms[k]->0).max_blocks >= 8 implies {
                &&& all.dispatcher.at_least((ms[k]->0).dispatcher)
                &&& all.dom_collapse.at_least((ms[k]->0).dom_collapse)
                &&& all.indirect.at_least((ms[k]->0).indirect)
                &&& all.struct_absence.at_least((ms[k]->0).struct_absence)
            } by {
                let x = ms[k]->0;
                if m.max_blocks >= 8 {
                    lemma_at_least_transitive(all.dispatcher, before.dispatcher, x.dispatcher);
                    lemma_at_least_transitive(
                        all.dom_collapse,
                        before.dom_collapse,
                        x.dom_collapse,
                    );
                    lemma_at_least_transitive(all.indirect, before.indirect, x.indirect);
                    lemma_at_least_transitive(
                        all.struct_absence,
                        before.struct_absence,
                        x.struct_absence,
                    );
                }
            }
        }
    }
}

proof fn lemma_filter_shrinks(v: Seq<Option<Metrics>>, f: spec_fn(Option<Metrics>) -> bool)
    ensures
        v.filter(f).len() <= v.len(),
    decreases v.len(),
{
    reveal(Seq::filter);
    if v.len() > 0 {
        lemma_filter_shrinks(v.drop_last(), f);
    }
}

/// A program has as many functions as have a graph, its largest function has the most
/// blocks of any, and no function of eight blocks or more has a greater share of any
/// kind than the program.
pub proof fn law_program_has_the_greatest_shares(ms: Seq<Option<Metrics>>, k: int)
    requires
        ms.len() <= usize::MAX,
        forall|j: int|
            0 <= j < ms.len() && #[trigger] ms[j] is Some ==> (ms[j]->0).dispatcher.den > 0
                && (ms[j]->0).dom_collapse.den > 0 && (ms[j]->0).indirect.den > 0
                && (ms[j]->0).struct_absence.den > 0,
        0 <= k < ms.len(),
    ensures
        summary(ms, ms.len() as int).n_funcs == ms.filter(
            |m: Option<Metrics>| m is Some,
        ).len(),
        ms[k] matches Some(m) ==> {
            let all = summary(ms, ms.len() as int);
            &&& all.max_blocks >= m.max_blocks
            &&& m.max_blocks >= 8 ==> {
                &&& all.dispatcher.num * m.dispatcher.den >= m.dispatcher.num * all.dispatcher.den
                &&& all.dom_collapse.num * m.dom_collapse.den >= m.dom_collapse.num
                    * all.dom_collapse.den
                &&& all.indirect.num * m.indirect.den >= m.indirect.num * all.indirect.den
                &&& all.struct_absence.num * m.struct_absence.den >= m.struct_absence.num
                    * all.struct_absence.den
            }
        },
{
    lemma_summary(ms, ms.len() as int);
    assert(ms.take(ms.len() as int) =~= ms);
}

proof fn lemma_summary_attained(ms: Seq<Option<Metrics>>, n: int)
    requires
        0 <= n <= ms.len(),
    ensures
        ({
            let all = summary(ms, n);
            let zero = Ratio { num: 0, den: 1 };
            &&& all.max_blocks == 0 || exists|k: int|
                0 <= k < n && (#[trigger] ms[k] matches Some(m) && m.max_blocks == all.max_blocks)
            &&& all.dispatcher == zero || exists|k: int|
                0 <= k < n && (#[trigger] ms[k] matches Some(m) && m.max_blocks >= 8
                    && m.dispatcher == all.dispatcher)
            &&& all.dom_collapse == zero || exists|k: int|
                0 <= k < n && (#[trigger] ms[k] matches Some(m) && m.max_blocks >= 8
                    && m.dom_collapse == all.dom_collapse)
            &&& all.indirect == zero || exists|k: int|
                0 <= k < n && (#[trigger] ms[k] matches Some(m) && m.max_blocks >= 8 && m.indirect
                    == all.indirect)
            &&& all.struct_absence == zero || exists|k: int|
                0 <= k < n && (#[trigger] ms[k] matches Some(m) && m.max_blocks >= 8
                    && m.struct_absence == all.struct_absence)
        }),
    decreases n,
{
    if n > 0 {
        lemma_summary_attained(ms, n - 1);
        assert(ms[n - 1] == ms[n - 1]);
    }
}

/// Each figure of a program is that of one of its functions, and each share that of one
/// with eight blocks or more; where there is none it is nothing.
pub proof fn law_program_figures_are_attained(ms: Seq<Option<Metrics>>)
    ensures
        ({
            let all = summary(ms, ms.len() as int);
            let zero = Ratio { num: 0, den: 1 };
            &&& all.max_blocks == 0 || exists|k: int|
                0 <= k < ms.len() && (#[trigger] ms[k] matches Some(m) && m.max_blocks
                    == all.max_blocks)
            &&& all.dispatcher == zero || exists|k: int|
                0 <= k < ms.len() && (#[trigger] ms[k] matches Some(m) && m.max_blocks >= 8
                    && m.dispatcher == all.dispatcher)
            &&& all.dom_collapse == zero || exists|k: int|
                0 <= k < ms.len() && (#[trigger] ms[k] matches Some(m) && m.max_blocks >= 8
                    && m.dom_collapse == all.dom_collapse)
            &&& all.indirect == zero || exists|k: int|
                0 <= k < ms.len() && (#[trigger] ms[k] matches Some(m) && m.max_blocks >= 8
                    && m.indirect == all.indirect)
            &&& all.struct_absence == zero || exists|k: int|
                0 <= k < ms.len() && (#[trigger] ms[k] matches Some(m) && m.max_blocks >= 8
                    && m.struct_absence == all.struct_absence)
        }),
{
    lemma_summary_attained(ms, ms.len() as int);
}

} // verus!
