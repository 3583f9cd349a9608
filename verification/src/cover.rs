//! The heaviest set of instructions of which no two overlap.

use vstd::prelude::*;

use crate::order::{comes_first, is_order, stable_order};
use crate::superset::Superset;

verus! {

/// The bytes that an instruction would take.
#[derive(Debug, Clone, Copy, PartialEq, Eq, Structural)]
pub struct Interval {
    /// The first byte.
    pub start: u64,
    /// The byte behind the last.
    pub end: u64,
}

/// The intervals of what decodes among the first `k` offsets.
pub open spec fn intervals_below(s: Superset, k: int) -> Seq<Interval>
    decreases k,
{
    if k <= 0 {
        Seq::empty()
    } else if s.valid(k - 1) && s.insn(k - 1).size > 0 {
        let i = s.insn(k - 1);
        intervals_below(s, k - 1).push(
            Interval { start: i.address, end: (i.address + i.size) as u64 },
        )
    } else {
        intervals_below(s, k - 1)
    }
}

/// The intervals of everything that decodes, by address.
pub fn intervals(s: &Superset) -> (r: Vec<Interval>)
    requires
        s.wf(),
    ensures
        r@ == intervals_below(*s, s.spec_len()),
        forall|i: int| 0 <= i < r@.len() ==> (#[trigger] r@[i]).start < r@[i].end,
{
    let mut out: Vec<Interval> = Vec::new();
    let mut k: usize = 0;
    while k < s.instructions.len()
        invariant
            s.wf(),
            k <= s.instructions@.len(),
            out@ == intervals_below(*s, k as int),
            forall|i: int| 0 <= i < out@.len() ==> (#[trigger] out@[i]).start < out@[i].end,
        decreases s.instructions@.len() - k,
    {
        if let Some(i) = &s.instructions[k] {
            proof {
                assert(s.valid(k as int));
            }
            if i.size > 0 {
                out.push(Interval { start: i.address, end: i.address + i.size as u64 });
            }
        }
        k += 1;
    }
    out
}

/// Where each interval ends.
pub open spec fn ends_of(v: Seq<Interval>) -> Seq<u64> {
    v.map_values(|x: Interval| x.end)
}

/// No interval is empty.
pub open spec fn are_proper(v: Seq<Interval>) -> bool {
    forall|i: int| 0 <= i < v.len() ==> (#[trigger] v[i]).start < v[i].end
}

/// How many of the first `k` intervals, in the order `o`, end by `start`, where
/// `o` goes by their ends.
pub open spec fn ended_by(v: Seq<Interval>, o: Seq<usize>, start: u64, k: int) -> int
    decreases k,
{
    if k <= 0 {
        0
    } else if v[o[k - 1] as int].end <= start {
        k
    } else {
        ended_by(v, o, start, k - 1)
    }
}

/// What is counted is a prefix: nothing behind it ends by `start`.
pub proof fn lemma_ended_by(v: Seq<Interval>, o: Seq<usize>, start: u64, k: int)
    requires
        0 <= k,
    ensures
        0 <= ended_by(v, o, start, k) <= k,
        forall|p: int|
            ended_by(v, o, start, k) <= p < k ==> v[(#[trigger] o[p]) as int].end > start,
        ended_by(v, o, start, k) > 0 ==> v[o[ended_by(v, o, start, k) - 1] as int].end <= start,
    decreases k,
{
    if k > 0 && v[o[k - 1] as int].end > start {
        lemma_ended_by(v, o, start, k - 1);
    }
}

/// The most that a set drawn from the first `k` intervals, in the order `o`, can
/// weigh.
pub open spec fn best(v: Seq<Interval>, w: Seq<i64>, o: Seq<usize>, k: int) -> int
    decreases k,
{
    if k <= 0 {
        0
    } else {
        proof {
            lemma_ended_by(v, o, v[o[k - 1] as int].start, k - 1);
        }
        let with = w[o[k - 1] as int] + best(
            v,
            w,
            o,
            ended_by(v, o, v[o[k - 1] as int].start, k - 1),
        );
        let without = best(v, w, o, k - 1);
        if with > without {
            with
        } else {
            without
        }
    }
}

/// Whether the last of the first `k` intervals belongs to the heaviest set.
pub open spec fn is_taken(v: Seq<Interval>, w: Seq<i64>, o: Seq<usize>, k: int) -> bool {
    w[o[k - 1] as int] + best(v, w, o, ended_by(v, o, v[o[k - 1] as int].start, k - 1)) > best(
        v,
        w,
        o,
        k - 1,
    )
}

/// The heaviest set drawn from the first `k` intervals, from the highest down.
/// Of two sets of one weight it is the one without the later interval.
pub open spec fn chosen(v: Seq<Interval>, w: Seq<i64>, o: Seq<usize>, k: int) -> Seq<usize>
    decreases k,
{
    if k <= 0 {
        Seq::empty()
    } else {
        proof {
            lemma_ended_by(v, o, v[o[k - 1] as int].start, k - 1);
        }
        if is_taken(v, w, o, k) {
            seq![o[k - 1]] + chosen(v, w, o, ended_by(v, o, v[o[k - 1] as int].start, k - 1))
        } else {
            chosen(v, w, o, k - 1)
        }
    }
}

/// The indices `q` name intervals that do not overlap, from the highest down.
pub open spec fn is_apart(v: Seq<Interval>, q: Seq<usize>) -> bool {
    &&& forall|i: int| 0 <= i < q.len() ==> (#[trigger] q[i]) < v.len()
    &&& forall|i: int, j: int|
        0 <= i < j < q.len() ==> v[(#[trigger] q[j]) as int].end <= v[(#[trigger] q[i]) as int].start
}

/// What the intervals named by `q` weigh together.
pub open spec fn weight_of(w: Seq<i64>, q: Seq<usize>) -> int
    decreases q.len(),
{
    if q.len() == 0 {
        0
    } else {
        w[q[0] as int] + weight_of(w, q.drop_first())
    }
}

/// Every index of `q` is among the first `k` of `o`.
pub open spec fn among(o: Seq<usize>, q: Seq<usize>, k: int) -> bool {
    forall|i: int| 0 <= i < q.len() ==> o.take(k).contains(#[trigger] q[i])
}

proof fn lemma_chosen(v: Seq<Interval>, w: Seq<i64>, o: Seq<usize>, k: int)
    requires
        is_order(ends_of(v), o),
        are_proper(v),
        w.len() == v.len(),
        0 <= k <= o.len(),
    ensures
        is_apart(v, chosen(v, w, o, k)),
        among(o, chosen(v, w, o, k), k),
        weight_of(w, chosen(v, w, o, k)) == best(v, w, o, k),
        best(v, w, o, k) >= 0,
    decreases k,
{
    if k > 0 {
        let i = o[k - 1];
        let m = ended_by(v, o, v[i as int].start, k - 1);
        lemma_ended_by(v, o, v[i as int].start, k - 1);
        lemma_chosen(v, w, o, k - 1);
        let all = chosen(v, w, o, k);
        assert(o.take(k)[k - 1] == i);
        if is_taken(v, w, o, k) {
            lemma_chosen(v, w, o, m);
            let rest = chosen(v, w, o, m);
            assert(all.drop_first() =~= rest);
            assert forall|j: int| 0 <= j < all.len() implies o.take(k).contains(
                #[trigger] all[j],
            ) by {
                if j > 0 {
                    assert(all[j] == rest[j - 1]);
                    let p = choose|p: int| 0 <= p < o.take(m).len() && o.take(m)[p] == rest[j - 1];
                    assert(o.take(k)[p] == rest[j - 1]);
                }
            }
            assert forall|a: int, b: int| 0 <= a < b < all.len() implies v[(
            #[trigger] all[b]) as int].end <= v[(#[trigger] all[a]) as int].start by {
                assert(all[b] == rest[b - 1]);
                if a > 0 {
                    assert(all[a] == rest[a - 1]);
                } else {
                    let p = choose|p: int| 0 <= p < o.take(m).len() && o.take(m)[p] == rest[b - 1];
                    if p < m - 1 {
                        assert(comes_first(ends_of(v), o[p], o[m - 1]));
                    }
                    assert(ends_of(v)[o[p] as int] == v[o[p] as int].end);
                    assert(ends_of(v)[o[m - 1] as int] == v[o[m - 1] as int].end);
                }
            }
            assert forall|j: int| 0 <= j < all.len() implies (#[trigger] all[j]) < v.len() by {
                if j > 0 {
                    assert(all[j] == rest[j - 1]);
                }
            }
        } else {
            assert forall|j: int| 0 <= j < all.len() implies o.take(k).contains(
                #[trigger] all[j],
            ) by {
                let t = o.take(k - 1);
                assert(t.contains(all[j]));
                let p = choose|p: int| 0 <= p < t.len() && t[p] == all[j];
                assert(o.take(k)[p] == all[j]);
            }
        }
    }
}

proof fn lemma_best_is_most(
    v: Seq<Interval>,
    w: Seq<i64>,
    o: Seq<usize>,
    q: Seq<usize>,
    k: int,
)
    requires
        is_order(ends_of(v), o),
        are_proper(v),
        w.len() == v.len(),
        0 <= k <= o.len(),
        is_apart(v, q),
        among(o, q, k),
    ensures
        weight_of(w, q) <= best(v, w, o, k),
    decreases k,
{
    lemma_chosen(v, w, o, k);
    if q.len() > 0 {
        assert(o.take(k).contains(q[0]));
        let at = choose|p: int| 0 <= p < o.take(k).len() && o.take(k)[p] == q[0];
        assert(k > 0);
        let i = o[k - 1];
        let m = ended_by(v, o, v[i as int].start, k - 1);
        lemma_ended_by(v, o, v[i as int].start, k - 1);
        if q[0] == i {
            let rest = q.drop_first();
            assert forall|j: int| 0 <= j < rest.len() implies o.take(m).contains(
                #[trigger] rest[j],
            ) by {
                assert(rest[j] == q[j + 1]);
                let p = choose|p: int| 0 <= p < o.take(k).len() && o.take(k)[p] == q[j + 1];
                assert(v[q[j + 1] as int].end <= v[q[0] as int].start);
                assert(v[i as int].start < v[i as int].end);
                assert(p < k - 1);
                if p >= m {
                    assert(v[o[p] as int].end > v[i as int].start);
                }
                assert(o.take(m)[p] == rest[j]);
            }
            assert forall|a: int, b: int| 0 <= a < b < rest.len() implies v[(
            #[trigger] rest[b]) as int].end <= v[(#[trigger] rest[a]) as int].start by {
                assert(rest[b] == q[b + 1] && rest[a] == q[a + 1]);
            }
            assert forall|j: int| 0 <= j < rest.len() implies (#[trigger] rest[j]) < v.len() by {
                assert(rest[j] == q[j + 1]);
            }
            lemma_best_is_most(v, w, o, rest, m);
        } else {
            assert forall|j: int| 0 <= j < q.len() implies o.take(k - 1).contains(
                #[trigger] q[j],
            ) by {
                let p = choose|p: int| 0 <= p < o.take(k).len() && o.take(k)[p] == q[j];
                if p == k - 1 {
                    assert(j > 0);
                    assert(at < k - 1);
                    assert(comes_first(ends_of(v), o[at], o[k - 1]));
                    assert(ends_of(v)[o[at] as int] == v[q[0] as int].end);
                    assert(ends_of(v)[o[k - 1] as int] == v[q[j] as int].end);
                    assert(v[q[j] as int].end <= v[q[0] as int].start);
                    assert(v[q[0] as int].start < v[q[0] as int].end);
                }
                assert(o.take(k - 1)[p] == q[j]);
            }
            lemma_best_is_most(v, w, o, q, k - 1);
        }
    }
}

/// No set of intervals that do not overlap weighs more than the chosen one.
pub proof fn law_cover_is_heaviest(
    v: Seq<Interval>,
    w: Seq<i64>,
    o: Seq<usize>,
    q: Seq<usize>,
)
    requires
        is_order(ends_of(v), o),
        are_proper(v),
        w.len() == v.len(),
        is_apart(v, q),
    ensures
        is_apart(v, chosen(v, w, o, v.len() as int)),
        weight_of(w, q) <= weight_of(w, chosen(v, w, o, v.len() as int)),
{
    let n = v.len() as int;
    lemma_chosen(v, w, o, n);
    assert(o.take(n) =~= o);
    assert forall|i: int| 0 <= i < q.len() implies o.take(n).contains(#[trigger] q[i]) by {
        assert(q[i] < ends_of(v).len());
    }
    lemma_best_is_most(v, w, o, q, n);
}

/// Intervals in the order of their ends, with how many of them end by the start
/// of each.
#[derive(Debug)]
pub struct Plan {
    /// The intervals, by their ends.
    pub order: Vec<usize>,
    /// For each place in that order, how many intervals end by its start.
    pub before: Vec<usize>,
}

impl Plan {
    /// Whether this is the plan of the intervals `v`.
    pub open spec fn is_plan(self, v: Seq<Interval>) -> bool {
        &&& is_order(ends_of(v), self.order@)
        &&& self.before@.len() == v.len()
        &&& forall|j: int|
            0 <= j < v.len() ==> (#[trigger] self.before@[j]) == ended_by(
                v,
                self.order@,
                v[self.order@[j] as int].start,
                j,
            )
    }

    /// Plans the intervals `v`.
    pub fn new(v: &Vec<Interval>) -> (r: Plan)
        ensures
            r.is_plan(v@),
    {
        let n: usize = v.len();
        let mut ends: Vec<u64> = Vec::new();
        let mut k: usize = 0;
        while k < n
            invariant
                n == v@.len(),
                k <= n,
                ends@ == ends_of(v@).take(k as int),
            decreases n - k,
        {
            ends.push(v[k].end);
            proof {
                assert(ends@ =~= ends_of(v@).take(k + 1));
            }
            k += 1;
        }
        proof {
            assert(ends@ =~= ends_of(v@));
        }
        let order: Vec<usize> = stable_order(&ends);
        let mut before: Vec<usize> = Vec::new();
        let mut j: usize = 0;
        while j < n
            invariant
                n == v@.len(),
                j <= n,
                order@.len() == n,
                is_order(ends_of(v@), order@),
                before@.len() == j,
                forall|i: int|
                    0 <= i < j ==> (#[trigger] before@[i]) == ended_by(
                        v@,
                        order@,
                        v@[order@[i] as int].start,
                        i,
                    ),
            decreases n - j,
        {
            proof {
                assert(order@[j as int] < ends_of(v@).len());
            }
            let start: u64 = v[order[j]].start;
            let mut p: usize = j;
            let mut done: bool = false;
            while !done && p > 0
                invariant
                    n == v@.len(),
                    j < n,
                    p <= j,
                    order@.len() == n,
                    is_order(ends_of(v@), order@),
                    done ==> ended_by(v@, order@, start, j as int) == p,
                    !done ==> ended_by(v@, order@, start, j as int) == ended_by(
                        v@,
                        order@,
                        start,
                        p as int,
                    ),
                decreases p, if done {
                    0int
                } else {
                    1int
                },
            {
                proof {
                    assert(order@[p - 1] < ends_of(v@).len());
                }
                if v[order[p - 1]].end <= start {
                    done = true;
                } else {
                    p -= 1;
                }
            }
            before.push(p);
            j += 1;
        }
        Plan { order, before }
    }
}

/// The heaviest set of intervals of which no two overlap, as indices into `v`,
/// from the highest down. `w` holds their weights.
pub fn cover(v: &Vec<Interval>, plan: &Plan, w: &Vec<i64>) -> (r: Vec<usize>)
    requires
        plan.is_plan(v@),
        are_proper(v@),
        w@.len() == v@.len(),
    ensures
        r@ == chosen(v@, w@, plan.order@, v@.len() as int),
        is_apart(v@, r@),
        forall|q: Seq<usize>| #[trigger] is_apart(v@, q) ==> weight_of(w@, q) <= weight_of(w@, r@),
{
    let n: usize = v.len();
    let ghost o = plan.order@;
    let mut most: Vec<i128> = Vec::new();
    let mut taken: Vec<bool> = Vec::new();
    most.push(0);
    let mut k: usize = 0;
    while k < n
        invariant
            n == v@.len(),
            k <= n,
            o == plan.order@,
            plan.is_plan(v@),
            o.len() == n,
            w@.len() == n,
            most@.len() == k + 1,
            taken@.len() == k,
            forall|i: int| 0 <= i <= k ==> (#[trigger] most@[i]) == best(v@, w@, o, i),
            forall|i: int| 0 <= i <= k ==> 0 <= (#[trigger] most@[i]) <= i * 0x7fff_ffff_ffff_ffff,
            forall|i: int| 0 <= i < k ==> (#[trigger] taken@[i]) == is_taken(v@, w@, o, i + 1),
        decreases n - k,
    {
        proof {
            assert(o[k as int] < ends_of(v@).len());
            lemma_ended_by(v@, o, v@[o[k as int] as int].start, k as int);
        }
        let i: usize = plan.order[k];
        let b: usize = plan.before[k];
        proof {
            assert(b <= k);
            assert(most@[b as int] <= b * 0x7fff_ffff_ffff_ffff);
            assert(most@[k as int] <= k * 0x7fff_ffff_ffff_ffff);
            assert(k * 0x7fff_ffff_ffff_ffff <= 0xffff_ffff_ffff_ffff * 0x7fff_ffff_ffff_ffff);
        }
        let with: i128 = w[i] as i128 + most[b];
        let without: i128 = most[k];
        if with > without {
            most.push(with);
            taken.push(true);
        } else {
            most.push(without);
            taken.push(false);
        }
        k += 1;
    }
    let mut out: Vec<usize> = Vec::new();
    let mut j: usize = n;
    proof {
        assert(out@ + chosen(v@, w@, o, n as int) =~= chosen(v@, w@, o, n as int));
    }
    while j > 0
        invariant
            n == v@.len(),
            j <= n,
            o == plan.order@,
            plan.is_plan(v@),
            o.len() == n,
            w@.len() == n,
            taken@.len() == n,
            forall|i: int| 0 <= i < n ==> (#[trigger] taken@[i]) == is_taken(v@, w@, o, i + 1),
            out@ + chosen(v@, w@, o, j as int) == chosen(v@, w@, o, n as int),
        decreases j,
    {
        let ghost before_out = out@;
        proof {
            lemma_ended_by(v@, o, v@[o[j - 1] as int].start, j - 1);
        }
        if taken[j - 1] {
            out.push(plan.order[j - 1]);
            let b: usize = plan.before[j - 1];
            proof {
                assert(is_taken(v@, w@, o, j as int));
                assert(chosen(v@, w@, o, j as int) == seq![o[j - 1]] + chosen(
                    v@,
                    w@,
                    o,
                    b as int,
                ));
                assert(out@ + chosen(v@, w@, o, b as int) =~= before_out + (seq![o[j - 1]]
                    + chosen(v@, w@, o, b as int)));
            }
            j = b;
        } else {
            proof {
                assert(!is_taken(v@, w@, o, j as int));
            }
            j -= 1;
        }
    }
    proof {
        assert(out@ =~= chosen(v@, w@, o, n as int));
        lemma_chosen(v@, w@, o, n as int);
        assert forall|q: Seq<usize>| #[trigger] is_apart(v@, q) implies weight_of(w@, q)
            <= weight_of(w@, out@) by {
            law_cover_is_heaviest(v@, w@, o, q);
        }
    }
    out
}

proof fn lemma_intervals(s: Superset, k: int, x: Interval)
    requires
        0 <= k <= s.spec_len(),
    ensures
        intervals_below(s, k).contains(x) <==> exists|o: int|
            0 <= o < k && (#[trigger] s.instructions@[o] matches Some(i) && i.size > 0 && x
                == (Interval { start: i.address, end: (i.address + i.size) as u64 })),
    decreases k,
{
    if k > 0 {
        lemma_intervals(s, k - 1, x);
        if let Some(i) = s.instructions@[k - 1] {
            vstd::seq_lib::lemma_seq_contains_after_push(
                intervals_below(s, k - 1),
                Interval { start: i.address, end: (i.address + i.size) as u64 },
                x,
            );
        }
    }
}

/// The intervals are the bytes of every instruction that takes any.
pub proof fn law_intervals_of_instructions(s: Superset, x: Interval)
    ensures
        intervals_below(s, s.spec_len()).contains(x) <==> exists|o: int|
            0 <= o < s.instructions@.len() && (#[trigger] s.instructions@[o] matches Some(i)
                && i.size > 0 && x.start == i.address && x.end == (i.address + i.size) as u64),
{
    lemma_intervals(s, s.spec_len(), x);
    if exists|o: int|
        0 <= o < s.instructions@.len() && (#[trigger] s.instructions@[o] matches Some(i) && i.size
            > 0 && x.start == i.address && x.end == (i.address + i.size) as u64) {
        let o = choose|o: int|
            0 <= o < s.instructions@.len() && (#[trigger] s.instructions@[o] matches Some(i)
                && i.size > 0 && x.start == i.address && x.end == (i.address + i.size) as u64);
        let i = s.instructions@[o]->0;
        assert(x == (Interval { start: i.address, end: (i.address + i.size) as u64 }));
    }
}

/// No byte belongs to two of the chosen intervals.
pub proof fn law_chosen_share_no_byte(
    v: Seq<Interval>,
    w: Seq<i64>,
    o: Seq<usize>,
    i: int,
    j: int,
    x: u64,
)
    requires
        is_order(ends_of(v), o),
        are_proper(v),
        w.len() == v.len(),
        0 <= i < j < chosen(v, w, o, v.len() as int).len(),
    ensures
        ({
            let c = chosen(v, w, o, v.len() as int);
            !(v[c[i] as int].start <= x < v[c[i] as int].end && v[c[j] as int].start <= x
                < v[c[j] as int].end)
        }),
{
    let c = chosen(v, w, o, v.len() as int);
    law_cover_is_heaviest(v, w, o, Seq::empty());
    assert(v[c[j] as int].end <= v[c[i] as int].start);
}

/// Weights add up, and two intervals that do not overlap may be taken together.
pub proof fn law_weights_add_up(v: Seq<Interval>, w: Seq<i64>, a: usize, b: usize)
    requires
        a < v.len(),
        b < v.len(),
        w.len() == v.len(),
    ensures
        weight_of(w, Seq::empty()) == 0,
        weight_of(w, seq![a]) == w[a as int],
        weight_of(w, seq![a, b]) == w[a as int] + w[b as int],
        is_apart(v, seq![a]),
        v[b as int].end <= v[a as int].start ==> is_apart(v, seq![a, b]),
{
    reveal_with_fuel(weight_of, 3);
    assert(seq![a].drop_first() =~= Seq::empty());
    assert(seq![a, b].drop_first() =~= seq![b]);
    assert(seq![b].drop_first() =~= Seq::empty());
}

proof fn lemma_nothing_to_gain(v: Seq<Interval>, w: Seq<i64>, o: Seq<usize>, k: int)
    requires
        0 <= k <= o.len(),
        forall|i: int| 0 <= i < o.len() ==> w[#[trigger] o[i] as int] <= 0,
    ensures
        best(v, w, o, k) == 0,
        chosen(v, w, o, k) == Seq::<usize>::empty(),
    decreases k,
{
    if k > 0 {
        lemma_ended_by(v, o, v[o[k - 1] as int].start, k - 1);
        lemma_nothing_to_gain(v, w, o, k - 1);
        lemma_nothing_to_gain(v, w, o, ended_by(v, o, v[o[k - 1] as int].start, k - 1));
        assert(w[o[k - 1] as int] <= 0);
    }
}

/// Nothing is chosen where no interval weighs more than nothing.
pub proof fn law_nothing_light_is_chosen(v: Seq<Interval>, w: Seq<i64>, o: Seq<usize>)
    requires
        is_order(ends_of(v), o),
        w.len() == v.len(),
        forall|i: int| 0 <= i < w.len() ==> #[trigger] w[i] <= 0,
    ensures
        chosen(v, w, o, v.len() as int).len() == 0,
{
    lemma_nothing_to_gain(v, w, o, v.len() as int);
}

} // verus!
