//! Evidence transport: hints flow along control flow until nothing changes.

use vstd::prelude::*;
use vstd::slice::slice_to_vec;

use crate::hints::{HintKey, Hints};
use crate::idset::IdSet;
use crate::superset::Superset;

verus! {

/// How many sweeps a transport takes at most.
pub const MAX_SWEEPS: usize = 100;

// ── Predecessors ───────────────────────────────────────────────────────────

/// `o` once for every occurrence of `t` in `succ`.
pub open spec fn copies(succ: Seq<u64>, t: int, o: int) -> Seq<int>
    decreases succ.len(),
{
    if succ.len() == 0 {
        Seq::empty()
    } else if succ.last() == t {
        copies(succ.drop_last(), t, o).push(o)
    } else {
        copies(succ.drop_last(), t, o)
    }
}

/// The offsets below `n` from which control goes to address `t`, in order. An
/// instruction that goes there twice is listed twice.
pub open spec fn preds_below(s: Superset, t: int, n: int) -> Seq<int>
    decreases n,
{
    if n <= 0 {
        Seq::empty()
    } else {
        preds_below(s, t, n - 1) + copies(s.successors(s.addr(n - 1)), t, n - 1)
    }
}

/// A vector of offsets as mathematical integers.
pub open spec fn offsets(v: Seq<usize>) -> Seq<int> {
    v.map_values(|x: usize| x as int)
}

/// For each offset the offsets that control comes from.
pub fn build_predecessor_map(s: &Superset) -> (r: Vec<Vec<usize>>)
    requires
        s.wf(),
    ensures
        r@.len() == s.spec_len(),
        forall|t: int|
            0 <= t < s.spec_len() ==> offsets((#[trigger] r@[t])@) == preds_below(
                *s,
                s.addr(t),
                s.spec_len(),
            ),
{
    let n: usize = s.instructions.len();
    let mut map: Vec<Vec<usize>> = Vec::new();
    let mut k: usize = 0;
    while k < n
        invariant
            k <= n,
            map@.len() == k,
            forall|t: int| 0 <= t < k ==> (#[trigger] map@[t])@.len() == 0,
        decreases n - k,
    {
        map.push(Vec::new());
        k += 1;
    }
    let mut o: usize = 0;
    proof {
        assert forall|t: int| 0 <= t < n implies offsets((#[trigger] map@[t])@) == preds_below(
            *s,
            s.addr(t),
            0,
        ) by {
            assert(offsets(map@[t]@) =~= Seq::empty());
        }
    }
    while o < n
        invariant
            o <= n,
            n == s.instructions@.len(),
            s.wf(),
            map@.len() == n,
            forall|t: int|
                0 <= t < n ==> offsets((#[trigger] map@[t])@) == preds_below(
                    *s,
                    s.addr(t),
                    o as int,
                ),
        decreases n - o,
    {
        let addr: u64 = s.base_addr + o as u64;
        let succ: Vec<u64> = s.successors_of(addr);
        let ghost before = map@;
        let mut k: usize = 0;
        proof {
            assert forall|t: int| 0 <= t < n implies offsets((#[trigger] map@[t])@) == offsets(
                before[t]@,
            ) + copies(succ@.take(0), s.addr(t), o as int) by {
                assert(copies(succ@.take(0), s.addr(t), o as int) =~= Seq::empty());
            }
        }
        while k < succ.len()
            invariant
                k <= succ@.len(),
                o < n,
                n == s.instructions@.len(),
                map@.len() == n,
                s.wf(),
                forall|t: int|
                    0 <= t < n ==> offsets((#[trigger] map@[t])@) == offsets(before[t]@) + copies(
                        succ@.take(k as int),
                        s.addr(t),
                        o as int,
                    ),
            decreases succ@.len() - k,
        {
            let ghost start = map@;
            let a: u64 = succ[k];
            proof {
                assert(succ@.take(k + 1).drop_last() =~= succ@.take(k as int));
            }
            if a >= s.base_addr && a - s.base_addr < n as u64 {
                let to: usize = (a - s.base_addr) as usize;
                map[to].push(o);
                proof {
                    assert(offsets(map@[to as int]@) =~= offsets(start[to as int]@).push(o as int));
                }
            }
            proof {
                assert forall|t: int| 0 <= t < n implies offsets((#[trigger] map@[t])@) == offsets(
                    before[t]@,
                ) + copies(succ@.take(k + 1), s.addr(t), o as int) by {
                    assert(offsets(start[t]@) == offsets(before[t]@) + copies(
                        succ@.take(k as int),
                        s.addr(t),
                        o as int,
                    ));
                    assert(offsets(map@[t]@) =~= offsets(before[t]@) + copies(
                        succ@.take(k + 1),
                        s.addr(t),
                        o as int,
                    ));
                }
            }
            k += 1;
        }
        proof {
            assert(succ@.take(k as int) =~= succ@);
            assert forall|t: int| 0 <= t < n implies offsets((#[trigger] map@[t])@) == preds_below(
                *s,
                s.addr(t),
                o + 1,
            ) by {
                assert(offsets(before[t]@) == preds_below(*s, s.addr(t), o as int));
            }
        }
        o += 1;
    }
    map
}

// ── Local hints ────────────────────────────────────────────────────────────

/// The numbers, below `k`, of the hints that stand at address `a`.
pub open spec fn ids_at(keys: Seq<HintKey>, a: int, k: int) -> Seq<u64>
    decreases k,
{
    if k <= 0 {
        Seq::empty()
    } else if keys[k - 1].source_addr == a {
        ids_at(keys, a, k - 1).push((k - 1) as u64)
    } else {
        ids_at(keys, a, k - 1)
    }
}

/// The hint numbers at each offset of a region.
pub open spec fn is_grouping(
    local: Seq<Vec<u64>>,
    keys: Seq<HintKey>,
    base: u64,
    n: int,
    k: int,
) -> bool {
    &&& local.len() == n
    &&& forall|o: int| 0 <= o < n ==> (#[trigger] local[o])@ == ids_at(keys, base + o, k)
}

/// Groups hints by the offset at which they stand. A hint is known by its
/// position in the list; hints outside the region are left out.
pub fn group_hints_by_source(hints: &Hints, s: &Superset) -> (r: Vec<Vec<u64>>)
    requires
        s.wf(),
    ensures
        is_grouping(
            r@,
            hints.listed(),
            s.base_addr,
            s.spec_len(),
            hints.listed().len() as int,
        ),
{
    let n: usize = s.instructions.len();
    let mut local: Vec<Vec<u64>> = Vec::new();
    let mut o: usize = 0;
    while o < n
        invariant
            o <= n,
            local@.len() == o,
            forall|t: int| 0 <= t < o ==> (#[trigger] local@[t])@ == Seq::<u64>::empty(),
        decreases n - o,
    {
        local.push(Vec::new());
        o += 1;
    }
    let keys: &Vec<HintKey> = hints.keys();
    let mut k: usize = 0;
    while k < keys.len()
        invariant
            k <= keys@.len(),
            n == s.instructions@.len(),
            is_grouping(local@, keys@, s.base_addr, n as int, k as int),
        decreases keys@.len() - k,
    {
        let ghost before = local@;
        let a: u64 = keys[k].source_addr;
        if a >= s.base_addr && a - s.base_addr < n as u64 {
            local[(a - s.base_addr) as usize].push(k as u64);
        }
        proof {
            assert forall|t: int| 0 <= t < n implies (#[trigger] local@[t])@ == ids_at(
                keys@,
                s.base_addr + t,
                k + 1,
            ) by {
                assert(before[t]@ == ids_at(keys@, s.base_addr + t, k as int));
            }
        }
        k += 1;
    }
    local
}

// ── Sweeps ─────────────────────────────────────────────────────────────────

/// Adds `ids` to what reaches offset `o`.
pub open spec fn absorb(r: Seq<Set<u64>>, o: int, ids: Set<u64>) -> Seq<Set<u64>> {
    r.update(o, r[o].union(ids))
}

/// Whether address `a` lies in the region at an offset that takes hints.
pub open spec fn takes(s: Superset, blocked: Seq<bool>, a: u64) -> bool {
    s.base_addr <= a < s.base_addr + s.spec_len() && !blocked[a - s.base_addr]
}

/// Hands `ids` on to every address in `succ` that takes hints.
pub open spec fn hand_on(
    s: Superset,
    blocked: Seq<bool>,
    r: Seq<Set<u64>>,
    ids: Set<u64>,
    succ: Seq<u64>,
) -> Seq<Set<u64>>
    decreases succ.len(),
{
    if succ.len() == 0 {
        r
    } else {
        let before = hand_on(s, blocked, r, ids, succ.drop_last());
        if takes(s, blocked, succ.last()) {
            absorb(before, succ.last() - s.base_addr, ids)
        } else {
            before
        }
    }
}

/// One offset of a sweep: it takes up its own hints, and hands all that has
/// reached it on to its successors.
pub open spec fn sweep_step(
    s: Superset,
    blocked: Seq<bool>,
    local: Seq<Set<u64>>,
    r: Seq<Set<u64>>,
    o: int,
) -> Seq<Set<u64>> {
    if blocked[o] {
        r
    } else {
        let own = absorb(r, o, local[o]);
        hand_on(s, blocked, own, own[o], s.successors(s.addr(o)))
    }
}

/// A sweep over the offsets below `n`, in order.
pub open spec fn sweep_below(
    s: Superset,
    blocked: Seq<bool>,
    local: Seq<Set<u64>>,
    r: Seq<Set<u64>>,
    n: int,
) -> Seq<Set<u64>>
    decreases n,
{
    if n <= 0 {
        r
    } else {
        sweep_step(s, blocked, local, sweep_below(s, blocked, local, r, n - 1), n - 1)
    }
}

/// A full sweep.
pub open spec fn sweep(
    s: Superset,
    blocked: Seq<bool>,
    local: Seq<Set<u64>>,
    r: Seq<Set<u64>>,
) -> Seq<Set<u64>> {
    sweep_below(s, blocked, local, r, s.spec_len())
}

/// `k` full sweeps.
pub open spec fn sweeps(
    s: Superset,
    blocked: Seq<bool>,
    local: Seq<Set<u64>>,
    r: Seq<Set<u64>>,
    k: nat,
) -> Seq<Set<u64>>
    decreases k,
{
    if k == 0 {
        r
    } else {
        sweeps(s, blocked, local, sweep(s, blocked, local, r), (k - 1) as nat)
    }
}

/// The sets of a vector.
pub open spec fn id_sets(v: Seq<IdSet>) -> Seq<Set<u64>> {
    Seq::new(v.len(), |i: int| v[i]@)
}

/// The contents of a vector of lists.
pub open spec fn list_sets(v: Seq<Vec<u64>>) -> Seq<Set<u64>> {
    Seq::new(v.len(), |i: int| v[i]@.to_set())
}

/// The hints that have reached each offset so far.
pub struct Reaching {
    sets: Vec<IdSet>,
}

impl View for Reaching {
    type V = Seq<Set<u64>>;

    closed spec fn view(&self) -> Seq<Set<u64>> {
        id_sets(self.sets@)
    }
}

/// What a sweep changed.
pub struct Sweep {
    /// Whether any offset was reached by a new hint.
    pub changed: bool,
    /// Which offsets were.
    pub grown: Vec<bool>,
}

/// `now` is `was` with hints added, and `grown` marks where.
pub open spec fn tracks(grown: Seq<bool>, was: Seq<Set<u64>>, now: Seq<Set<u64>>) -> bool {
    &&& grown.len() == was.len()
    &&& now.len() == was.len()
    &&& forall|o: int| 0 <= o < was.len() ==> (#[trigger] was[o]).subset_of(now[o])
    &&& forall|o: int| 0 <= o < was.len() ==> (#[trigger] grown[o] <==> was[o] != now[o])
}

impl Reaching {
    /// Every set is well-formed.
    pub closed spec fn wf(self) -> bool {
        forall|i: int| 0 <= i < self.sets@.len() ==> (#[trigger] self.sets@[i]).wf()
    }

    /// Nothing has reached any of `n` offsets.
    pub fn new(n: usize) -> (r: Reaching)
        ensures
            r.wf(),
            r@ == Seq::new(n as nat, |i: int| Set::<u64>::empty()),
    {
        let mut sets: Vec<IdSet> = Vec::new();
        let mut k: usize = 0;
        while k < n
            invariant
                k <= n,
                sets@.len() == k,
                forall|i: int|
                    0 <= i < k ==> (#[trigger] sets@[i]).wf() && sets@[i]@ == Set::<u64>::empty(),
            decreases n - k,
        {
            sets.push(IdSet::new());
            k += 1;
        }
        let r: Reaching = Reaching { sets };
        proof {
            assert(r@ =~= Seq::new(n as nat, |i: int| Set::<u64>::empty()));
        }
        r
    }

    /// The hints that have reached offset `o`, each once.
    pub fn at(&self, o: usize) -> (r: &Vec<u64>)
        requires
            self.wf(),
            o < self@.len(),
        ensures
            r@.to_set() == self@[o as int],
            r@.no_duplicates(),
    {
        proof {
            assert(self.sets@[o as int].wf());
            self.sets@[o as int].lemma_listed();
        }
        self.sets[o].items()
    }

    /// Adds hints at one offset and says whether any was new.
    fn merge_reaching_hints(&mut self, o: usize, ids: &Vec<u64>) -> (changed: bool)
        requires
            old(self).wf(),
            o < old(self)@.len(),
        ensures
            final(self).wf(),
            final(self)@ == absorb(old(self)@, o as int, ids@.to_set()),
            changed <==> final(self)@[o as int] != old(self)@[o as int],
    {
        let ghost start = self@;
        let mut changed: bool = false;
        let mut k: usize = 0;
        proof {
            assert(ids@.take(0).to_set() =~= Set::empty());
            assert(self@ =~= absorb(start, o as int, ids@.take(0).to_set())) by {
                assert(start[o as int].union(Set::empty()) =~= start[o as int]);
            }
        }
        while k < ids.len()
            invariant
                k <= ids@.len(),
                self.wf(),
                o < start.len(),
                self@ == absorb(start, o as int, ids@.take(k as int).to_set()),
                changed <==> self@[o as int] != start[o as int],
            decreases ids@.len() - k,
        {
            let ghost before = self@;
            let ghost was = self.sets@;
            proof {
                assert(self@.len() == start.len());
                assert(was[o as int].wf());
            }
            let fresh: bool = self.sets[o].insert(ids[k]);
            if fresh {
                changed = true;
            }
            proof {
                assert(self.sets@.len() == was.len());
                assert(self@ =~= before.update(o as int, before[o as int].insert(ids@[k as int])));
                assert(ids@.take(k + 1).to_set() =~= ids@.take(k as int).to_set().insert(
                    ids@[k as int],
                )) by {
                    lemma_take_set(ids@, k as int);
                }
                let t = ids@.take(k as int).to_set();
                assert(start[o as int].union(t).insert(ids@[k as int]) =~= start[o as int].union(
                    t.insert(ids@[k as int]),
                ));
                assert(self@ =~= absorb(start, o as int, ids@.take(k + 1).to_set()));
                if fresh {
                    assert(self@[o as int].contains(ids@[k as int]));
                    assert(!before[o as int].contains(ids@[k as int]));
                    assert(!start[o as int].contains(ids@[k as int]));
                } else {
                    assert(self@[o as int] =~= before[o as int]);
                }
            }
            k += 1;
        }
        proof {
            assert(ids@.take(k as int) =~= ids@);
        }
        changed
    }
}

proof fn lemma_take_set(v: Seq<u64>, k: int)
    requires
        0 <= k < v.len(),
    ensures
        v.take(k + 1).to_set() == v.take(k).to_set().insert(v[k]),
{
    assert forall|x: u64| #[trigger]
        v.take(k + 1).to_set().contains(x) <==> v.take(k).to_set().insert(v[k]).contains(x) by {
        let long = v.take(k + 1);
        let short = v.take(k);
        if long.contains(x) {
            let i = choose|i: int| 0 <= i < long.len() && long[i] == x;
            if i < k {
                assert(short[i] == x);
            }
        }
        if short.contains(x) {
            let i = choose|i: int| 0 <= i < short.len() && short[i] == x;
            assert(long[i] == x);
        }
        if x == v[k] {
            assert(long[k] == x);
        }
    }
    assert(v.take(k + 1).to_set() =~= v.take(k).to_set().insert(v[k]));
}

/// The record of a sweep that started from `was`.
spec fn records(w: Sweep, was: Seq<Set<u64>>, now: Seq<Set<u64>>) -> bool {
    &&& tracks(w.grown@, was, now)
    &&& w.changed <==> exists|o: int| 0 <= o < w.grown@.len() && #[trigger] w.grown@[o]
}

proof fn lemma_records_changed(w: Sweep, was: Seq<Set<u64>>, now: Seq<Set<u64>>)
    requires
        records(w, was, now),
    ensures
        w.changed <==> was != now,
{
    if w.changed {
        let o = choose|o: int| 0 <= o < w.grown@.len() && #[trigger] w.grown@[o];
        assert(was[o] != now[o]);
    } else {
        assert forall|o: int| 0 <= o < was.len() implies was[o] == now[o] by {
            assert(!w.grown@[o]);
        }
        assert(was =~= now);
    }
}

impl Reaching {
    /// Adds hints at one offset and records whether any was new.
    fn take_up(&mut self, o: usize, ids: &Vec<u64>, w: &mut Sweep, Ghost(was): Ghost<Seq<Set<u64>>>)
        requires
            old(self).wf(),
            o < old(self)@.len(),
            records(*old(w), was, old(self)@),
        ensures
            final(self).wf(),
            final(self)@ == absorb(old(self)@, o as int, ids@.to_set()),
            records(*final(w), was, final(self)@),
    {
        let ghost before = self@;
        let ghost marks = w.grown@;
        let more: bool = self.merge_reaching_hints(o, ids);
        if more {
            w.changed = true;
            w.grown.set(o, true);
        }
        proof {
            let now = self@;
            assert forall|q: int| 0 <= q < was.len() implies (#[trigger] was[q]).subset_of(
                now[q],
            ) by {
                assert(was[q].subset_of(before[q]));
            }
            assert forall|q: int| 0 <= q < was.len() implies (#[trigger] w.grown@[q] <==> was[q]
                != now[q]) by {
                assert(marks[q] <==> was[q] != before[q]);
                assert(was[q].subset_of(before[q]));
                if q == o && more {
                    if was[q] == now[q] {
                        assert(before[q] =~= now[q]);
                    }
                }
            }
            if more {
                assert(w.grown@[o as int]);
            } else if w.changed {
                let q = choose|q: int| 0 <= q < marks.len() && #[trigger] marks[q];
                assert(w.grown@[q]);
            }
        }
    }

    /// Hands the hints `ids` on to the successors in `succ` that take hints.
    fn hand_on_ids(
        &mut self,
        s: &Superset,
        blocked: &Vec<bool>,
        ids: &Vec<u64>,
        succ: &Vec<u64>,
        w: &mut Sweep,
        Ghost(was): Ghost<Seq<Set<u64>>>,
    )
        requires
            old(self).wf(),
            s.wf(),
            old(self)@.len() == s.spec_len(),
            blocked@.len() == s.spec_len(),
            records(*old(w), was, old(self)@),
        ensures
            final(self).wf(),
            final(self)@ == hand_on(*s, blocked@, old(self)@, ids@.to_set(), succ@),
            final(self)@.len() == old(self)@.len(),
            records(*final(w), was, final(self)@),
    {
        let ghost start = self@;
        let n: usize = blocked.len();
        let mut k: usize = 0;
        proof {
            assert(succ@.take(0) =~= Seq::empty());
        }
        while k < succ.len()
            invariant
                k <= succ@.len(),
                self.wf(),
                s.wf(),
                n == s.spec_len(),
                start.len() == n,
                self@.len() == n,
                blocked@.len() == n,
                self@ == hand_on(*s, blocked@, start, ids@.to_set(), succ@.take(k as int)),
                records(*w, was, self@),
            decreases succ@.len() - k,
        {
            let a: u64 = succ[k];
            proof {
                assert(succ@.take(k + 1).drop_last() =~= succ@.take(k as int));
            }
            if a >= s.base_addr && a - s.base_addr < n as u64 {
                let to: usize = (a - s.base_addr) as usize;
                if !blocked[to] {
                    self.take_up(to, ids, w, Ghost(was));
                }
            }
            k += 1;
        }
        proof {
            assert(succ@.take(k as int) =~= succ@);
        }
    }

    /// One sweep over all offsets in order: every offset that is not blocked
    /// takes up its local hints and hands all that has reached it on to its
    /// successors.
    pub fn propagate_hints_forward(
        &mut self,
        s: &Superset,
        blocked: &Vec<bool>,
        local: &Vec<Vec<u64>>,
    ) -> (w: Sweep)
        requires
            old(self).wf(),
            s.wf(),
            old(self)@.len() == s.spec_len(),
            blocked@.len() == s.spec_len(),
            local@.len() == s.spec_len(),
        ensures
            final(self).wf(),
            final(self)@ == sweep(*s, blocked@, list_sets(local@), old(self)@),
            final(self)@.len() == s.spec_len(),
            tracks(w.grown@, old(self)@, final(self)@),
            w.changed <==> old(self)@ != final(self)@,
    {
        let ghost was = self@;
        let n: usize = s.instructions.len();
        let mut grown: Vec<bool> = Vec::new();
        let mut k: usize = 0;
        while k < n
            invariant
                k <= n,
                grown@.len() == k,
                forall|i: int| 0 <= i < k ==> !#[trigger] grown@[i],
            decreases n - k,
        {
            grown.push(false);
            k += 1;
        }
        let mut w: Sweep = Sweep { changed: false, grown };
        let mut o: usize = 0;
        while o < n
            invariant
                o <= n,
                n == s.spec_len(),
                self.wf(),
                s.wf(),
                self@.len() == n,
                blocked@.len() == n,
                local@.len() == n,
                self@ == sweep_below(*s, blocked@, list_sets(local@), was, o as int),
                records(w, was, self@),
            decreases n - o,
        {
            if !blocked[o] {
                proof {
                    assert(list_sets(local@)[o as int] == local@[o as int]@.to_set());
                }
                self.take_up(o, &local[o], &mut w, Ghost(was));
                let ids: Vec<u64> = slice_to_vec(self.at(o).as_slice());
                let succ: Vec<u64> = s.successors_of(s.base_addr + o as u64);
                self.hand_on_ids(s, blocked, &ids, &succ, &mut w, Ghost(was));
            }
            o += 1;
        }
        proof {
            lemma_records_changed(w, was, self@);
        }
        w
    }

    /// Sweeps until nothing changes, a bounded number of times. Says whether
    /// the last sweep left everything as it was.
    pub fn run_to_fixpoint(
        &mut self,
        s: &Superset,
        blocked: &Vec<bool>,
        local: &Vec<Vec<u64>>,
    ) -> (settled: bool)
        requires
            old(self).wf(),
            s.wf(),
            old(self)@.len() == s.spec_len(),
            blocked@.len() == s.spec_len(),
            local@.len() == s.spec_len(),
        ensures
            final(self).wf(),
            final(self)@ == sweeps(
                *s,
                blocked@,
                list_sets(local@),
                old(self)@,
                MAX_SWEEPS as nat,
            ),
            final(self)@.len() == s.spec_len(),
            settled ==> sweep(*s, blocked@, list_sets(local@), final(self)@) == final(self)@,
    {
        let ghost loc = list_sets(local@);
        let ghost start = self@;
        let mut k: usize = 0;
        while k < MAX_SWEEPS
            invariant
                k <= MAX_SWEEPS,
                self.wf(),
                s.wf(),
                self@.len() == s.spec_len(),
                blocked@.len() == s.spec_len(),
                local@.len() == s.spec_len(),
                loc == list_sets(local@),
                start == old(self)@,
                sweeps(*s, blocked@, loc, start, MAX_SWEEPS as nat) == sweeps(
                    *s,
                    blocked@,
                    loc,
                    self@,
                    (MAX_SWEEPS - k) as nat,
                ),
            decreases MAX_SWEEPS - k,
        {
            let ghost before = self@;
            let w: Sweep = self.propagate_hints_forward(s, blocked, local);
            if !w.changed {
                proof {
                    lemma_sweeps_settled(*s, blocked@, loc, self@, (MAX_SWEEPS - k) as nat);
                }
                return true;
            }
            k += 1;
        }
        false
    }
}

proof fn lemma_sweeps_settled(
    s: Superset,
    blocked: Seq<bool>,
    local: Seq<Set<u64>>,
    r: Seq<Set<u64>>,
    k: nat,
)
    requires
        sweep(s, blocked, local, r) == r,
    ensures
        sweeps(s, blocked, local, r, k) == r,
    decreases k,
{
    if k > 0 {
        lemma_sweeps_settled(s, blocked, local, r, (k - 1) as nat);
    }
}

/// Which offsets decode to nothing.
pub fn undecoded(s: &Superset) -> (r: Vec<bool>)
    ensures
        r@ == Seq::new(s.spec_len() as nat, |o: int| !s.valid(o)),
{
    let mut out: Vec<bool> = Vec::new();
    let mut o: usize = 0;
    while o < s.instructions.len()
        invariant
            o <= s.instructions@.len(),
            out@.len() == o,
            forall|i: int| 0 <= i < o ==> #[trigger] out@[i] == !s.valid(i),
        decreases s.instructions@.len() - o,
    {
        out.push(s.instructions[o].is_none());
        o += 1;
    }
    proof {
        assert(out@ =~= Seq::new(s.spec_len() as nat, |i: int| !s.valid(i)));
    }
    out
}

// ── Laws ───────────────────────────────────────────────────────────────────

/// Each set of `a` is part of the set of `b` at the same offset.
pub open spec fn below(a: Seq<Set<u64>>, b: Seq<Set<u64>>) -> bool {
    &&& a.len() == b.len()
    &&& forall|o: int| 0 <= o < a.len() ==> (#[trigger] a[o]).subset_of(b[o])
}

proof fn lemma_hand_on_grows(
    s: Superset,
    blocked: Seq<bool>,
    r: Seq<Set<u64>>,
    ids: Set<u64>,
    succ: Seq<u64>,
)
    requires
        r.len() == s.spec_len(),
    ensures
        below(r, hand_on(s, blocked, r, ids, succ)),
        forall|k: int|
            0 <= k < succ.len() && takes(s, blocked, #[trigger] succ[k]) ==> ids.subset_of(
                hand_on(s, blocked, r, ids, succ)[succ[k] - s.base_addr],
            ),
    decreases succ.len(),
{
    if succ.len() > 0 {
        let short = succ.drop_last();
        lemma_hand_on_grows(s, blocked, r, ids, short);
        let before = hand_on(s, blocked, r, ids, short);
        let now = hand_on(s, blocked, r, ids, succ);
        assert forall|o: int| 0 <= o < r.len() implies (#[trigger] r[o]).subset_of(now[o]) by {
            assert(r[o].subset_of(before[o]));
        }
        assert forall|k: int|
            0 <= k < succ.len() && takes(s, blocked, #[trigger] succ[k]) implies ids.subset_of(
            now[succ[k] - s.base_addr],
        ) by {
            if k < short.len() {
                assert(short[k] == succ[k]);
                assert(ids.subset_of(before[succ[k] - s.base_addr]));
            }
        }
    }
}

proof fn lemma_step_grows(
    s: Superset,
    blocked: Seq<bool>,
    local: Seq<Set<u64>>,
    r: Seq<Set<u64>>,
    o: int,
)
    requires
        r.len() == s.spec_len(),
        0 <= o < s.spec_len(),
    ensures
        below(r, sweep_step(s, blocked, local, r, o)),
{
    if !blocked[o] {
        let own = absorb(r, o, local[o]);
        lemma_hand_on_grows(s, blocked, own, own[o], s.successors(s.addr(o)));
        let now = sweep_step(s, blocked, local, r, o);
        assert forall|q: int| 0 <= q < r.len() implies (#[trigger] r[q]).subset_of(now[q]) by {
            assert(own[q].subset_of(now[q]));
        }
    }
}

proof fn lemma_sweep_below_grows(
    s: Superset,
    blocked: Seq<bool>,
    local: Seq<Set<u64>>,
    r: Seq<Set<u64>>,
    m: int,
    n: int,
)
    requires
        r.len() == s.spec_len(),
        0 <= m <= n <= s.spec_len(),
    ensures
        below(r, sweep_below(s, blocked, local, r, m)),
        below(sweep_below(s, blocked, local, r, m), sweep_below(s, blocked, local, r, n)),
    decreases n,
{
    if n > 0 {
        if m < n {
            lemma_sweep_below_grows(s, blocked, local, r, m, n - 1);
            let a = sweep_below(s, blocked, local, r, m);
            let b = sweep_below(s, blocked, local, r, n - 1);
            let c = sweep_below(s, blocked, local, r, n);
            lemma_step_grows(s, blocked, local, b, n - 1);
            assert forall|q: int| 0 <= q < a.len() implies (#[trigger] a[q]).subset_of(c[q]) by {
                assert(b[q].subset_of(c[q]));
            }
        } else {
            lemma_sweep_below_grows(s, blocked, local, r, n - 1, n - 1);
            let b = sweep_below(s, blocked, local, r, n - 1);
            lemma_step_grows(s, blocked, local, b, n - 1);
            let c = sweep_below(s, blocked, local, r, n);
            assert forall|q: int| 0 <= q < r.len() implies (#[trigger] r[q]).subset_of(c[q]) by {
                assert(b[q].subset_of(c[q]));
            }
        }
    }
}

/// A sweep loses no hint.
pub proof fn law_sweep_only_adds(
    s: Superset,
    blocked: Seq<bool>,
    local: Seq<Set<u64>>,
    r: Seq<Set<u64>>,
)
    requires
        r.len() == s.spec_len(),
    ensures
        below(r, sweep(s, blocked, local, r)),
{
    lemma_sweep_below_grows(s, blocked, local, r, s.spec_len(), s.spec_len());
}

/// Where a sweep changes nothing, every offset that is not blocked holds its
/// local hints, and whatever has reached it has reached its successors too.
pub proof fn law_settled_sets_are_closed(
    s: Superset,
    blocked: Seq<bool>,
    local: Seq<Set<u64>>,
    r: Seq<Set<u64>>,
    o: int,
    succ: u64,
)
    requires
        r.len() == s.spec_len(),
        sweep(s, blocked, local, r) == r,
        0 <= o < s.spec_len(),
        !blocked[o],
        s.successors(s.addr(o)).contains(succ),
        takes(s, blocked, succ),
    ensures
        local[o].subset_of(r[o]),
        r[o].subset_of(r[succ - s.base_addr]),
{
    lemma_settled_local(s, blocked, local, r, o);
    let own = absorb(r, o, local[o]);
    let all = s.successors(s.addr(o));
    lemma_hand_on_grows(s, blocked, own, own[o], all);
    let k = choose|k: int| 0 <= k < all.len() && all[k] == succ;
    assert(takes(s, blocked, all[k]));
    assert(own[o].subset_of(hand_on(s, blocked, own, own[o], all)[succ - s.base_addr]));
    assert(r[o].subset_of(own[o]));
}

proof fn lemma_settled_local(
    s: Superset,
    blocked: Seq<bool>,
    local: Seq<Set<u64>>,
    r: Seq<Set<u64>>,
    o: int,
)
    requires
        r.len() == s.spec_len(),
        sweep(s, blocked, local, r) == r,
        0 <= o < s.spec_len(),
        !blocked[o],
    ensures
        sweep_step(s, blocked, local, r, o) == r,
        local[o].subset_of(r[o]),
{
    let n = s.spec_len();
    lemma_sweep_below_grows(s, blocked, local, r, o, n);
    lemma_sweep_below_grows(s, blocked, local, r, o + 1, n);
    let at = sweep_below(s, blocked, local, r, o);
    let after = sweep_below(s, blocked, local, r, o + 1);
    assert forall|q: int| 0 <= q < n implies at[q] == r[q] && after[q] == r[q] by {
        assert(r[q].subset_of(at[q]));
        assert(r[q].subset_of(after[q]));
        assert(at[q].subset_of(r[q]));
        assert(after[q].subset_of(r[q]));
        assert(at[q] =~= r[q]);
        assert(after[q] =~= r[q]);
    }
    assert(at =~= r);
    assert(after =~= r);
    let own = absorb(r, o, local[o]);
    lemma_hand_on_grows(s, blocked, own, own[o], s.successors(s.addr(o)));
    assert(own[o].subset_of(r[o]));
}

/// A path of control flow over offsets that take hints, from one where hint `x`
/// stands to `o`.
pub open spec fn carries(
    s: Superset,
    blocked: Seq<bool>,
    local: Seq<Set<u64>>,
    x: u64,
    o: int,
    p: Seq<int>,
) -> bool {
    &&& p.len() > 0
    &&& p.last() == o
    &&& local[p[0]].contains(x)
    &&& forall|i: int| 0 <= i < p.len() ==> 0 <= #[trigger] p[i] < s.spec_len() && !blocked[p[i]]
    &&& forall|i: int|
        0 <= i < p.len() - 1 ==> s.successors(s.addr(#[trigger] p[i])).contains(
            s.addr(p[i + 1]) as u64,
        )
}

/// Whether hint `x` can flow to offset `o`.
pub open spec fn flows_to(
    s: Superset,
    blocked: Seq<bool>,
    local: Seq<Set<u64>>,
    x: u64,
    o: int,
) -> bool {
    exists|p: Seq<int>| #[trigger] carries(s, blocked, local, x, o, p)
}

/// Every hint in `r` can flow to where it is.
pub open spec fn justified(
    s: Superset,
    blocked: Seq<bool>,
    local: Seq<Set<u64>>,
    r: Seq<Set<u64>>,
) -> bool {
    &&& r.len() == s.spec_len()
    &&& forall|o: int, x: u64|
        0 <= o < r.len() && #[trigger] r[o].contains(x) ==> flows_to(s, blocked, local, x, o)
}

proof fn lemma_hand_on_justified(
    s: Superset,
    blocked: Seq<bool>,
    local: Seq<Set<u64>>,
    r: Seq<Set<u64>>,
    from: int,
    ids: Set<u64>,
    succ: Seq<u64>,
)
    requires
        s.wf(),
        justified(s, blocked, local, r),
        0 <= from < s.spec_len(),
        !blocked[from],
        forall|x: u64| #[trigger] ids.contains(x) ==> flows_to(s, blocked, local, x, from),
        forall|k: int|
            0 <= k < succ.len() ==> s.successors(s.addr(from)).contains(#[trigger] succ[k]),
    ensures
        justified(s, blocked, local, hand_on(s, blocked, r, ids, succ)),
    decreases succ.len(),
{
    if succ.len() > 0 {
        let short = succ.drop_last();
        assert forall|k: int| 0 <= k < short.len() implies s.successors(s.addr(from)).contains(
            #[trigger] short[k],
        ) by {
            assert(succ[k] == short[k]);
        }
        lemma_hand_on_justified(s, blocked, local, r, from, ids, short);
        let before = hand_on(s, blocked, r, ids, short);
        let now = hand_on(s, blocked, r, ids, succ);
        let a = succ.last();
        if takes(s, blocked, a) {
            let to = a - s.base_addr;
            assert(s.successors(s.addr(from)).contains(succ[succ.len() - 1]));
            assert forall|o: int, x: u64|
                0 <= o < now.len() && #[trigger] now[o].contains(x) implies flows_to(
                s,
                blocked,
                local,
                x,
                o,
            ) by {
                if before[o].contains(x) {
                } else {
                    assert(o == to && ids.contains(x));
                    let p = choose|p: Seq<int>| #[trigger]
                        carries(s, blocked, local, x, from, p);
                    let q = p.push(to);
                    assert forall|i: int| 0 <= i < q.len() implies 0 <= #[trigger] q[i]
                        < s.spec_len() && !blocked[q[i]] by {
                        if i < p.len() {
                            assert(p[i] == q[i]);
                        }
                    }
                    assert forall|i: int| 0 <= i < q.len() - 1 implies s.successors(
                        s.addr(#[trigger] q[i]),
                    ).contains(s.addr(q[i + 1]) as u64) by {
                        if i < p.len() - 1 {
                            assert(p[i] == q[i] && p[i + 1] == q[i + 1]);
                        } else {
                            assert(q[i] == from && q[i + 1] == to);
                            assert(s.addr(to) as u64 == a);
                        }
                    }
                    assert(q[0] == p[0]);
                    assert(carries(s, blocked, local, x, to, q));
                }
            }
        }
    }
}

proof fn lemma_sweep_justified(
    s: Superset,
    blocked: Seq<bool>,
    local: Seq<Set<u64>>,
    r: Seq<Set<u64>>,
    n: int,
)
    requires
        s.wf(),
        local.len() == s.spec_len(),
        justified(s, blocked, local, r),
        n <= s.spec_len(),
    ensures
        justified(s, blocked, local, sweep_below(s, blocked, local, r, n)),
    decreases n,
{
    if n > 0 {
        lemma_sweep_justified(s, blocked, local, r, n - 1);
        let b = sweep_below(s, blocked, local, r, n - 1);
        let o = n - 1;
        if !blocked[o] {
            let own = absorb(b, o, local[o]);
            assert forall|q: int, x: u64|
                0 <= q < own.len() && #[trigger] own[q].contains(x) implies flows_to(
                s,
                blocked,
                local,
                x,
                q,
            ) by {
                if b[q].contains(x) {
                } else {
                    assert(q == o && local[o].contains(x));
                    assert(carries(s, blocked, local, x, o, seq![o]));
                }
            }
            let succ = s.successors(s.addr(o));
            assert forall|k: int| 0 <= k < succ.len() implies s.successors(s.addr(o)).contains(
                #[trigger] succ[k],
            ) by {}
            lemma_hand_on_justified(s, blocked, local, own, o, own[o], succ);
        }
    }
}

/// Sweeps put a hint only where it can flow along control flow.
pub proof fn law_sweeps_are_sound(
    s: Superset,
    blocked: Seq<bool>,
    local: Seq<Set<u64>>,
    r: Seq<Set<u64>>,
    k: nat,
)
    requires
        s.wf(),
        local.len() == s.spec_len(),
        justified(s, blocked, local, r),
    ensures
        justified(s, blocked, local, sweeps(s, blocked, local, r, k)),
    decreases k,
{
    if k > 0 {
        lemma_sweep_justified(s, blocked, local, r, s.spec_len());
        law_sweeps_are_sound(s, blocked, local, sweep(s, blocked, local, r), (k - 1) as nat);
    }
}

proof fn lemma_settled_path(
    s: Superset,
    blocked: Seq<bool>,
    local: Seq<Set<u64>>,
    r: Seq<Set<u64>>,
    x: u64,
    p: Seq<int>,
    k: int,
)
    requires
        s.wf(),
        r.len() == s.spec_len(),
        sweep(s, blocked, local, r) == r,
        p.len() > 0,
        carries(s, blocked, local, x, p.last(), p),
        0 <= k < p.len(),
    ensures
        r[p[k]].contains(x),
    decreases k,
{
    if k == 0 {
        lemma_settled_local(s, blocked, local, r, p[0]);
    } else {
        lemma_settled_path(s, blocked, local, r, x, p, k - 1);
        let from = p[k - 1];
        let a = s.addr(p[k]) as u64;
        assert(s.successors(s.addr(p[k - 1])).contains(s.addr(p[k - 1 + 1]) as u64));
        assert(0 <= p[k] < s.spec_len() && !blocked[p[k]]);
        assert(takes(s, blocked, a));
        law_settled_sets_are_closed(s, blocked, local, r, from, a);
    }
}

/// A transport that has settled is exact: a hint is at an offset just when it
/// can flow there.
pub proof fn law_settled_transport_is_reachability(
    s: Superset,
    blocked: Seq<bool>,
    local: Seq<Set<u64>>,
    r: Seq<Set<u64>>,
    o: int,
    x: u64,
)
    requires
        s.wf(),
        justified(s, blocked, local, r),
        sweep(s, blocked, local, r) == r,
        0 <= o < s.spec_len(),
    ensures
        r[o].contains(x) <==> flows_to(s, blocked, local, x, o),
{
    if flows_to(s, blocked, local, x, o) {
        let p = choose|p: Seq<int>| #[trigger] carries(s, blocked, local, x, o, p);
        lemma_settled_path(s, blocked, local, r, x, p, p.len() - 1);
    }
}

/// Before the first sweep every hint is trivially where it can flow.
pub proof fn law_empty_sets_are_justified(s: Superset, blocked: Seq<bool>, local: Seq<Set<u64>>)
    ensures
        justified(
            s,
            blocked,
            local,
            Seq::new(s.spec_len() as nat, |i: int| Set::<u64>::empty()),
        ),
{
}

// ── Where hints come from ──────────────────────────────────────────────────

proof fn lemma_copies(succ: Seq<u64>, t: int, o: int)
    ensures
        forall|x: int| #[trigger]
            copies(succ, t, o).contains(x) ==> x == o,
        copies(succ, t, o).len() > 0 <==> exists|k: int| 0 <= k < succ.len() && #[trigger] succ[k] == t,
        copies(succ, t, o).len() == succ.filter(|a: u64| a == t).len(),
    decreases succ.len(),
{
    reveal(Seq::filter);
    if succ.len() > 0 {
        let rest = succ.drop_last();
        lemma_copies(rest, t, o);
        if succ.last() == t {
            assert(succ[succ.len() - 1] == t);
            assert forall|x: int| #[trigger] copies(succ, t, o).contains(x) implies x == o by {
                vstd::seq_lib::lemma_seq_contains_after_push(copies(rest, t, o), o, x);
            }
        } else {
            if exists|k: int| 0 <= k < rest.len() && #[trigger] rest[k] == t {
                let k = choose|k: int| 0 <= k < rest.len() && #[trigger] rest[k] == t;
                assert(succ[k] == t);
            }
            if exists|k: int| 0 <= k < succ.len() && #[trigger] succ[k] == t {
                let k = choose|k: int| 0 <= k < succ.len() && #[trigger] succ[k] == t;
                assert(rest[k] == t);
            }
        }
    }
}

proof fn lemma_preds(s: Superset, t: int, n: int)
    requires
        0 <= n <= s.spec_len(),
    ensures
        forall|o: int| #[trigger]
            preds_below(s, t, n).contains(o) <==> 0 <= o < n && exists|k: int|
                0 <= k < s.successors(s.addr(o)).len() && #[trigger] s.successors(s.addr(o))[k]
                    == t,
    decreases n,
{
    if n > 0 {
        lemma_preds(s, t, n - 1);
        let before = preds_below(s, t, n - 1);
        let more = copies(s.successors(s.addr(n - 1)), t, n - 1);
        lemma_copies(s.successors(s.addr(n - 1)), t, n - 1);
        assert forall|o: int| #[trigger] (before + more).contains(o) <==> before.contains(o)
            || more.contains(o) by {
            if before.contains(o) {
                let k = choose|k: int| 0 <= k < before.len() && before[k] == o;
                assert((before + more)[k] == o);
            }
            if more.contains(o) {
                let k = choose|k: int| 0 <= k < more.len() && more[k] == o;
                assert((before + more)[before.len() + k] == o);
            }
        }
        if more.len() > 0 {
            assert(more.contains(more[0]));
        }
    }
}

/// The predecessors of an offset are the offsets from which control goes there.
pub proof fn law_predecessors_lead_there(s: Superset, t: u64, o: int)
    requires
        0 <= o < s.instructions@.len(),
    ensures
        preds_below(s, t as int, s.instructions@.len() as int).contains(o) <==> s.successors(
            s.base_addr + o,
        ).contains(t),
{
    lemma_preds(s, t as int, s.spec_len());
    let succ = s.successors(s.addr(o));
    if succ.contains(t) {
        let k = choose|k: int| 0 <= k < succ.len() && succ[k] == t;
        assert(succ[k] == t as int);
    }
    if preds_below(s, t as int, s.spec_len()).contains(o) {
        let k = choose|k: int| 0 <= k < succ.len() && #[trigger] succ[k] == t as int;
        assert(succ[k] == t);
    }
}

proof fn lemma_ids_at(keys: Seq<HintKey>, a: int, k: int)
    requires
        0 <= k <= keys.len() <= u64::MAX,
    ensures
        forall|i: u64| #[trigger]
            ids_at(keys, a, k).contains(i) <==> i < k && keys[i as int].source_addr == a,
    decreases k,
{
    if k > 0 {
        lemma_ids_at(keys, a, k - 1);
        let before = ids_at(keys, a, k - 1);
        assert forall|i: u64| #[trigger] ids_at(keys, a, k).contains(i) <==> i < k
            && keys[i as int].source_addr == a by {
            assert(before.contains(i) <==> i < k - 1 && keys[i as int].source_addr == a);
            vstd::seq_lib::lemma_seq_contains_after_push(before, (k - 1) as u64, i);
        }
    }
}

/// At each offset stand the numbers of the hints whose source lies there.
pub proof fn law_hints_stand_at_their_source(
    local: Seq<Vec<u64>>,
    keys: Seq<HintKey>,
    base: u64,
    n: int,
    o: int,
    i: u64,
)
    requires
        is_grouping(local, keys, base, n, keys.len() as int),
        keys.len() <= u64::MAX,
        0 <= o < n,
    ensures
        local[o]@.contains(i) <==> i < keys.len() && keys[i as int].source_addr == base + o,
{
    lemma_ids_at(keys, base + o, keys.len() as int);
    assert(local[o]@.contains(i) <==> ids_at(keys, base + o, keys.len() as int).contains(i));
}

proof fn lemma_step_hands_on(
    s: Superset,
    blocked: Seq<bool>,
    local: Seq<Set<u64>>,
    r: Seq<Set<u64>>,
    o: int,
)
    requires
        r.len() == s.spec_len(),
        0 <= o < s.spec_len(),
        !blocked[o],
    ensures
        ({
            let now = sweep_step(s, blocked, local, r, o);
            &&& now.len() == r.len()
            &&& local[o].subset_of(now[o])
            &&& forall|t: u64| #[trigger]
                s.successors(s.addr(o)).contains(t) && takes(s, blocked, t) ==> local[o].subset_of(
                    now[t - s.base_addr],
                ) && r[o].subset_of(now[t - s.base_addr])
        }),
{
    let own = absorb(r, o, local[o]);
    let succ = s.successors(s.addr(o));
    lemma_hand_on_grows(s, blocked, own, own[o], succ);
    let now = sweep_step(s, blocked, local, r, o);
    assert(own[o] =~= r[o].union(local[o]));
    assert(own[o].subset_of(now[o]));
    assert forall|t: u64| #[trigger] succ.contains(t) && takes(s, blocked, t) implies local[o]
        .subset_of(now[t - s.base_addr]) && r[o].subset_of(now[t - s.base_addr]) by {
        let k = choose|k: int| 0 <= k < succ.len() && succ[k] == t;
        assert(takes(s, blocked, succ[k]));
        assert(own[o].subset_of(now[t - s.base_addr]));
    }
}

/// In one sweep every offset that takes hints takes up its own, and hands these and what
/// had reached it on to every successor that takes hints.
pub proof fn law_one_sweep_hands_on(
    s: Superset,
    blocked: Seq<bool>,
    local: Seq<Set<u64>>,
    r: Seq<Set<u64>>,
    o: int,
    t: u64,
)
    requires
        r.len() == s.spec_len(),
        0 <= o < s.spec_len(),
        !blocked[o],
    ensures
        ({
            let now = sweep(s, blocked, local, r);
            &&& local[o].subset_of(now[o])
            &&& s.successors(s.base_addr + o).contains(t) && s.base_addr <= t < s.base_addr
                + s.instructions@.len() && !blocked[t - s.base_addr] ==> local[o].subset_of(
                now[t - s.base_addr],
            ) && r[o].subset_of(now[t - s.base_addr])
        }),
{
    let n = s.spec_len();
    let before = sweep_below(s, blocked, local, r, o);
    let mid = sweep_below(s, blocked, local, r, o + 1);
    let now = sweep_below(s, blocked, local, r, n);
    lemma_sweep_below_grows(s, blocked, local, r, o, o + 1);
    lemma_sweep_below_grows(s, blocked, local, r, o + 1, n);
    lemma_step_hands_on(s, blocked, local, before, o);
    assert(mid == sweep_step(s, blocked, local, before, o));
    assert(mid[o].subset_of(now[o]));
    assert(r[o].subset_of(before[o]));
    if s.successors(s.addr(o)).contains(t) && takes(s, blocked, t) {
        assert(mid[t - s.base_addr].subset_of(now[t - s.base_addr]));
    }
}

proof fn lemma_sweeps_carry(
    s: Superset,
    blocked: Seq<bool>,
    local: Seq<Set<u64>>,
    r: Seq<Set<u64>>,
    k: nat,
    x: u64,
    p: Seq<int>,
    i: int,
)
    requires
        s.wf(),
        r.len() == s.spec_len(),
        p.len() > 0,
        carries(s, blocked, local, x, p.last(), p),
        0 <= i < p.len(),
        i == 0 || r[p[i]].contains(x),
        p.len() - 1 - i < k,
    ensures
        sweeps(s, blocked, local, r, k)[p.last()].contains(x),
    decreases k,
{
    let now = sweep(s, blocked, local, r);
    law_sweep_only_adds(s, blocked, local, r);
    let o = p[i];
    if i < p.len() - 1 {
        let t = s.addr(p[i + 1]) as u64;
        assert(0 <= p[i + 1] < s.spec_len());
        law_one_sweep_hands_on(s, blocked, local, r, o, t);
        assert(s.successors(s.addr(p[i])).contains(t));
        assert(now[p[i + 1]].contains(x));
        lemma_sweeps_carry(s, blocked, local, now, (k - 1) as nat, x, p, i + 1);
    } else {
        law_one_sweep_hands_on(s, blocked, local, r, o, 0);
        assert(r[o].subset_of(now[o]));
        assert(now[o].contains(x));
        lemma_sweeps_keep(s, blocked, local, now, (k - 1) as nat, o, x);
    }
}

proof fn lemma_sweeps_keep(
    s: Superset,
    blocked: Seq<bool>,
    local: Seq<Set<u64>>,
    r: Seq<Set<u64>>,
    k: nat,
    o: int,
    x: u64,
)
    requires
        r.len() == s.spec_len(),
        0 <= o < r.len(),
        r[o].contains(x),
    ensures
        sweeps(s, blocked, local, r, k)[o].contains(x),
    decreases k,
{
    if k > 0 {
        let now = sweep(s, blocked, local, r);
        law_sweep_only_adds(s, blocked, local, r);
        assert(r[o].subset_of(now[o]));
        lemma_sweeps_keep(s, blocked, local, now, (k - 1) as nat, o, x);
    }
}

/// A hint reaches whatever control can reach from it in fewer steps than there are
/// sweeps, over offsets that take hints; there are at most a hundred sweeps.
pub proof fn law_hints_travel_a_step_a_sweep(
    s: Superset,
    blocked: Seq<bool>,
    local: Seq<Set<u64>>,
    r: Seq<Set<u64>>,
    k: nat,
    x: u64,
    p: Seq<int>,
)
    requires
        s.wf(),
        r.len() == s.spec_len(),
        p.len() > 0,
        local[p[0]].contains(x),
        forall|i: int|
            0 <= i < p.len() ==> 0 <= #[trigger] p[i] < s.instructions@.len() && !blocked[p[i]],
        forall|i: int|
            0 <= i < p.len() - 1 ==> s.successors(s.base_addr + #[trigger] p[i]).contains(
                (s.base_addr + p[i + 1]) as u64,
            ),
    ensures
        p.len() <= k ==> sweeps(s, blocked, local, r, k)[p.last()].contains(x),
        p.len() <= 100 ==> sweeps(s, blocked, local, r, MAX_SWEEPS as nat)[p.last()].contains(x),
        MAX_SWEEPS == 100,
{
    assert(carries(s, blocked, local, x, p.last(), p)) by {
        assert forall|i: int| 0 <= i < p.len() - 1 implies s.successors(
            s.addr(#[trigger] p[i]),
        ).contains(s.addr(p[i + 1]) as u64) by {}
    }
    if p.len() <= k {
        lemma_sweeps_carry(s, blocked, local, r, k, x, p, 0);
    }
    if p.len() <= 100 {
        lemma_sweeps_carry(s, blocked, local, r, MAX_SWEEPS as nat, x, p, 0);
    }
}

} // verus!
