//! How far each offset is held to be data.
//!
//! The logarithm of the probability of data is carried as a key: an integer
//! that orders as the value does.

use vstd::prelude::*;

use crate::factors::{
    occluders, occluders_between, occludes, occluding_addrs_of, occlusion_start,
};
use crate::superset::Superset;

verus! {

/// How far an offset is held to be data.
#[derive(Debug, Clone, Copy, PartialEq, Eq, Structural)]
pub enum DataProb {
    /// It is data.
    DefinitelyData,
    /// It is data with the probability that the key stands for.
    Estimated(u64),
    /// Nothing is known.
    Unknown,
}

impl DataProb {
    /// The key of the level, where something is known; `certain` is the key of
    /// certainty.
    pub open spec fn key(self, certain: u64) -> Option<u64> {
        match self {
            DataProb::DefinitelyData => Some(certain),
            DataProb::Estimated(k) => Some(k),
            DataProb::Unknown => None,
        }
    }

    /// Levels from the least to the most certain.
    pub open spec fn rank(self) -> int {
        match self {
            DataProb::DefinitelyData => u64::MAX + 1,
            DataProb::Estimated(k) => k as int,
            DataProb::Unknown => -1,
        }
    }

    /// Whether a neighbour of key `d` raises the level.
    pub open spec fn rises(self, d: u64) -> bool {
        match self {
            DataProb::DefinitelyData => false,
            DataProb::Estimated(k) => k < d,
            DataProb::Unknown => true,
        }
    }

    /// The level of key `d`.
    pub open spec fn at(d: u64, certain: u64) -> DataProb {
        if d >= certain {
            DataProb::DefinitelyData
        } else {
            DataProb::Estimated(d)
        }
    }

    /// The key of the level, where something is known.
    pub fn key_of(self, certain: u64) -> (r: Option<u64>)
        ensures
            r == self.key(certain),
    {
        match self {
            DataProb::DefinitelyData => Some(certain),
            DataProb::Estimated(k) => Some(k),
            DataProb::Unknown => None,
        }
    }
}

/// What is known before any evidence: what does not decode is data.
pub fn initial_levels(s: &Superset) -> (r: Vec<DataProb>)
    ensures
        r@.len() == s.spec_len(),
        forall|o: int|
            0 <= o < s.spec_len() ==> #[trigger] r@[o] == if s.valid(o) {
                DataProb::Unknown
            } else {
                DataProb::DefinitelyData
            },
{
    let mut out: Vec<DataProb> = Vec::new();
    let mut k: usize = 0;
    while k < s.instructions.len()
        invariant
            k <= s.instructions@.len(),
            out@.len() == k,
            forall|o: int|
                0 <= o < k ==> #[trigger] out@[o] == if s.valid(o) {
                    DataProb::Unknown
                } else {
                    DataProb::DefinitelyData
                },
        decreases s.instructions@.len() - k,
    {
        if s.instructions[k].is_some() {
            out.push(DataProb::Unknown);
        } else {
            out.push(DataProb::DefinitelyData);
        }
        k += 1;
    }
    out
}

/// Which offsets take no evidence: those that are known to be data.
pub fn blocked(levels: &Vec<DataProb>) -> (r: Vec<bool>)
    ensures
        r@ == levels@.map_values(|x: DataProb| x == DataProb::DefinitelyData),
{
    let mut out: Vec<bool> = Vec::new();
    let mut k: usize = 0;
    while k < levels.len()
        invariant
            k <= levels@.len(),
            out@.len() == k,
            forall|o: int|
                0 <= o < k ==> #[trigger] out@[o] == (levels@[o] == DataProb::DefinitelyData),
        decreases levels@.len() - k,
    {
        out.push(levels[k] == DataProb::DefinitelyData);
        k += 1;
    }
    proof {
        assert(out@ =~= levels@.map_values(|x: DataProb| x == DataProb::DefinitelyData));
    }
    out
}

/// Takes over the estimates of the offsets that new evidence has reached.
pub fn take_estimates(levels: &mut Vec<DataProb>, grown: &Vec<bool>, keys: &Vec<u64>)
    requires
        grown@.len() == old(levels)@.len(),
        keys@.len() == old(levels)@.len(),
    ensures
        final(levels)@.len() == old(levels)@.len(),
        forall|o: int|
            0 <= o < old(levels)@.len() ==> #[trigger] final(levels)@[o] == if grown@[o] {
                DataProb::Estimated(keys@[o])
            } else {
                old(levels)@[o]
            },
{
    let n: usize = levels.len();
    let ghost was = levels@;
    let mut k: usize = 0;
    while k < n
        invariant
            k <= n,
            n == was.len(),
            levels@.len() == n,
            grown@.len() == n,
            keys@.len() == n,
            forall|o: int|
                0 <= o < k ==> #[trigger] levels@[o] == if grown@[o] {
                    DataProb::Estimated(keys@[o])
                } else {
                    was[o]
                },
            forall|o: int| k <= o < n ==> #[trigger] levels@[o] == was[o],
        decreases n - k,
    {
        if grown[k] {
            levels.set(k, DataProb::Estimated(keys[k]));
        }
        k += 1;
    }
}

// ── Occlusion ──────────────────────────────────────────────────────────────

/// The keys of the first `k` of the addresses `peers`, as far as they are known.
pub open spec fn keys_of_peers(
    s: Superset,
    levels: Seq<DataProb>,
    peers: Seq<u64>,
    certain: u64,
    k: int,
) -> Seq<u64>
    decreases k,
{
    if k <= 0 {
        Seq::empty()
    } else {
        let rest = keys_of_peers(s, levels, peers, certain, k - 1);
        match levels[peers[k - 1] - s.base_addr].key(certain) {
            Some(d) => rest.push(d),
            None => rest,
        }
    }
}

/// The keys of what overlaps the instruction at offset `o`.
pub open spec fn occluder_keys(s: Superset, levels: Seq<DataProb>, o: int, certain: u64) -> Seq<
    u64,
> {
    let peers = occluders(s, s.addr(o));
    keys_of_peers(s, levels, peers, certain, peers.len() as int)
}

proof fn lemma_occluders_in_bounds(s: Superset, a: int, lo: int, hi: int)
    requires
        s.wf(),
    ensures
        forall|i: int|
            0 <= i < occluders_between(s, a, lo, hi).len() ==> s.base_addr <= (
            #[trigger] occluders_between(s, a, lo, hi)[i]) < s.base_addr + s.spec_len(),
    decreases hi - lo,
{
    if hi > lo {
        lemma_occluders_in_bounds(s, a, lo, hi - 1);
        let before = occluders_between(s, a, lo, hi - 1);
        let now = occluders_between(s, a, lo, hi);
        if occludes(s, a, hi - 1) {
            assert(s.spec_at(hi - 1) is Some);
            assert(s.base_addr <= hi - 1 < s.base_addr + s.spec_len());
            assert(now == before.push((hi - 1) as u64));
        }
        assert forall|i: int| 0 <= i < now.len() implies s.base_addr <= (#[trigger] now[i])
            < s.base_addr + s.spec_len() by {
            if i < before.len() {
                assert(now[i] == before[i]);
            }
        }
    }
}

/// The keys of what overlaps the instruction at offset `o`, as far as they are
/// known.
pub fn peer_keys(s: &Superset, levels: &Vec<DataProb>, o: usize, certain: u64) -> (r: Vec<u64>)
    requires
        s.wf(),
        levels@.len() == s.spec_len(),
        o < s.spec_len(),
    ensures
        r@ == occluder_keys(*s, levels@, o as int, certain),
{
    let n: usize = s.instructions.len();
    let addr: u64 = s.base_addr + o as u64;
    let peers: Vec<u64> = occluding_addrs_of(s, addr);
    proof {
        if let Some(i) = s.spec_at(addr as int) {
            lemma_occluders_in_bounds(
                *s,
                addr as int,
                occlusion_start(addr as int),
                i.spec_end(addr as int),
            );
        }
    }
    let mut out: Vec<u64> = Vec::new();
    let mut k: usize = 0;
    while k < peers.len()
        invariant
            k <= peers@.len(),
            n == s.spec_len(),
            levels@.len() == n,
            forall|i: int|
                0 <= i < peers@.len() ==> s.base_addr <= (#[trigger] peers@[i]) < s.base_addr + n,
            out@ == keys_of_peers(*s, levels@, peers@, certain, k as int),
        decreases peers@.len() - k,
    {
        let at: usize = (peers[k] - s.base_addr) as usize;
        match levels[at].key_of(certain) {
            Some(d) => {
                out.push(d);
            },
            None => {},
        }
        k += 1;
    }
    out
}

/// Whether `m` is the least of `v`.
pub open spec fn is_least(v: Seq<u64>, m: u64) -> bool {
    v.contains(m) && forall|i: int| 0 <= i < v.len() ==> m <= #[trigger] v[i]
}

/// The least of the keys of what overlaps the instruction at offset `o`: that of
/// the neighbour which is least held to be data.
pub fn least_occluder(s: &Superset, levels: &Vec<DataProb>, o: usize, certain: u64) -> (r: Option<
    u64,
>)
    requires
        s.wf(),
        levels@.len() == s.spec_len(),
        o < s.spec_len(),
    ensures
        match r {
            Some(m) => is_least(occluder_keys(*s, levels@, o as int, certain), m),
            None => occluder_keys(*s, levels@, o as int, certain).len() == 0,
        },
{
    let keys: Vec<u64> = peer_keys(s, levels, o, certain);
    if keys.len() == 0 {
        return None;
    }
    let mut at: usize = 0;
    let mut k: usize = 1;
    while k < keys.len()
        invariant
            at < k <= keys@.len(),
            forall|i: int| 0 <= i < k ==> keys@[at as int] <= #[trigger] keys@[i],
        decreases keys@.len() - k,
    {
        if keys[k] < keys[at] {
            at = k;
        }
        k += 1;
    }
    Some(keys[at])
}

// ── Invalidity ─────────────────────────────────────────────────────────────

/// The levels after the first `k` of `preds` have heard of a successor of key
/// `d`.
pub open spec fn heard(
    levels: Seq<DataProb>,
    preds: Seq<usize>,
    d: u64,
    certain: u64,
    k: int,
) -> Seq<DataProb>
    decreases k,
{
    if k <= 0 {
        levels
    } else {
        let now = heard(levels, preds, d, certain, k - 1);
        let p = preds[k - 1] as int;
        if p < levels.len() && now[p].rises(d) {
            now.update(p, DataProb::at(d, certain))
        } else {
            now
        }
    }
}

/// The levels after the predecessors of offset `o` have heard of it.
pub open spec fn told(levels: Seq<DataProb>, preds: Seq<usize>, o: int, certain: u64) -> Seq<
    DataProb,
> {
    match levels[o].key(certain) {
        Some(d) => heard(levels, preds, d, certain, preds.len() as int),
        None => levels,
    }
}

/// The levels after all offsets from the last down to `o` have told their
/// predecessors.
pub open spec fn told_down_to(
    levels: Seq<DataProb>,
    preds: Seq<Vec<usize>>,
    o: int,
    certain: u64,
) -> Seq<DataProb>
    decreases levels.len() - o,
{
    if o >= levels.len() {
        levels
    } else {
        told(told_down_to(levels, preds, o + 1, certain), preds[o]@, o, certain)
    }
}

/// No level of `a` is above its level in `b`.
pub open spec fn at_most(a: Seq<DataProb>, b: Seq<DataProb>) -> bool {
    &&& a.len() == b.len()
    &&& forall|o: int| 0 <= o < a.len() ==> (#[trigger] a[o]).rank() <= b[o].rank()
}

proof fn lemma_heard_rises(
    levels: Seq<DataProb>,
    preds: Seq<usize>,
    d: u64,
    certain: u64,
    k: int,
)
    requires
        0 <= k <= preds.len(),
    ensures
        at_most(levels, heard(levels, preds, d, certain, k)),
    decreases k,
{
    if k > 0 {
        lemma_heard_rises(levels, preds, d, certain, k - 1);
    }
}

/// A sweep only ever makes offsets more certainly data.
pub proof fn law_invalidity_only_rises(
    levels: Seq<DataProb>,
    preds: Seq<Vec<usize>>,
    o: int,
    certain: u64,
)
    requires
        0 <= o <= levels.len(),
        preds.len() == levels.len(),
    ensures
        at_most(levels, told_down_to(levels, preds, o, certain)),
    decreases levels.len() - o,
{
    if o < levels.len() {
        law_invalidity_only_rises(levels, preds, o + 1, certain);
        let before = told_down_to(levels, preds, o + 1, certain);
        if let Some(d) = before[o].key(certain) {
            lemma_heard_rises(before, preds[o]@, d, certain, preds[o]@.len() as int);
        }
        let after = told_down_to(levels, preds, o, certain);
        assert forall|i: int| 0 <= i < levels.len() implies (#[trigger] levels[i]).rank()
            <= after[i].rank() by {
            assert(levels[i].rank() <= before[i].rank());
            assert(before[i].rank() <= after[i].rank());
        }
    }
}

/// Tells every offset from the last to the first, at its level of the moment, to
/// its predecessors: an instruction that leads into data is data itself. The
/// result says whether any level changed.
pub fn propagate_invalidity_backward(
    levels: &mut Vec<DataProb>,
    preds: &Vec<Vec<usize>>,
    certain: u64,
) -> (changed: bool)
    requires
        preds@.len() == old(levels)@.len(),
    ensures
        final(levels)@ == told_down_to(old(levels)@, preds@, 0, certain),
        final(levels)@.len() == old(levels)@.len(),
        changed <==> final(levels)@ != old(levels)@,
{
    let n: usize = levels.len();
    let ghost was = levels@;
    let mut changed: bool = false;
    let mut o: usize = n;
    while o > 0
        invariant
            o <= n,
            n == was.len(),
            preds@.len() == n,
            levels@.len() == n,
            levels@ == told_down_to(was, preds@, o as int, certain),
            at_most(was, levels@),
            changed ==> exists|i: int| 0 <= i < n && was[i].rank() < (#[trigger] levels@[i]).rank(),
            !changed ==> levels@ == was,
        decreases o,
    {
        let at: usize = o - 1;
        let ghost start = levels@;
        if let Some(d) = levels[at].key_of(certain) {
            let row: &Vec<usize> = &preds[at];
            let mut k: usize = 0;
            while k < row.len()
                invariant
                    k <= row@.len(),
                    n == was.len(),
                    levels@.len() == n,
                    start.len() == n,
                    levels@ == heard(start, row@, d, certain, k as int),
                    at_most(was, levels@),
                    changed ==> exists|i: int|
                        0 <= i < n && was[i].rank() < (#[trigger] levels@[i]).rank(),
                    !changed ==> levels@ == was,
                decreases row@.len() - k,
            {
                let p: usize = row[k];
                if p < n {
                    let ghost before = levels@;
                    let rises: bool = match levels[p] {
                        DataProb::DefinitelyData => false,
                        DataProb::Estimated(x) => x < d,
                        DataProb::Unknown => true,
                    };
                    if rises {
                        let next: DataProb = if d >= certain {
                            DataProb::DefinitelyData
                        } else {
                            DataProb::Estimated(d)
                        };
                        levels.set(p, next);
                        changed = true;
                        proof {
                            assert(before[p as int].rank() < levels@[p as int].rank());
                            assert(was[p as int].rank() <= before[p as int].rank());
                            assert forall|i: int| 0 <= i < was.len() implies (
                            #[trigger] was[i]).rank() <= levels@[i].rank() by {
                                assert(was[i].rank() <= before[i].rank());
                            }
                            assert(was[p as int].rank() < levels@[p as int].rank());
                        }
                    }
                }
                k += 1;
            }
        }
        o = at;
    }
    changed
}

proof fn lemma_heard_chain(
    levels: Seq<DataProb>,
    preds: Seq<usize>,
    d: u64,
    certain: u64,
    k: int,
)
    requires
        0 <= k <= preds.len(),
    ensures
        at_most(
            heard(levels, preds, d, certain, k),
            heard(levels, preds, d, certain, preds.len() as int),
        ),
    decreases preds.len() - k,
{
    lemma_heard_rises(levels, preds, d, certain, k);
    if k < preds.len() {
        lemma_heard_chain(levels, preds, d, certain, k + 1);
        lemma_heard_rises(levels, preds, d, certain, k + 1);
        let a = heard(levels, preds, d, certain, k);
        let b = heard(levels, preds, d, certain, k + 1);
        let c = heard(levels, preds, d, certain, preds.len() as int);
        assert forall|o: int| 0 <= o < a.len() implies (#[trigger] a[o]).rank()
            <= c[o].rank() by {
            assert(a[o].rank() <= b[o].rank());
            assert(b[o].rank() <= c[o].rank());
        }
    } else {
        lemma_heard_rises(levels, preds, d, certain, preds.len() as int);
    }
}

proof fn lemma_heard_still(
    levels: Seq<DataProb>,
    preds: Seq<usize>,
    d: u64,
    certain: u64,
    k: int,
)
    requires
        0 <= k <= preds.len(),
        heard(levels, preds, d, certain, preds.len() as int) == levels,
    ensures
        heard(levels, preds, d, certain, k) == levels,
{
    lemma_heard_chain(levels, preds, d, certain, k);
    lemma_heard_rises(levels, preds, d, certain, k);
    let mid = heard(levels, preds, d, certain, k);
    assert forall|o: int| 0 <= o < levels.len() implies mid[o] == #[trigger] levels[o] by {
        assert(levels[o].rank() <= mid[o].rank());
        assert(mid[o].rank() <= levels[o].rank());
    }
    assert(mid =~= levels);
}

proof fn lemma_told_chain(levels: Seq<DataProb>, preds: Seq<Vec<usize>>, o: int, certain: u64)
    requires
        0 <= o <= levels.len(),
        preds.len() == levels.len(),
    ensures
        told_down_to(levels, preds, o, certain).len() == levels.len(),
        at_most(told_down_to(levels, preds, o, certain), told_down_to(levels, preds, 0, certain)),
    decreases o,
{
    law_invalidity_only_rises(levels, preds, o, certain);
    law_invalidity_only_rises(levels, preds, 0, certain);
    if o > 0 {
        lemma_told_chain(levels, preds, o - 1, certain);
        let a = told_down_to(levels, preds, o, certain);
        let b = told_down_to(levels, preds, o - 1, certain);
        let c = told_down_to(levels, preds, 0, certain);
        if let Some(d) = a[o - 1].key(certain) {
            lemma_heard_rises(a, preds[o - 1]@, d, certain, preds[o - 1]@.len() as int);
        }
        assert forall|i: int| 0 <= i < a.len() implies (#[trigger] a[i]).rank()
            <= c[i].rank() by {
            assert(a[i].rank() <= b[i].rank());
            assert(b[i].rank() <= c[i].rank());
        }
    }
}

proof fn lemma_told_still(levels: Seq<DataProb>, preds: Seq<Vec<usize>>, o: int, certain: u64)
    requires
        0 <= o <= levels.len(),
        preds.len() == levels.len(),
        told_down_to(levels, preds, 0, certain) == levels,
    ensures
        told_down_to(levels, preds, o, certain) == levels,
{
    lemma_told_chain(levels, preds, o, certain);
    law_invalidity_only_rises(levels, preds, o, certain);
    let mid = told_down_to(levels, preds, o, certain);
    assert forall|i: int| 0 <= i < levels.len() implies mid[i] == #[trigger] levels[i] by {
        assert(levels[i].rank() <= mid[i].rank());
        assert(mid[i].rank() <= levels[i].rank());
    }
    assert(mid =~= levels);
}

/// Where a sweep changes nothing, nothing leads into what is more certainly data
/// than it is itself.
pub proof fn law_settled_invalidity_is_closed(
    levels: Seq<DataProb>,
    preds: Seq<Vec<usize>>,
    certain: u64,
    o: int,
    i: int,
)
    requires
        preds.len() == levels.len(),
        told_down_to(levels, preds, 0, certain) == levels,
        0 <= o < levels.len(),
        0 <= i < preds[o]@.len(),
        preds[o]@[i] < levels.len(),
    ensures
        levels[o].key(certain) matches Some(d) ==> !levels[preds[o]@[i] as int].rises(d),
{
    lemma_told_still(levels, preds, o, certain);
    lemma_told_still(levels, preds, o + 1, certain);
    if let Some(d) = levels[o].key(certain) {
        let row = preds[o]@;
        assert(heard(levels, row, d, certain, row.len() as int) == levels);
        lemma_heard_still(levels, row, d, certain, i);
        lemma_heard_still(levels, row, d, certain, i + 1);
        let p = row[i] as int;
        if levels[p].rises(d) {
            let next = heard(levels, row, d, certain, i + 1);
            assert(next[p] == DataProb::at(d, certain));
            assert(levels[p].rank() < DataProb::at(d, certain).rank());
        }
    }
}

/// Nothing known rises to anything, certainty never rises, and an estimate rises to a
/// greater key; a key that reaches that of certainty is certainty.
pub proof fn law_levels_rise_by_key(d: u64, k: u64, certain: u64)
    ensures
        DataProb::Unknown.rises(d),
        !DataProb::DefinitelyData.rises(d),
        DataProb::Estimated(k).rises(d) <==> d > k,
        DataProb::at(d, certain) == DataProb::DefinitelyData <==> d >= certain,
        d < certain ==> DataProb::at(d, certain) == DataProb::Estimated(d),
        DataProb::DefinitelyData.key(certain) == Some(certain),
        DataProb::Estimated(k).key(certain) == Some(k),
        DataProb::Unknown.key(certain) is None,
{
}

proof fn lemma_peer_keys(
    s: Superset,
    levels: Seq<DataProb>,
    peers: Seq<u64>,
    certain: u64,
    k: int,
    d: u64,
)
    requires
        0 <= k <= peers.len(),
    ensures
        keys_of_peers(s, levels, peers, certain, k).contains(d) <==> exists|j: int|
            0 <= j < k && levels[#[trigger] peers[j] - s.base_addr].key(certain) == Some(d),
    decreases k,
{
    if k > 0 {
        lemma_peer_keys(s, levels, peers, certain, k - 1, d);
        let rest = keys_of_peers(s, levels, peers, certain, k - 1);
        if let Some(x) = levels[peers[k - 1] - s.base_addr].key(certain) {
            vstd::seq_lib::lemma_seq_contains_after_push(rest, x, d);
        }
    }
}

/// The neighbours of an instruction that count are those that overlap it and of which
/// something is known, each by its key.
pub proof fn law_neighbours_are_what_overlaps(
    s: Superset,
    levels: Seq<DataProb>,
    o: int,
    certain: u64,
    d: u64,
)
    ensures
        occluder_keys(s, levels, o, certain).contains(d) <==> exists|j: int|
            0 <= j < occluders(s, s.base_addr + o).len() && levels[#[trigger] occluders(
                s,
                s.base_addr + o,
            )[j] - s.base_addr].key(certain) == Some(d),
{
    let peers = occluders(s, s.addr(o));
    lemma_peer_keys(s, levels, peers, certain, peers.len() as int, d);
}

/// Whether every estimate lies below certainty.
pub open spec fn are_below(levels: Seq<DataProb>, certain: u64) -> bool {
    forall|o: int|
        0 <= o < levels.len() ==> (#[trigger] levels[o] matches DataProb::Estimated(k) ==> k
            < certain)
}

/// Whether a level is at least that of key `d`.
spec fn reaches(level: DataProb, d: u64) -> bool {
    match level {
        DataProb::DefinitelyData => true,
        DataProb::Estimated(k) => k >= d,
        DataProb::Unknown => false,
    }
}

/// What changed between `a` and `b` has taken over a key that stood in `a`, and has a
/// successor of which something was known.
spec fn is_taken_over(a: Seq<DataProb>, b: Seq<DataProb>, certain: u64) -> bool {
    &&& a.len() == b.len()
    &&& forall|p: int| 0 <= p < a.len() ==> is_kept_or_taken(a, #[trigger] b[p], p, certain)
}

spec fn is_kept_or_taken(a: Seq<DataProb>, level: DataProb, p: int, certain: u64) -> bool {
    level == a[p] || exists|o: int| 0 <= o < a.len() && is_key_of(#[trigger] a[o], level, certain)
}

/// Whether `level` is the level of the key of `from`.
spec fn is_key_of(from: DataProb, level: DataProb, certain: u64) -> bool {
    from.key(certain) matches Some(d) && level == DataProb::at(d, certain)
}

proof fn lemma_heard(
    levels: Seq<DataProb>,
    preds: Seq<usize>,
    d: u64,
    certain: u64,
    k: int,
    o: int,
)
    requires
        0 <= k <= preds.len(),
        0 <= o < levels.len(),
        levels[o].key(certain) == Some(d),
        are_below(levels, certain),
        d <= certain,
    ensures
        ({
            let now = heard(levels, preds, d, certain, k);
            &&& now.len() == levels.len()
            &&& are_below(now, certain)
            &&& at_most(levels, now)
            &&& is_taken_over(levels, now, certain)
            &&& forall|i: int|
                0 <= i < k && (#[trigger] preds[i]) < levels.len() ==> reaches(
                    now[preds[i] as int],
                    d,
                )
            &&& forall|p: int|
                0 <= p < levels.len() && #[trigger] now[p] != levels[p] ==> preds.contains(
                    p as usize,
                )
        }),
    decreases k,
{
    if k > 0 {
        lemma_heard(levels, preds, d, certain, k - 1, o);
        lemma_heard_rises(levels, preds, d, certain, k);
        let before = heard(levels, preds, d, certain, k - 1);
        let now = heard(levels, preds, d, certain, k);
        let p = preds[k - 1] as int;
        assert forall|q: int| 0 <= q < levels.len() implies is_kept_or_taken(
            levels,
            #[trigger] now[q],
            q,
            certain,
        ) by {
            assert(is_kept_or_taken(levels, before[q], q, certain));
            if q == p && before[p].rises(d) {
                assert(is_key_of(levels[o], now[p], certain));
            }
        }
        assert forall|i: int| 0 <= i < k && (#[trigger] preds[i]) < levels.len() implies reaches(
            now[preds[i] as int],
            d,
        ) by {
            if i < k - 1 {
                assert(reaches(before[preds[i] as int], d));
            }
        }
        assert forall|q: int| 0 <= q < levels.len() && #[trigger] now[q]
            != levels[q] implies preds.contains(q as usize) by {
            if q == p {
                assert(preds[k - 1] == q as usize);
            } else {
                assert(now[q] == before[q]);
            }
        }
        assert forall|q: int| 0 <= q < now.len() implies (
        #[trigger] now[q] matches DataProb::Estimated(x) ==> x < certain) by {
            assert(before[q] matches DataProb::Estimated(x) ==> x < certain);
        }
    } else {
        assert forall|q: int| 0 <= q < levels.len() implies is_kept_or_taken(
            levels,
            #[trigger] levels[q],
            q,
            certain,
        ) by {}
    }
}

proof fn lemma_key_reaches(a: DataProb, b: DataProb, certain: u64)
    requires
        a.rank() <= b.rank(),
        a matches DataProb::Estimated(k) ==> k < certain,
        b matches DataProb::Estimated(k) ==> k < certain,
    ensures
        a.key(certain) matches Some(x) ==> (b.key(certain) matches Some(y) && x <= y),
        forall|d: u64| #[trigger] reaches(a, d) ==> reaches(b, d),
{
}

/// Whether offset `p` changed only where some offset from `lo` on leads on from it.
spec fn is_led_on(preds: Seq<Vec<usize>>, lo: int, p: int) -> bool {
    exists|o: int| lo <= o < preds.len() && (#[trigger] preds[o])@.contains(p as usize)
}

proof fn lemma_told(levels: Seq<DataProb>, preds: Seq<Vec<usize>>, o: int, certain: u64)
    requires
        0 <= o <= levels.len(),
        preds.len() == levels.len(),
        are_below(levels, certain),
    ensures
        ({
            let now = told_down_to(levels, preds, o, certain);
            &&& now.len() == levels.len()
            &&& are_below(now, certain)
            &&& at_most(levels, now)
            &&& is_taken_over(levels, now, certain)
            &&& forall|q: int, i: int|
                #![trigger preds[q]@[i]]
                o <= q < levels.len() && 0 <= i < preds[q]@.len() && preds[q]@[i] < levels.len()
                    ==> (levels[q].key(certain) matches Some(d) ==> reaches(
                    now[preds[q]@[i] as int],
                    d,
                ))
            &&& forall|p: int|
                0 <= p < levels.len() && #[trigger] now[p] != levels[p] ==> is_led_on(preds, o, p)
        }),
    decreases levels.len() - o,
{
    if o < levels.len() {
        lemma_told(levels, preds, o + 1, certain);
        law_invalidity_only_rises(levels, preds, o, certain);
        let before = told_down_to(levels, preds, o + 1, certain);
        let now = told_down_to(levels, preds, o, certain);
        if let Some(d) = before[o].key(certain) {
            let row = preds[o]@;
            lemma_heard(before, row, d, certain, row.len() as int, o);
        }
        assert(now.len() == levels.len() && are_below(now, certain) && at_most(before, now)) by {
            if before[o].key(certain) is None {
                assert(now == before);
            }
        }
        assert(is_taken_over(before, now, certain)) by {
            if before[o].key(certain) is None {
                assert(now == before);
            }
        }
        assert forall|p: int| 0 <= p < levels.len() implies is_kept_or_taken(
            levels,
            #[trigger] now[p],
            p,
            certain,
        ) by {
            assert(is_kept_or_taken(before, now[p], p, certain));
            assert(is_kept_or_taken(levels, before[p], p, certain));
            if now[p] != before[p] {
                let q = choose|q: int|
                    0 <= q < before.len() && is_key_of(#[trigger] before[q], now[p], certain);
                assert(is_kept_or_taken(levels, before[q], q, certain));
                if before[q] == levels[q] {
                    assert(is_key_of(levels[q], now[p], certain));
                } else {
                    let r = choose|r: int|
                        0 <= r < levels.len() && is_key_of(#[trigger] levels[r], before[q], certain);
                    assert(is_key_of(levels[r], now[p], certain));
                }
            }
        }
        assert forall|q: int, i: int|
            #![trigger preds[q]@[i]]
            o <= q < levels.len() && 0 <= i < preds[q]@.len() && preds[q]@[i]
                < levels.len() implies (levels[q].key(certain) matches Some(d) ==> reaches(
            now[preds[q]@[i] as int],
            d,
        )) by {
            let p = preds[q]@[i] as int;
            lemma_key_reaches(before[p], now[p], certain);
            if q == o {
                lemma_key_reaches(levels[q], before[q], certain);
                if let Some(d) = levels[q].key(certain) {
                    let e = before[q].key(certain)->0;
                    assert(reaches(now[p], e));
                }
            }
        }
        assert forall|p: int| 0 <= p < levels.len() && #[trigger] now[p]
            != levels[p] implies is_led_on(preds, o, p) by {
            if now[p] != before[p] {
                assert(preds[o]@.contains(p as usize));
            } else {
                assert(is_led_on(preds, o + 1, p));
            }
        }
    } else {
        assert forall|q: int| 0 <= q < levels.len() implies is_kept_or_taken(
            levels,
            #[trigger] levels[q],
            q,
            certain,
        ) by {}
    }
}

/// After a sweep, whatever leads into an offset is held to be data at least as far as
/// that offset was.
pub proof fn law_predecessors_are_told(
    levels: Seq<DataProb>,
    preds: Seq<Vec<usize>>,
    certain: u64,
    o: int,
    i: int,
)
    requires
        preds.len() == levels.len(),
        are_below(levels, certain),
        0 <= o < levels.len(),
        0 <= i < preds[o]@.len(),
        preds[o]@[i] < levels.len(),
    ensures
        ({
            let now = told_down_to(levels, preds, 0, certain)[preds[o]@[i] as int];
            &&& levels[o] == DataProb::DefinitelyData ==> now == DataProb::DefinitelyData
            &&& levels[o] matches DataProb::Estimated(d) ==> {
                ||| now == DataProb::DefinitelyData
                ||| now matches DataProb::Estimated(k) && k >= d
            }
        }),
{
    lemma_told(levels, preds, 0, certain);
    let now = told_down_to(levels, preds, 0, certain);
    let p = preds[o]@[i] as int;
    assert(levels[o].key(certain) matches Some(d) ==> reaches(now[p], d));
    assert(now[p] matches DataProb::Estimated(k) ==> k < certain);
}

/// A sweep invents nothing: what it changes leads into some offset, and takes over a
/// level that was there.
pub proof fn law_sweep_takes_over_levels(
    levels: Seq<DataProb>,
    preds: Seq<Vec<usize>>,
    certain: u64,
    p: int,
)
    requires
        preds.len() == levels.len(),
        are_below(levels, certain),
        0 <= p < levels.len(),
        told_down_to(levels, preds, 0, certain)[p] != levels[p],
    ensures
        exists|o: int|
            0 <= o < levels.len() && #[trigger] levels[o] == told_down_to(
                levels,
                preds,
                0,
                certain,
            )[p],
        exists|o: int| 0 <= o < levels.len() && (#[trigger] preds[o])@.contains(p as usize),
{
    lemma_told(levels, preds, 0, certain);
    let now = told_down_to(levels, preds, 0, certain);
    assert(is_kept_or_taken(levels, now[p], p, certain));
    let o = choose|o: int| 0 <= o < levels.len() && is_key_of(#[trigger] levels[o], now[p], certain);
    assert(levels[o] == now[p]);
    assert(is_led_on(preds, 0, p));
}

} // verus!
