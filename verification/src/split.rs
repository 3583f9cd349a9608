//! Splits of a corpus: binaries in the order of their names, programs that were
//! built at every level, and the roles of binaries in a comparison.

use vstd::prelude::*;
use vstd::utf8::encode_utf8;

use crate::corpus::{
    arranged, at_most, bins, deterministic_order, fit_part, hold_part, shuffle_keys, shuffled, Bin,
    BinView, CorpusError,
};
use crate::credibility::Role;
use crate::order::{
    comes_first, is_order, law_order_is_distinct, law_order_is_unique, stable_order,
};
use crate::text::str_eq;

verus! {

// ── The order of names ─────────────────────────────────────────────────────

/// Whether bytes come before others in a dictionary.
pub open spec fn bytes_before(a: Seq<u8>, b: Seq<u8>) -> bool
    decreases b.len(),
{
    if b.len() == 0 {
        false
    } else if a.len() == 0 {
        true
    } else if a[0] != b[0] {
        a[0] < b[0]
    } else {
        bytes_before(a.skip(1), b.skip(1))
    }
}

/// Whether a name comes before another.
pub open spec fn name_before(a: Seq<char>, b: Seq<char>) -> bool {
    bytes_before(encode_utf8(a), encode_utf8(b))
}

fn precedes(a: &str, b: &str) -> (r: bool)
    ensures
        r == name_before(a@, b@),
{
    let x: &[u8] = a.as_bytes();
    let y: &[u8] = b.as_bytes();
    let n: usize = x.len();
    let m: usize = y.len();
    let mut k: usize = 0;
    proof {
        assert(x@.skip(0) =~= x@);
        assert(y@.skip(0) =~= y@);
    }
    while k < n && k < m && x[k] == y[k]
        invariant
            n == x@.len(),
            m == y@.len(),
            k <= n,
            k <= m,
            bytes_before(x@, y@) == bytes_before(x@.skip(k as int), y@.skip(k as int)),
        decreases n - k,
    {
        proof {
            assert(x@.skip(k as int).skip(1) =~= x@.skip(k + 1));
            assert(y@.skip(k as int).skip(1) =~= y@.skip(k + 1));
            assert(x@.skip(k as int)[0] == x@[k as int]);
            assert(y@.skip(k as int)[0] == y@[k as int]);
        }
        k += 1;
    }
    proof {
        if k < n {
            assert(x@.skip(k as int)[0] == x@[k as int]);
        }
        if k < m {
            assert(y@.skip(k as int)[0] == y@[k as int]);
        }
    }
    if k < m {
        k >= n || x[k] < y[k]
    } else {
        false
    }
}

proof fn lemma_bytes_transitive(a: Seq<u8>, b: Seq<u8>, c: Seq<u8>)
    requires
        bytes_before(a, b),
        bytes_before(b, c),
    ensures
        bytes_before(a, c),
    decreases a.len(),
{
    if a.len() > 0 && b.len() > 0 && c.len() > 0 && a[0] == b[0] && b[0] == c[0] {
        lemma_bytes_transitive(a.skip(1), b.skip(1), c.skip(1));
    }
}

proof fn lemma_bytes_irreflexive(a: Seq<u8>)
    ensures
        !bytes_before(a, a),
    decreases a.len(),
{
    if a.len() > 0 {
        lemma_bytes_irreflexive(a.skip(1));
    }
}

/// How many of the first `k` binaries have a name before `x`.
pub open spec fn names_before(v: Seq<BinView>, x: Seq<char>, k: int) -> int
    decreases k,
{
    if k <= 0 {
        0
    } else {
        names_before(v, x, k - 1) + (if name_before(v[k - 1].name, x) {
            1int
        } else {
            0
        })
    }
}

/// The place of every binary by name.
pub open spec fn name_ranks(v: Seq<BinView>) -> Seq<u64> {
    v.map_values(|b: BinView| names_before(v, b.name, v.len() as int) as u64)
}

/// The binaries in the order of their names, equal names in place.
pub open spec fn by_name(v: Seq<BinView>) -> Seq<BinView> {
    arranged(v, choose|o: Seq<usize>| is_order(name_ranks(v), o))
}

proof fn lemma_names_before_bound(v: Seq<BinView>, x: Seq<char>, k: int)
    requires
        0 <= k,
    ensures
        0 <= names_before(v, x, k) <= k,
    decreases k,
{
    if k > 0 {
        lemma_names_before_bound(v, x, k - 1);
    }
}

/// A later name has at least as many names before it; more, where the earlier
/// one is among those counted.
proof fn lemma_names_before_grow(v: Seq<BinView>, x: Seq<char>, y: Seq<char>, i: int, k: int)
    requires
        name_before(x, y),
        0 <= k <= v.len(),
        0 <= i < v.len(),
        v[i].name == x,
    ensures
        names_before(v, x, k) + (if i < k {
            1int
        } else {
            0
        }) <= names_before(v, y, k),
    decreases k,
{
    if k > 0 {
        lemma_names_before_grow(v, x, y, i, k - 1);
        let z = v[k - 1].name;
        if name_before(z, x) {
            lemma_bytes_transitive(encode_utf8(z), encode_utf8(x), encode_utf8(y));
        }
        if k - 1 == i {
            lemma_bytes_irreflexive(encode_utf8(x));
        }
    }
}

fn copy_of(b: &Bin) -> (r: Bin)
    ensures
        r@ == b@,
{
    Bin { name: b.name.clone(), bin: b.bin.clone(), gt: b.gt.clone(), label: b.label.clone() }
}

/// The binaries in the order of their names.
pub fn sort_by_name(v: &Vec<Bin>) -> (r: Vec<Bin>)
    ensures
        bins(r@) == by_name(bins(v@)),
        r@.len() == v@.len(),
{
    let n: usize = v.len();
    let ghost views = bins(v@);
    let mut keys: Vec<u64> = Vec::new();
    let mut k: usize = 0;
    while k < n
        invariant
            n == v@.len(),
            views == bins(v@),
            k <= n,
            keys@ == name_ranks(views).take(k as int),
        decreases n - k,
    {
        let mut count: u64 = 0;
        let mut j: usize = 0;
        while j < n
            invariant
                n == v@.len(),
                views == bins(v@),
                k < n,
                j <= n,
                count == names_before(views, v@[k as int].name@, j as int),
                count <= j,
            decreases n - j,
        {
            proof {
                assert(views[j as int] == v@[j as int]@);
            }
            if precedes(v[j].name.as_str(), v[k].name.as_str()) {
                count += 1;
            }
            j += 1;
        }
        keys.push(count);
        proof {
            assert(views[k as int] == v@[k as int]@);
            assert(name_ranks(views).take(k + 1) =~= name_ranks(views).take(k as int).push(count));
        }
        k += 1;
    }
    proof {
        assert(keys@ =~= name_ranks(views));
    }
    let order: Vec<usize> = stable_order(&keys);
    let mut out: Vec<Bin> = Vec::new();
    let mut i: usize = 0;
    while i < order.len()
        invariant
            i <= order@.len(),
            order@.len() == v@.len(),
            is_order(keys@, order@),
            keys@.len() == v@.len(),
            out@.len() == i,
            forall|j: int| 0 <= j < i ==> (#[trigger] out@[j])@ == v@[order@[j] as int]@,
        decreases order@.len() - i,
    {
        proof {
            assert(order@[i as int] < keys@.len());
        }
        out.push(copy_of(&v[order[i]]));
        i += 1;
    }
    proof {
        assert forall|j: int| 0 <= j < out@.len() implies (#[trigger] bins(out@)[j]) == arranged(
            views,
            order@,
        )[j] by {
            assert(order@[j] < keys@.len());
        }
        assert(bins(out@) =~= arranged(views, order@));
        let p = choose|p: Seq<usize>| is_order(name_ranks(views), p);
        law_order_is_unique(name_ranks(views), order@, p);
    }
    out
}

/// No name comes before an earlier one once the binaries are in order.
pub proof fn law_names_are_in_order(v: Seq<BinView>, o: Seq<usize>, i: int, j: int)
    requires
        is_order(name_ranks(v), o),
        0 <= i < j < o.len(),
        v.len() <= u64::MAX,
    ensures
        by_name(v) == arranged(v, o),
        !name_before(by_name(v)[j].name, by_name(v)[i].name),
{
    let p = choose|p: Seq<usize>| is_order(name_ranks(v), p);
    law_order_is_unique(name_ranks(v), o, p);
    let a = o[i] as int;
    let b = o[j] as int;
    let n = v.len() as int;
    assert(o[i] < name_ranks(v).len() && o[j] < name_ranks(v).len());
    assert(comes_first(name_ranks(v), o[i], o[j]));
    lemma_names_before_bound(v, v[a].name, n);
    lemma_names_before_bound(v, v[b].name, n);
    if name_before(v[b].name, v[a].name) {
        lemma_names_before_grow(v, v[b].name, v[a].name, b, n);
    }
}

// ── Programs built at every level ──────────────────────────────────────────

/// The last of the first `k` binaries that is called `name`.
pub open spec fn called(v: Seq<BinView>, name: Seq<char>, k: int) -> Option<int>
    decreases k,
{
    if k <= 0 {
        None
    } else if v[k - 1].name == name {
        Some(k - 1)
    } else {
        called(v, name, k - 1)
    }
}

/// Whether every one of the levels from `from` on has a binary called `name`.
pub open spec fn at_every_level(
    levels: Seq<Seq<BinView>>,
    name: Seq<char>,
    from: int,
) -> bool
    decreases levels.len() - from,
{
    from >= levels.len() || (called(levels[from], name, levels[from].len() as int) is Some
        && at_every_level(levels, name, from + 1))
}

/// The binaries of the first level, among the first `k`, that are programs: they
/// were built at every level, and their name has not come before.
pub open spec fn programs_below(levels: Seq<Seq<BinView>>, k: int) -> Seq<BinView>
    decreases k,
{
    if k <= 0 {
        Seq::empty()
    } else {
        let b = levels[0][k - 1];
        if at_every_level(levels, b.name, 0) && called(levels[0], b.name, k - 1) is None {
            programs_below(levels, k - 1).push(b)
        } else {
            programs_below(levels, k - 1)
        }
    }
}

/// The builds of a program at the first `l` levels.
pub open spec fn builds_below(levels: Seq<Seq<BinView>>, name: Seq<char>, l: int) -> Seq<BinView>
    decreases l,
{
    if l <= 0 {
        Seq::empty()
    } else {
        let v = levels[l - 1];
        builds_below(levels, name, l - 1).push(v[called(v, name, v.len() as int)->0])
    }
}

/// The builds of the first `k` programs.
pub open spec fn all_builds(levels: Seq<Seq<BinView>>, programs: Seq<BinView>, k: int) -> Seq<
    BinView,
>
    decreases k,
{
    if k <= 0 {
        Seq::empty()
    } else {
        all_builds(levels, programs, k - 1) + builds_below(
            levels,
            programs[k - 1].name,
            levels.len() as int,
        )
    }
}

/// The contents of levels.
pub open spec fn level_views(levels: Seq<Vec<Bin>>) -> Seq<Seq<BinView>> {
    levels.map_values(|v: Vec<Bin>| bins(v@))
}

fn find_called(v: &Vec<Bin>, name: &str, k: usize) -> (r: Option<usize>)
    requires
        k <= v@.len(),
    ensures
        match r {
            Some(i) => called(bins(v@), name@, k as int) == Some(i as int) && i < k,
            None => called(bins(v@), name@, k as int) is None,
        },
{
    let mut i: usize = k;
    while i > 0
        invariant
            i <= k <= v@.len(),
            called(bins(v@), name@, k as int) == called(bins(v@), name@, i as int),
        decreases i,
    {
        proof {
            assert(bins(v@)[i - 1] == v@[i - 1]@);
        }
        if str_eq(v[i - 1].name.as_str(), name) {
            return Some(i - 1);
        }
        i -= 1;
    }
    None
}

fn built_everywhere(levels: &Vec<Vec<Bin>>, name: &str) -> (r: bool)
    ensures
        r == at_every_level(level_views(levels@), name@, 0),
{
    let ghost views = level_views(levels@);
    let mut l: usize = 0;
    while l < levels.len()
        invariant
            l <= levels@.len(),
            views == level_views(levels@),
            views.len() == levels@.len(),
            at_every_level(views, name@, 0) == at_every_level(views, name@, l as int),
        decreases levels@.len() - l,
    {
        proof {
            assert(views[l as int] == bins(levels@[l as int]@));
            assert(views[l as int].len() == levels@[l as int]@.len());
        }
        let n: usize = levels[l].len();
        if find_called(&levels[l], name, n).is_none() {
            return false;
        }
        l += 1;
    }
    true
}

proof fn lemma_everywhere(levels: Seq<Seq<BinView>>, name: Seq<char>, from: int, l: int)
    requires
        at_every_level(levels, name, from),
        0 <= from <= l < levels.len(),
    ensures
        called(levels[l], name, levels[l].len() as int) is Some,
    decreases l - from,
{
    if from < l {
        lemma_everywhere(levels, name, from + 1, l);
    }
}

fn push_builds(levels: &Vec<Vec<Bin>>, name: &str, out: &mut Vec<Bin>)
    requires
        at_every_level(level_views(levels@), name@, 0),
    ensures
        bins(final(out)@) == bins(old(out)@) + builds_below(
            level_views(levels@),
            name@,
            levels@.len() as int,
        ),
{
    let ghost views = level_views(levels@);
    let ghost start = bins(out@);
    let mut l: usize = 0;
    proof {
        assert(bins(out@) =~= start + builds_below(views, name@, 0));
    }
    while l < levels.len()
        invariant
            l <= levels@.len(),
            views == level_views(levels@),
            views.len() == levels@.len(),
            at_every_level(views, name@, 0),
            bins(out@) == start + builds_below(views, name@, l as int),
        decreases levels@.len() - l,
    {
        proof {
            assert(views[l as int] == bins(levels@[l as int]@));
            assert(views[l as int].len() == levels@[l as int]@.len());
            lemma_everywhere(views, name@, 0, l as int);
        }
        let n: usize = levels[l].len();
        let ghost before = out@;
        if let Some(i) = find_called(&levels[l], name, n) {
            out.push(copy_of(&levels[l][i]));
            proof {
                assert(bins(levels@[l as int]@)[i as int] == levels@[l as int]@[i as int]@);
                assert(bins(out@) =~= bins(before).push(levels@[l as int]@[i as int]@));
                assert(bins(out@) =~= start + builds_below(views, name@, l + 1));
            }
        }
        l += 1;
    }
}

/// The programs of a corpus, shuffled.
pub open spec fn programs_of(levels: Seq<Seq<BinView>>, seed: u64) -> Seq<BinView> {
    shuffled(programs_below(levels, levels[0].len() as int), seed)
}

/// Why programs cannot be split.
#[derive(Debug, Clone, Copy, PartialEq, Eq, Structural)]
pub enum SplitError {
    /// Only that many programs were built at every level.
    TooFew(usize),
}

/// Splits programs that were built at every level: all builds of the first
/// `n_fit` shuffled ones calibrate, all builds of the others test.
pub fn split_programs(levels: &Vec<Vec<Bin>>, n_fit: usize, seed: u64) -> (r: Result<
    (Vec<Bin>, Vec<Bin>),
    SplitError,
>)
    requires
        0 < levels@.len(),
        n_fit < usize::MAX,
    ensures
        ({
            let v = level_views(levels@);
            let p = programs_of(v, seed);
            match r {
                Ok(parts) => p.len() > n_fit && bins(parts.0@) == all_builds(
                    v,
                    p.take(n_fit as int),
                    n_fit as int,
                ) && bins(parts.1@) == all_builds(
                    v,
                    p.skip(n_fit as int),
                    p.len() - n_fit,
                ),
                Err(SplitError::TooFew(n)) => p.len() == n && n <= n_fit,
            }
        }),
{
    let ghost views = level_views(levels@);
    let mut programs: Vec<Bin> = Vec::new();
    let n: usize = levels[0].len();
    let mut k: usize = 0;
    proof {
        assert(views[0] == bins(levels@[0]@));
        assert(bins(programs@) =~= Seq::empty());
    }
    while k < n
        invariant
            0 < levels@.len(),
            n == levels@[0]@.len(),
            views == level_views(levels@),
            views[0] == bins(levels@[0]@),
            k <= n,
            bins(programs@) == programs_below(views, k as int),
            forall|j: int|
                0 <= j < programs@.len() ==> at_every_level(
                    views,
                    (#[trigger] programs@[j]).name@,
                    0,
                ),
        decreases n - k,
    {
        let b: &Bin = &levels[0][k];
        proof {
            assert(views[0][k as int] == b@);
        }
        if built_everywhere(levels, b.name.as_str()) && find_called(
            &levels[0],
            b.name.as_str(),
            k,
        ).is_none() {
            let ghost before = programs@;
            let one: Bin = copy_of(b);
            programs.push(one);
            proof {
                assert(bins(programs@) =~= bins(before).push(b@));
                assert(one.name@ == b@.name);
                assert forall|j: int| 0 <= j < programs@.len() implies at_every_level(
                    views,
                    (#[trigger] programs@[j]).name@,
                    0,
                ) by {
                    if j < before.len() {
                        assert(programs@[j] == before[j]);
                    }
                }
            }
        }
        k += 1;
    }
    let shuffled_programs: Vec<Bin> = deterministic_order(&programs, seed);
    let ghost p = programs_of(views, seed);
    let total: usize = shuffled_programs.len();
    proof {
        assert(bins(shuffled_programs@) == p);
        assert(p.len() == total);
        lemma_programs_everywhere(views, seed);
    }
    if total < n_fit + 1 {
        return Err(SplitError::TooFew(total));
    }
    let mut fit: Vec<Bin> = Vec::new();
    let mut hold: Vec<Bin> = Vec::new();
    let mut i: usize = 0;
    proof {
        assert(bins(fit@) =~= Seq::empty());
        assert(bins(hold@) =~= Seq::empty());
    }
    while i < total
        invariant
            total == shuffled_programs@.len(),
            total == p.len(),
            n_fit < total,
            i <= total,
            views == level_views(levels@),
            bins(shuffled_programs@) == p,
            forall|j: int| 0 <= j < p.len() ==> at_every_level(views, (#[trigger] p[j]).name, 0),
            bins(fit@) == all_builds(
                views,
                p.take(n_fit as int),
                if i < n_fit {
                    i as int
                } else {
                    n_fit as int
                },
            ),
            bins(hold@) == all_builds(
                views,
                p.skip(n_fit as int),
                if i < n_fit {
                    0
                } else {
                    i - n_fit
                },
            ),
        decreases total - i,
    {
        let b: &Bin = &shuffled_programs[i];
        proof {
            assert(p[i as int] == b@);
            assert(at_every_level(views, p[i as int].name, 0));
        }
        if i < n_fit {
            proof {
                assert(p.take(n_fit as int)[i as int] == p[i as int]);
            }
            push_builds(levels, b.name.as_str(), &mut fit);
        } else {
            proof {
                assert(p.skip(n_fit as int)[i - n_fit] == p[i as int]);
            }
            push_builds(levels, b.name.as_str(), &mut hold);
        }
        i += 1;
    }
    Ok((fit, hold))
}

proof fn lemma_programs(levels: Seq<Seq<BinView>>, k: int)
    requires
        0 <= k <= levels[0].len(),
    ensures
        forall|j: int|
            0 <= j < programs_below(levels, k).len() ==> at_every_level(
                levels,
                (#[trigger] programs_below(levels, k)[j]).name,
                0,
            ) && called(levels[0], programs_below(levels, k)[j].name, k) is Some,
        forall|i: int, j: int|
            0 <= i < j < programs_below(levels, k).len() ==> programs_below(levels, k)[i].name
                != programs_below(levels, k)[j].name,
    decreases k,
{
    if k > 0 {
        lemma_programs(levels, k - 1);
        let before = programs_below(levels, k - 1);
        let now = programs_below(levels, k);
        assert forall|j: int| 0 <= j < now.len() implies at_every_level(
            levels,
            (#[trigger] now[j]).name,
            0,
        ) && called(levels[0], now[j].name, k) is Some by {
            if j < before.len() {
                assert(now[j] == before[j]);
            }
        }
        assert forall|i: int, j: int| 0 <= i < j < now.len() implies now[i].name
            != now[j].name by {
            assert(now[i] == before[i]);
            if j < before.len() {
                assert(now[j] == before[j]);
            }
        }
    }
}

proof fn lemma_programs_everywhere(levels: Seq<Seq<BinView>>, seed: u64)
    requires
        exists|o: Seq<usize>| #[trigger]
            is_order(
                shuffle_keys(programs_below(levels, levels[0].len() as int), seed),
                o,
            ),
    ensures
        forall|j: int|
            0 <= j < programs_of(levels, seed).len() ==> at_every_level(
                levels,
                (#[trigger] programs_of(levels, seed)[j]).name,
                0,
            ),
{
    let v = programs_below(levels, levels[0].len() as int);
    let p = programs_of(levels, seed);
    lemma_programs(levels, levels[0].len() as int);
    let o = choose|o: Seq<usize>| is_order(shuffle_keys(v, seed), o);
    assert forall|j: int| 0 <= j < p.len() implies at_every_level(
        levels,
        (#[trigger] p[j]).name,
        0,
    ) by {
        assert(o[j] < shuffle_keys(v, seed).len());
        assert(p[j] == v[o[j] as int]);
    }
}

/// No program both calibrates and tests: all its builds share a fate.
pub proof fn law_programs_share_a_fate(
    levels: Seq<Seq<BinView>>,
    seed: u64,
    o: Seq<usize>,
    i: int,
    j: int,
)
    requires
        is_order(shuffle_keys(programs_below(levels, levels[0].len() as int), seed), o),
        0 <= i < j < programs_of(levels, seed).len(),
    ensures
        programs_of(levels, seed)[i].name != programs_of(levels, seed)[j].name,
{
    let v = programs_below(levels, levels[0].len() as int);
    let keys = shuffle_keys(v, seed);
    let p = choose|p: Seq<usize>| is_order(keys, p);
    lemma_programs(levels, levels[0].len() as int);
    law_order_is_distinct(keys, p);
    assert(p[i] < keys.len() && p[j] < keys.len());
    assert(p[i] != p[j]);
    let (a, b) = (p[i] as int, p[j] as int);
    if a < b {
        assert(v[a].name != v[b].name);
    } else {
        assert(v[b].name != v[a].name);
    }
}

// ── Roles in a comparison ──────────────────────────────────────────────────

/// A binary with its role.
#[derive(Debug)]
pub struct Job {
    /// Name.
    pub name: String,
    /// Path of the binary.
    pub bin: String,
    /// Path of its labels: of its data window, if it is packed, otherwise of its
    /// instruction starts.
    pub gt: String,
    /// Its role.
    pub role: Role,
    /// The part of the corpus it belongs to.
    pub level: String,
}

/// The contents of a [`Job`].
#[verifier::ext_equal]
pub struct JobView {
    /// The binary.
    pub bin: BinView,
    /// Its role.
    pub role: Role,
}

impl View for Job {
    type V = JobView;

    open spec fn view(&self) -> JobView {
        JobView {
            bin: BinView {
                name: self.name@,
                bin: self.bin@,
                gt: self.gt@,
                label: self.level@,
            },
            role: self.role,
        }
    }
}

/// The contents of jobs.
pub open spec fn job_views(v: Seq<Job>) -> Seq<JobView> {
    v.map_values(|j: Job| j@)
}

/// Binaries in a role.
pub open spec fn in_role(v: Seq<BinView>, role: Role) -> Seq<JobView> {
    v.map_values(|b: BinView| JobView { bin: b, role })
}

/// The jobs of the first `k` levels of junk: the first `n` of each, shuffled.
pub open spec fn level_jobs(levels: Seq<Seq<BinView>>, n: int, seed: u64, k: int) -> Seq<JobView>
    decreases k,
{
    if k <= 0 {
        Seq::empty()
    } else {
        level_jobs(levels, n, seed, k - 1) + in_role(
            fit_part(shuffled(levels[k - 1], seed), n),
            Role::Desync,
        )
    }
}

/// What a comparison is made on.
#[derive(Debug)]
pub struct Comparison {
    /// Ordinary binaries.
    pub clean: Vec<Bin>,
    /// Binaries obfuscated by junk, by level.
    pub desync: Vec<Vec<Bin>>,
    /// Packed binaries, as listed.
    pub packed: Vec<Bin>,
    /// How many ordinary binaries calibrate.
    pub n_fit: usize,
    /// How many ordinary binaries test.
    pub n_holdout: usize,
    /// How many binaries of each level of junk test.
    pub n_desync: usize,
    /// Seed of the shuffle.
    pub seed: u64,
}

/// The jobs of a comparison: ordinary binaries that calibrate, those that test,
/// the levels of junk, packed binaries.
pub open spec fn comparison_jobs(c: Comparison) -> Seq<JobView> {
    let clean = shuffled(bins(c.clean@), c.seed);
    in_role(fit_part(clean, c.n_fit as int), Role::CleanFit) + in_role(
        hold_part(clean, c.n_fit as int, c.n_holdout as int),
        Role::CleanHoldout,
    ) + level_jobs(
        level_views(c.desync@),
        c.n_desync as int,
        c.seed,
        c.desync@.len() as int,
    ) + in_role(bins(c.packed@), Role::Packed)
}

fn push_jobs(out: &mut Vec<Job>, v: &Vec<Bin>, from: usize, to: usize, role: Role)
    requires
        from <= to <= v@.len(),
    ensures
        job_views(final(out)@) == job_views(old(out)@) + in_role(
            bins(v@).subrange(from as int, to as int),
            role,
        ),
{
    let ghost start = job_views(out@);
    let mut k: usize = from;
    proof {
        assert(job_views(out@) =~= start + in_role(
            bins(v@).subrange(from as int, from as int),
            role,
        ));
    }
    while k < to
        invariant
            from <= k <= to <= v@.len(),
            job_views(out@) == start + in_role(bins(v@).subrange(from as int, k as int), role),
        decreases to - k,
    {
        let b: &Bin = &v[k];
        let ghost before = out@;
        let job: Job = Job {
            name: b.name.clone(),
            bin: b.bin.clone(),
            gt: b.gt.clone(),
            role,
            level: b.label.clone(),
        };
        out.push(job);
        proof {
            assert(job@ =~= (JobView { bin: b@, role }));
            assert(bins(v@)[k as int] == b@);
            assert(job_views(out@) =~= job_views(before).push(job@));
            assert(in_role(bins(v@).subrange(from as int, k + 1), role) =~= in_role(
                bins(v@).subrange(from as int, k as int),
                role,
            ).push(JobView { bin: b@, role }));
        }
        k += 1;
    }
}

fn cut(n: usize, len: usize) -> (r: usize)
    ensures
        r == at_most(n as int, len as int),
{
    if n < len {
        n
    } else {
        len
    }
}

/// The jobs of a comparison.
pub fn assign_roles(c: &Comparison) -> (r: Result<Vec<Job>, CorpusError>)
    requires
        c.n_fit + c.n_holdout <= usize::MAX,
    ensures
        match r {
            Ok(jobs) => c.clean@.len() >= c.n_fit + c.n_holdout && job_views(jobs@)
                == comparison_jobs(*c),
            Err(e) => c.clean@.len() < c.n_fit + c.n_holdout && e == CorpusError::NotEnoughClean(
                c.clean@.len() as usize,
            ),
        },
{
    let n: usize = c.clean.len();
    if n < c.n_fit + c.n_holdout {
        return Err(CorpusError::NotEnoughClean(n));
    }
    let clean: Vec<Bin> = deterministic_order(&c.clean, c.seed);
    let mut out: Vec<Job> = Vec::new();
    proof {
        assert(job_views(out@) =~= Seq::empty());
        assert(bins(clean@).len() == clean@.len());
    }
    push_jobs(&mut out, &clean, 0, c.n_fit, Role::CleanFit);
    push_jobs(&mut out, &clean, c.n_fit, c.n_fit + c.n_holdout, Role::CleanHoldout);
    let ghost start = in_role(fit_part(bins(clean@), c.n_fit as int), Role::CleanFit) + in_role(
        hold_part(bins(clean@), c.n_fit as int, c.n_holdout as int),
        Role::CleanHoldout,
    );
    let ghost views = level_views(c.desync@);
    proof {
        assert(bins(clean@).subrange(0, c.n_fit as int) =~= fit_part(
            bins(clean@),
            c.n_fit as int,
        ));
        assert(job_views(out@) =~= start);
        assert(job_views(out@) =~= start + level_jobs(views, c.n_desync as int, c.seed, 0));
    }
    let mut l: usize = 0;
    while l < c.desync.len()
        invariant
            l <= c.desync@.len(),
            views == level_views(c.desync@),
            views.len() == c.desync@.len(),
            job_views(out@) == start + level_jobs(
                views,
                c.n_desync as int,
                c.seed,
                l as int,
            ),
        decreases c.desync@.len() - l,
    {
        let level: Vec<Bin> = deterministic_order(&c.desync[l], c.seed);
        let ghost before = job_views(out@);
        proof {
            assert(views[l as int] == bins(c.desync@[l as int]@));
            assert(bins(level@).len() == level@.len());
        }
        let to: usize = cut(c.n_desync, level.len());
        push_jobs(&mut out, &level, 0, to, Role::Desync);
        proof {
            assert(bins(level@).subrange(0, to as int) =~= fit_part(
                bins(level@),
                c.n_desync as int,
            ));
            assert(job_views(out@) =~= start + level_jobs(
                views,
                c.n_desync as int,
                c.seed,
                l + 1,
            ));
        }
        l += 1;
    }
    let m: usize = c.packed.len();
    push_jobs(&mut out, &c.packed, 0, m, Role::Packed);
    proof {
        assert(bins(c.packed@).len() == c.packed@.len());
        assert(bins(c.packed@).subrange(0, m as int) =~= bins(c.packed@));
        assert(job_views(out@) =~= comparison_jobs(*c));
    }
    Ok(out)
}

// ── What orders and splits keep ────────────────────────────────────────────

proof fn lemma_bytes_decide(p: Seq<u8>, a: Seq<u8>, b: Seq<u8>)
    ensures
        bytes_before(p + a, p + b) <==> bytes_before(a, b),
    decreases p.len(),
{
    if p.len() > 0 {
        let x = p + a;
        let y = p + b;
        assert(x[0] == y[0]);
        assert(x.skip(1) =~= p.skip(1) + a);
        assert(y.skip(1) =~= p.skip(1) + b);
        lemma_bytes_decide(p.skip(1), a, b);
    } else {
        assert(p + a =~= a && p + b =~= b);
    }
}

/// Bytes come before others as in a dictionary: the first that differ decide, and what
/// has no more bytes comes first.
pub proof fn law_dictionary_order(p: Seq<u8>, x: u8, a: Seq<u8>, y: u8, b: Seq<u8>)
    ensures
        x != y ==> (bytes_before(p + (seq![x] + a), p + (seq![y] + b)) <==> x < y),
        bytes_before(p, p + (seq![x] + a)),
        !bytes_before(p + (seq![x] + a), p),
        !bytes_before(p, p),
{
    lemma_bytes_decide(p, seq![x] + a, seq![y] + b);
    lemma_bytes_decide(p, Seq::empty(), seq![x] + a);
    lemma_bytes_decide(p, seq![x] + a, Seq::empty());
    lemma_bytes_decide(p, Seq::empty(), Seq::empty());
    assert(p + Seq::<u8>::empty() =~= p);
    assert((seq![x] + a)[0] == x && (seq![y] + b)[0] == y);
}

proof fn lemma_called(v: Seq<BinView>, name: Seq<char>, k: int)
    requires
        0 <= k <= v.len(),
    ensures
        match called(v, name, k) {
            Some(i) => 0 <= i < k && v[i].name == name && forall|j: int|
                i < j < k ==> (#[trigger] v[j]).name != name,
            None => forall|j: int| 0 <= j < k ==> (#[trigger] v[j]).name != name,
        },
    decreases k,
{
    if k > 0 {
        lemma_called(v, name, k - 1);
    }
}

proof fn lemma_every_level(levels: Seq<Seq<BinView>>, name: Seq<char>, from: int)
    requires
        0 <= from <= levels.len(),
    ensures
        at_every_level(levels, name, from) <==> forall|l: int|
            from <= l < levels.len() ==> is_at_level(#[trigger] levels[l], name),
    decreases levels.len() - from,
{
    if from < levels.len() {
        lemma_every_level(levels, name, from + 1);
        lemma_called(levels[from], name, levels[from].len() as int);
        assert(is_at_level(levels[from], name) <==> called(
            levels[from],
            name,
            levels[from].len() as int,
        ) is Some) by {
            if is_at_level(levels[from], name) {
                let j = choose|j: int|
                    0 <= j < levels[from].len() && (#[trigger] levels[from][j]).name == name;
                assert(levels[from][j].name == name);
            }
        }
    }
}

/// Whether a level has a binary of that name.
pub open spec fn is_at_level(v: Seq<BinView>, name: Seq<char>) -> bool {
    exists|j: int| 0 <= j < v.len() && (#[trigger] v[j]).name == name
}

proof fn lemma_programs_below(levels: Seq<Seq<BinView>>, k: int, b: BinView)
    requires
        0 < levels.len(),
        0 <= k <= levels[0].len(),
    ensures
        programs_below(levels, k).contains(b) <==> exists|i: int|
            0 <= i < k && #[trigger] levels[0][i] == b && at_every_level(levels, b.name, 0)
                && called(levels[0], b.name, i) is None,
    decreases k,
{
    if k > 0 {
        lemma_programs_below(levels, k - 1, b);
        vstd::seq_lib::lemma_seq_contains_after_push(
            programs_below(levels, k - 1),
            levels[0][k - 1],
            b,
        );
    }
}

/// Programs are the binaries of the first level that were built at every level, of
/// several with one name the first.
pub proof fn law_programs_are_built_everywhere(levels: Seq<Seq<BinView>>, i: int)
    requires
        0 < levels.len(),
        0 <= i < levels[0].len(),
        forall|j: int|
            0 <= j < levels[0].len() && j != i ==> (#[trigger] levels[0][j]).name
                != levels[0][i].name,
    ensures
        programs_below(levels, levels[0].len() as int).contains(levels[0][i]) <==> forall|l: int|
            0 <= l < levels.len() ==> is_at_level(#[trigger] levels[l], levels[0][i].name),
{
    let b = levels[0][i];
    lemma_programs_below(levels, levels[0].len() as int, b);
    lemma_every_level(levels, b.name, 0);
    lemma_called(levels[0], b.name, i);
    assert(levels[0][i] == b);
    if called(levels[0], b.name, i) is Some {
        let j = called(levels[0], b.name, i)->0;
        assert(levels[0][j].name != b.name);
    }
}

proof fn lemma_builds(levels: Seq<Seq<BinView>>, name: Seq<char>, l: int)
    requires
        0 <= l <= levels.len(),
        at_every_level(levels, name, 0),
    ensures
        builds_below(levels, name, l).len() == l,
        forall|i: int|
            0 <= i < l ==> (#[trigger] builds_below(levels, name, l)[i]).name == name
                && levels[i].contains(builds_below(levels, name, l)[i]),
    decreases l,
{
    if l > 0 {
        lemma_builds(levels, name, l - 1);
        lemma_every_level(levels, name, 0);
        let v = levels[l - 1];
        lemma_called(v, name, v.len() as int);
        assert(is_at_level(levels[l - 1], name));
        let j = choose|j: int| 0 <= j < v.len() && (#[trigger] v[j]).name == name;
        assert(v[j].name == name);
        let at = called(v, name, v.len() as int)->0;
        assert(v.contains(v[at]));
        let before = builds_below(levels, name, l - 1);
        let now = builds_below(levels, name, l);
        assert forall|i: int| 0 <= i < l implies (#[trigger] now[i]).name == name
            && levels[i].contains(now[i]) by {
            if i < l - 1 {
                assert(now[i] == before[i]);
            }
        }
    }
}

/// The builds of a program are one of its name from every level, in order.
pub proof fn law_builds_of_a_program(levels: Seq<Seq<BinView>>, name: Seq<char>, l: int)
    requires
        0 <= l < levels.len(),
        forall|i: int| 0 <= i < levels.len() ==> is_at_level(#[trigger] levels[i], name),
    ensures
        ({
            let b = builds_below(levels, name, levels.len() as int);
            &&& b.len() == levels.len()
            &&& b[l].name == name
            &&& levels[l].contains(b[l])
        }),
{
    lemma_every_level(levels, name, 0);
    lemma_builds(levels, name, levels.len() as int);
}

proof fn lemma_all_builds(levels: Seq<Seq<BinView>>, programs: Seq<BinView>, k: int, i: int, l: int)
    requires
        0 <= i < k <= programs.len(),
        0 <= l < levels.len(),
        forall|x: int| 0 <= x < k ==> at_every_level(levels, (#[trigger] programs[x]).name, 0),
    ensures
        all_builds(levels, programs, k).len() == k * levels.len(),
        0 <= i * levels.len() + l < k * levels.len(),
        all_builds(levels, programs, k)[i * levels.len() + l] == builds_below(
            levels,
            programs[i].name,
            levels.len() as int,
        )[l],
    decreases k,
{
    let n = levels.len() as int;
    let before = all_builds(levels, programs, k - 1);
    assert(at_every_level(levels, programs[k - 1].name, 0));
    lemma_builds(levels, programs[k - 1].name, n);
    if k > 1 {
        let x = if i < k - 1 {
            i
        } else {
            0
        };
        lemma_all_builds(levels, programs, k - 1, x, l);
    } else {
        assert(0 * n == 0);
    }
    assert((k - 1) * n + n == k * n) by (nonlinear_arith);
    if i == k - 1 {
        assert(i * n + l == before.len() + l);
    }
    assert(0 <= i * n + l < k * n) by (nonlinear_arith)
        requires
            0 <= i <= k - 1,
            0 <= l < n,
    ;
}

/// All builds of the programs come one program after the other, each at every level.
pub proof fn law_builds_come_by_program(
    levels: Seq<Seq<BinView>>,
    programs: Seq<BinView>,
    i: int,
    l: int,
)
    requires
        0 <= i < programs.len(),
        0 <= l < levels.len(),
        forall|x: int, y: int|
            0 <= x < programs.len() && 0 <= y < levels.len() ==> is_at_level(
                #[trigger] levels[y],
                (#[trigger] programs[x]).name,
            ),
    ensures
        ({
            let all = all_builds(levels, programs, programs.len() as int);
            &&& all.len() == programs.len() * levels.len()
            &&& all[i * levels.len() + l].name == programs[i].name
            &&& levels[l].contains(all[i * levels.len() + l])
        }),
{
    assert forall|x: int| 0 <= x < programs.len() implies at_every_level(
        levels,
        (#[trigger] programs[x]).name,
        0,
    ) by {
        lemma_every_level(levels, programs[x].name, 0);
    }
    lemma_all_builds(levels, programs, programs.len() as int, i, l);
    lemma_builds(levels, programs[i].name, levels.len() as int);
}

proof fn lemma_level_jobs(levels: Seq<Seq<BinView>>, n: int, seed: u64, k: int, j: JobView)
    requires
        0 <= k <= levels.len(),
    ensures
        level_jobs(levels, n, seed, k).contains(j) <==> j.role == Role::Desync && exists|l: int|
            0 <= l < k && fit_part(shuffled(#[trigger] levels[l], seed), n).contains(j.bin),
    decreases k,
{
    if k > 0 {
        lemma_level_jobs(levels, n, seed, k - 1, j);
        let before = level_jobs(levels, n, seed, k - 1);
        let part = fit_part(shuffled(levels[k - 1], seed), n);
        let more = in_role(part, Role::Desync);
        lemma_jobs_concat(before, more, j);
        lemma_in_role(part, Role::Desync, j);
    }
}

proof fn lemma_jobs_concat(a: Seq<JobView>, b: Seq<JobView>, j: JobView)
    ensures
        (a + b).contains(j) <==> a.contains(j) || b.contains(j),
{
    if a.contains(j) {
        let k = choose|k: int| 0 <= k < a.len() && a[k] == j;
        assert((a + b)[k] == j);
    }
    if b.contains(j) {
        let k = choose|k: int| 0 <= k < b.len() && b[k] == j;
        assert((a + b)[a.len() + k] == j);
    }
    if (a + b).contains(j) {
        let k = choose|k: int| 0 <= k < (a + b).len() && (a + b)[k] == j;
        if k < a.len() {
            assert(a[k] == j);
        } else {
            assert(b[k - a.len()] == j);
        }
    }
}

proof fn lemma_in_role(v: Seq<BinView>, role: Role, j: JobView)
    ensures
        in_role(v, role).contains(j) <==> j.role == role && v.contains(j.bin),
{
    let w = in_role(v, role);
    if w.contains(j) {
        let k = choose|k: int| 0 <= k < w.len() && w[k] == j;
        assert(v[k] == j.bin);
    }
    if j.role == role && v.contains(j.bin) {
        let k = choose|k: int| 0 <= k < v.len() && v[k] == j.bin;
        assert(w[k] == j);
    }
}

/// The jobs of a comparison: of the shuffled ordinary binaries the first calibrate and the
/// next are held out, of every shuffled level of junk the first are desynchronised, and
/// all packed ones are packed.
pub proof fn law_roles_of_a_comparison(c: Comparison, j: JobView)
    ensures
        ({
            let clean = shuffled(bins(c.clean@), c.seed);
            comparison_jobs(c).contains(j) <==> match j.role {
                Role::CleanFit => fit_part(clean, c.n_fit as int).contains(j.bin),
                Role::CleanHoldout => hold_part(
                    clean,
                    c.n_fit as int,
                    c.n_holdout as int,
                ).contains(j.bin),
                Role::Desync => exists|l: int|
                    0 <= l < c.desync@.len() && fit_part(
                        shuffled(bins((#[trigger] c.desync@[l])@), c.seed),
                        c.n_desync as int,
                    ).contains(j.bin),
                Role::Packed => bins(c.packed@).contains(j.bin),
            }
        }),
{
    let clean = shuffled(bins(c.clean@), c.seed);
    let levels = level_views(c.desync@);
    let a = in_role(fit_part(clean, c.n_fit as int), Role::CleanFit);
    let b = in_role(hold_part(clean, c.n_fit as int, c.n_holdout as int), Role::CleanHoldout);
    let d = level_jobs(levels, c.n_desync as int, c.seed, levels.len() as int);
    let e = in_role(bins(c.packed@), Role::Packed);
    lemma_jobs_concat(a, b, j);
    lemma_jobs_concat(a + b, d, j);
    lemma_jobs_concat(a + b + d, e, j);
    lemma_in_role(fit_part(clean, c.n_fit as int), Role::CleanFit, j);
    lemma_in_role(
        hold_part(clean, c.n_fit as int, c.n_holdout as int),
        Role::CleanHoldout,
        j,
    );
    lemma_in_role(bins(c.packed@), Role::Packed, j);
    lemma_level_jobs(levels, c.n_desync as int, c.seed, levels.len() as int, j);
    if exists|l: int|
        0 <= l < levels.len() && fit_part(
            shuffled(#[trigger] levels[l], c.seed),
            c.n_desync as int,
        ).contains(j.bin) {
        let l = choose|l: int|
            0 <= l < levels.len() && fit_part(
                shuffled(#[trigger] levels[l], c.seed),
                c.n_desync as int,
            ).contains(j.bin);
        assert(levels[l] == bins(c.desync@[l]@));
    }
    if exists|l: int|
        0 <= l < c.desync@.len() && fit_part(
            shuffled(bins((#[trigger] c.desync@[l])@), c.seed),
            c.n_desync as int,
        ).contains(j.bin) {
        let l = choose|l: int|
            0 <= l < c.desync@.len() && fit_part(
                shuffled(bins((#[trigger] c.desync@[l])@), c.seed),
                c.n_desync as int,
            ).contains(j.bin);
        assert(levels[l] == bins(c.desync@[l]@));
    }
}

} // verus!
