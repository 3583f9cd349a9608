//! The report on the shapes of whole groups of programs.

use std::collections::BTreeSet;

use vstd::prelude::*;

use crate::flowgraph::{
    are_entries, are_measures, discover_entries, is_function_measure, measure_functions, summary,
    Metrics,
};
use crate::superset::Superset;
use crate::text::{chars_of, strings};

verus! {

/// Whether `m` is the shape of a program.
pub open spec fn is_topology(
    m: Metrics,
    s: Superset,
    recovered: Set<u64>,
    table: Seq<u64>,
    e_entry: u64,
    entries: Seq<u64>,
    ms: Seq<Option<Metrics>>,
) -> bool {
    &&& are_entries(entries, s, recovered, table, e_entry)
    &&& are_measures(
        ms,
        s,
        recovered,
        table,
        entries,
        (s.base_addr + s.bytes@.len()) as u64,
    )
    &&& m == summary(ms, entries.len() as int)
}

/// Whether `m` is the shape of a program, by some measure of its functions.
pub open spec fn has_topology(
    m: Metrics,
    s: Superset,
    recovered: Set<u64>,
    table: Seq<u64>,
    e_entry: u64,
) -> bool {
    exists|entries: Seq<u64>, ms: Seq<Option<Metrics>>| #[trigger]
        is_topology(m, s, recovered, table, e_entry, entries, ms)
}

/// The shape of a program whose instructions were recovered; nothing where there
/// are none.
pub fn topology(s: &Superset, recovered: &BTreeSet<u64>, table: &Vec<u64>, e_entry: u64) -> (r:
    Option<Metrics>)
    requires
        s.wf(),
        s.base_addr + s.bytes@.len() <= u64::MAX,
        recovered@.len() * (table@.len() + 2) <= u64::MAX,
    ensures
        r is None <==> recovered@ == Set::<u64>::empty(),
        r matches Some(m) ==> has_topology(m, *s, recovered@, table@, e_entry),
{
    broadcast use vstd::std_specs::btree::group_btree_axioms;

    if recovered.is_empty() {
        proof {
            assert(recovered@ =~= Set::empty());
        }
        return None;
    }
    let entries: Vec<u64> = discover_entries(s, recovered, table, e_entry);
    let n: usize = s.bytes.len();
    let hi: u64 = s.base_addr + n as u64;
    let m: Metrics = measure_functions(s, recovered, table, &entries, hi);
    proof {
        let ms = choose|ms: Seq<Option<Metrics>>| #[trigger]
            are_measures(ms, *s, recovered@, table@, entries@, hi) && m == summary(
                ms,
                entries@.len() as int,
            );
        assert(is_topology(m, *s, recovered@, table@, e_entry, entries@, ms));
        assert(has_topology(m, *s, recovered@, table@, e_entry));
    }
    Some(m)
}

/// Whether `part` stands in `s` at position `i`.
pub open spec fn stands_at(s: Seq<char>, part: Seq<char>, i: int) -> bool {
    0 <= i && i + part.len() <= s.len() && s.subrange(i, i + part.len()) == part
}

/// Whether `part` stands anywhere in `s`.
pub open spec fn mentions(s: Seq<char>, part: Seq<char>) -> bool {
    exists|i: int| #[trigger] stands_at(s, part, i)
}

/// Whether `part` stands anywhere in `s`.
pub fn contains_text(s: &str, part: &str) -> (r: bool)
    ensures
        r == mentions(s@, part@),
{
    let a: Vec<char> = chars_of(s);
    let b: Vec<char> = chars_of(part);
    if b.len() > a.len() {
        return false;
    }
    let last: usize = a.len() - b.len();
    let mut i: usize = 0;
    let mut found: bool = false;
    while i <= last && !found
        invariant
            a@ == s@,
            b@ == part@,
            last + b@.len() == a@.len(),
            i <= last + 1,
            a@.len() <= usize::MAX,
            last < usize::MAX || b@.len() == 0,
            found ==> mentions(s@, part@),
            !found ==> forall|j: int| 0 <= j < i ==> !#[trigger] stands_at(s@, part@, j),
        decreases
                last + 1 - i,
                if found {
                    0int
                } else {
                    1int
                },
    {
        let mut k: usize = 0;
        while k < b.len() && a[i + k] == b[k]
            invariant
                i <= last,
                last + b@.len() == a@.len(),
                a@.len() <= usize::MAX,
                k <= b@.len(),
                forall|j: int| 0 <= j < k ==> a@[i + j] == #[trigger] b@[j],
            decreases b@.len() - k,
        {
            k += 1;
        }
        if k == b.len() {
            proof {
                assert(s@.subrange(i as int, i + part@.len()) =~= part@);
                assert(stands_at(s@, part@, i as int));
            }
            found = true;
        } else {
            proof {
                assert(!stands_at(s@, part@, i as int)) by {
                    if stands_at(s@, part@, i as int) {
                        assert(s@.subrange(i as int, i + part@.len())[k as int] == part@[k as int]);
                    }
                }
            }
            i += 1;
        }
    }
    found
}

/// The positions, among the first `k`, of labels that mention `part`.
pub open spec fn mentioning(labels: Seq<Seq<char>>, part: Seq<char>, k: int) -> Seq<usize>
    decreases k,
{
    if k <= 0 {
        Seq::empty()
    } else if mentions(labels[k - 1], part) {
        mentioning(labels, part, k - 1).push((k - 1) as usize)
    } else {
        mentioning(labels, part, k - 1)
    }
}

/// The members of a group: the programs whose label mentions `part`.
pub fn group_members(labels: &Vec<String>, part: &str) -> (r: Vec<usize>)
    ensures
        r@ == mentioning(strings(labels@), part@, labels@.len() as int),
{
    let mut out: Vec<usize> = Vec::new();
    let mut k: usize = 0;
    while k < labels.len()
        invariant
            k <= labels@.len(),
            out@ == mentioning(strings(labels@), part@, k as int),
        decreases labels@.len() - k,
    {
        proof {
            assert(strings(labels@)[k as int] == labels@[k as int]@);
        }
        if contains_text(labels[k].as_str(), part) {
            out.push(k);
        }
        k += 1;
    }
    out
}

/// The greatest of the keys at the first `k` positions of `at`.
pub open spec fn greatest(keys: Seq<u64>, at: Seq<usize>, k: int) -> Option<u64>
    decreases k,
{
    if k <= 0 {
        None
    } else {
        let x = keys[at[k - 1] as int];
        match greatest(keys, at, k - 1) {
            Some(y) => if y >= x {
                Some(y)
            } else {
                Some(x)
            },
            None => Some(x),
        }
    }
}

/// How many of the keys at the first `k` positions lie above the threshold; all
/// where there is none.
pub open spec fn firing(keys: Seq<u64>, at: Seq<usize>, threshold: Option<u64>, k: int) -> int
    decreases k,
{
    if k <= 0 {
        0
    } else {
        firing(keys, at, threshold, k - 1) + (match threshold {
            Some(t) => if keys[at[k - 1] as int] > t {
                1int
            } else {
                0
            },
            None => 1,
        })
    }
}

/// The threshold at which no member of the group of controls fires.
pub fn control_threshold(keys: &Vec<u64>, controls: &Vec<usize>) -> (r: Option<u64>)
    requires
        forall|j: int| 0 <= j < controls@.len() ==> #[trigger] controls@[j] < keys@.len(),
    ensures
        r == greatest(keys@, controls@, controls@.len() as int),
{
    let mut best: Option<u64> = None;
    let mut k: usize = 0;
    while k < controls.len()
        invariant
            k <= controls@.len(),
            forall|j: int| 0 <= j < controls@.len() ==> #[trigger] controls@[j] < keys@.len(),
            best == greatest(keys@, controls@, k as int),
        decreases controls@.len() - k,
    {
        let x: u64 = keys[controls[k]];
        best = match best {
            Some(y) => if y >= x {
                Some(y)
            } else {
                Some(x)
            },
            None => Some(x),
        };
        k += 1;
    }
    best
}

/// How many members of a group fire.
pub fn count_firing(keys: &Vec<u64>, members: &Vec<usize>, threshold: Option<u64>) -> (r: usize)
    requires
        forall|j: int| 0 <= j < members@.len() ==> #[trigger] members@[j] < keys@.len(),
    ensures
        r == firing(keys@, members@, threshold, members@.len() as int),
{
    let mut n: usize = 0;
    let mut k: usize = 0;
    while k < members.len()
        invariant
            k <= members@.len(),
            forall|j: int| 0 <= j < members@.len() ==> #[trigger] members@[j] < keys@.len(),
            n == firing(keys@, members@, threshold, k as int),
            n <= k,
        decreases members@.len() - k,
    {
        let fires: bool = match threshold {
            Some(t) => keys[members[k]] > t,
            None => true,
        };
        if fires {
            n += 1;
        }
        k += 1;
    }
    n
}

proof fn lemma_greatest_bounds(keys: Seq<u64>, at: Seq<usize>, k: int, j: int)
    requires
        0 <= j < k,
    ensures
        greatest(keys, at, k) matches Some(t) && keys[at[j] as int] <= t,
    decreases k,
{
    if j < k - 1 {
        lemma_greatest_bounds(keys, at, k - 1, j);
    }
}

proof fn lemma_none_fires(keys: Seq<u64>, at: Seq<usize>, n: int, k: int)
    requires
        0 <= k <= n,
    ensures
        firing(keys, at, greatest(keys, at, n), k) == 0,
    decreases k,
{
    if k > 0 {
        lemma_none_fires(keys, at, n, k - 1);
        lemma_greatest_bounds(keys, at, n, k - 1);
    }
}

/// At the threshold of the controls no control fires.
pub proof fn law_controls_do_not_fire(keys: Seq<u64>, controls: Seq<usize>)
    ensures
        firing(
            keys,
            controls,
            greatest(keys, controls, controls.len() as int),
            controls.len() as int,
        ) == 0,
{
    lemma_none_fires(keys, controls, controls.len() as int, controls.len() as int);
}

proof fn lemma_mentioning(labels: Seq<Seq<char>>, part: Seq<char>, k: int)
    requires
        0 <= k <= labels.len() <= usize::MAX,
    ensures
        forall|i: usize| #[trigger]
            mentioning(labels, part, k).contains(i) <==> i < k && mentions(labels[i as int], part),
        forall|i: int, j: int|
            0 <= i < j < mentioning(labels, part, k).len() ==> mentioning(labels, part, k)[i]
                < mentioning(labels, part, k)[j],
    decreases k,
{
    if k > 0 {
        lemma_mentioning(labels, part, k - 1);
        let before = mentioning(labels, part, k - 1);
        let now = mentioning(labels, part, k);
        if mentions(labels[k - 1], part) {
            assert forall|i: usize| #[trigger] now.contains(i) <==> i < k && mentions(
                labels[i as int],
                part,
            ) by {
                vstd::seq_lib::lemma_seq_contains_after_push(before, (k - 1) as usize, i);
                assert(before.contains(i) <==> i < k - 1 && mentions(labels[i as int], part));
            }
            assert forall|i: int, j: int| 0 <= i < j < now.len() implies now[i] < now[j] by {
                assert(before.contains(before[i]));
            }
        } else {
            assert forall|i: usize| #[trigger] now.contains(i) <==> i < k && mentions(
                labels[i as int],
                part,
            ) by {
                assert(before.contains(i) <==> i < k - 1 && mentions(labels[i as int], part));
            }
        }
    }
}

/// A group has as members, in order, exactly the programs whose label holds its name.
pub proof fn law_members_mention_the_group(
    labels: Seq<Seq<char>>,
    pre: Seq<char>,
    part: Seq<char>,
    post: Seq<char>,
    i: usize,
)
    requires
        i < labels.len() <= usize::MAX,
    ensures
        labels[i as int] == pre + part + post ==> mentioning(
            labels,
            part,
            labels.len() as int,
        ).contains(i),
        mentioning(labels, part, labels.len() as int).contains(i) ==> exists|a: Seq<char>, b: Seq<
            char,
        >| labels[i as int] == #[trigger] (a + part + b),
        forall|x: int, y: int|
            0 <= x < y < mentioning(labels, part, labels.len() as int).len() ==> mentioning(
                labels,
                part,
                labels.len() as int,
            )[x] < mentioning(labels, part, labels.len() as int)[y],
{
    lemma_mentioning(labels, part, labels.len() as int);
    let s = labels[i as int];
    if s == pre + part + post {
        assert(s.subrange(pre.len() as int, (pre.len() + part.len()) as int) =~= part);
        assert(stands_at(s, part, pre.len() as int));
    }
    if mentions(s, part) {
        let at = choose|at: int| #[trigger] stands_at(s, part, at);
        let a = s.take(at);
        let b = s.skip(at + part.len());
        assert(s =~= a + part + b);
    }
}

proof fn lemma_greatest_is_one(keys: Seq<u64>, at: Seq<usize>, k: int)
    requires
        0 <= k,
    ensures
        greatest(keys, at, k) is None <==> k == 0,
        greatest(keys, at, k) matches Some(t) ==> exists|j: int|
            0 <= j < k && keys[#[trigger] at[j] as int] == t,
    decreases k,
{
    if k > 0 {
        lemma_greatest_is_one(keys, at, k - 1);
        assert(keys[at[k - 1] as int] == keys[at[k - 1] as int]);
    }
}

/// The threshold of the controls is the greatest of their keys; without controls there
/// is none.
pub proof fn law_control_threshold_is_the_greatest(keys: Seq<u64>, controls: Seq<usize>, j: int)
    ensures
        greatest(keys, controls, controls.len() as int) is None <==> controls.len() == 0,
        greatest(keys, controls, controls.len() as int) matches Some(t) ==> exists|i: int|
            0 <= i < controls.len() && keys[#[trigger] controls[i] as int] == t,
        0 <= j < controls.len() ==> (greatest(keys, controls, controls.len() as int) matches Some(t)
            && keys[controls[j] as int] <= t),
{
    lemma_greatest_is_one(keys, controls, controls.len() as int);
    if 0 <= j < controls.len() {
        lemma_greatest_bounds(keys, controls, controls.len() as int, j);
    }
}

proof fn lemma_firing(keys: Seq<u64>, at: Seq<usize>, threshold: Option<u64>, k: int)
    requires
        0 <= k <= at.len(),
    ensures
        firing(keys, at, threshold, k) == at.take(k).filter(
            |i: usize|
                threshold matches Some(t) ==> keys[i as int] > t,
        ).len(),
    decreases k,
{
    reveal(Seq::filter);
    if k > 0 {
        lemma_firing(keys, at, threshold, k - 1);
        assert(at.take(k).drop_last() =~= at.take(k - 1));
        assert(at.take(k).last() == at[k - 1]);
    } else {
        assert(at.take(k) =~= Seq::empty());
    }
}

/// Those of a group fire whose key lies above the threshold; without a threshold all do.
pub proof fn law_firing_is_above_the_threshold(
    keys: Seq<u64>,
    members: Seq<usize>,
    threshold: Option<u64>,
)
    ensures
        firing(keys, members, threshold, members.len() as int) == members.filter(
            |i: usize|
                threshold matches Some(t) ==> keys[i as int] > t,
        ).len(),
{
    lemma_firing(keys, members, threshold, members.len() as int);
    assert(members.take(members.len() as int) =~= members);
}

/// The shape of a program is taken over its entries, the last of which ends with the
/// code.
pub proof fn law_last_function_ends_with_the_code(
    m: Metrics,
    s: Superset,
    recovered: Set<u64>,
    table: Seq<u64>,
    e_entry: u64,
)
    requires
        has_topology(m, s, recovered, table, e_entry),
        s.base_addr + s.bytes@.len() <= u64::MAX,
    ensures
        exists|entries: Seq<u64>, ms: Seq<Option<Metrics>>|
            {
                &&& #[trigger] are_entries(entries, s, recovered, table, e_entry)
                &&& ms.len() == entries.len()
                &&& m == #[trigger] summary(ms, entries.len() as int)
                &&& forall|k: int|
                    0 <= k < ms.len() ==> is_function_measure(
                        #[trigger] ms[k],
                        s,
                        recovered,
                        table,
                        entries[k],
                        if k == entries.len() - 1 {
                            (s.base_addr + s.bytes@.len()) as u64
                        } else {
                            entries[k + 1]
                        },
                    )
            },
{
    let (entries, ms): (Seq<u64>, Seq<Option<Metrics>>) = choose|
        entries: Seq<u64>,
        ms: Seq<Option<Metrics>>,
    | #[trigger] is_topology(m, s, recovered, table, e_entry, entries, ms);
    assert(are_entries(entries, s, recovered, table, e_entry));
    assert(m == summary(ms, entries.len() as int));
}

} // verus!
