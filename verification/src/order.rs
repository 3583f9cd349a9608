//! Stable sorting.

use vstd::prelude::*;

verus! {

/// Whether index `a` comes before index `b`: by key, and by position where the
/// keys are equal.
pub open spec fn comes_first(keys: Seq<u64>, a: usize, b: usize) -> bool {
    keys[a as int] < keys[b as int] || (keys[a as int] == keys[b as int] && a < b)
}

/// Every entry comes before the later ones.
pub open spec fn in_order(keys: Seq<u64>, r: Seq<usize>) -> bool {
    forall|i: int, j: int| 0 <= i < j < r.len() ==> comes_first(keys, r[i], r[j])
}

/// `r` lists every index of `keys` once, in stable order.
pub open spec fn is_order(keys: Seq<u64>, r: Seq<usize>) -> bool {
    &&& r.len() == keys.len()
    &&& in_order(keys, r)
    &&& forall|i: int| 0 <= i < r.len() ==> (#[trigger] r[i]) < keys.len()
    &&& forall|x: usize| x < keys.len() ==> #[trigger] r.contains(x)
}

/// Merges two runs; every index of the first is smaller than any of the second.
fn merge(keys: &Vec<u64>, a: &Vec<usize>, b: &Vec<usize>) -> (r: Vec<usize>)
    requires
        in_order(keys@, a@),
        in_order(keys@, b@),
        forall|i: int| 0 <= i < a@.len() ==> (#[trigger] a@[i]) < keys@.len(),
        forall|i: int| 0 <= i < b@.len() ==> (#[trigger] b@[i]) < keys@.len(),
        forall|i: int, j: int| 0 <= i < a@.len() && 0 <= j < b@.len() ==> a@[i] < b@[j],
    ensures
        in_order(keys@, r@),
        r@.len() == a@.len() + b@.len(),
        forall|k: int| 0 <= k < r@.len() ==> a@.contains(#[trigger] r@[k]) || b@.contains(r@[k]),
        forall|i: int| 0 <= i < a@.len() ==> r@.contains(#[trigger] a@[i]),
        forall|i: int| 0 <= i < b@.len() ==> r@.contains(#[trigger] b@[i]),
{
    let mut out: Vec<usize> = Vec::new();
    let mut i: usize = 0;
    let mut j: usize = 0;
    while i < a.len() || j < b.len()
        invariant
            i <= a@.len(),
            j <= b@.len(),
            out@.len() == i + j,
            in_order(keys@, a@),
            in_order(keys@, b@),
            in_order(keys@, out@),
            forall|p: int| 0 <= p < a@.len() ==> (#[trigger] a@[p]) < keys@.len(),
            forall|p: int| 0 <= p < b@.len() ==> (#[trigger] b@[p]) < keys@.len(),
            forall|p: int, q: int| 0 <= p < a@.len() && 0 <= q < b@.len() ==> a@[p] < b@[q],
            forall|k: int, p: int|
                0 <= k < out@.len() && i <= p < a@.len() ==> comes_first(keys@, out@[k], a@[p]),
            forall|k: int, p: int|
                0 <= k < out@.len() && j <= p < b@.len() ==> comes_first(keys@, out@[k], b@[p]),
            forall|k: int|
                0 <= k < out@.len() ==> a@.contains(#[trigger] out@[k]) || b@.contains(out@[k]),
            forall|p: int| 0 <= p < i ==> out@.contains(#[trigger] a@[p]),
            forall|p: int| 0 <= p < j ==> out@.contains(#[trigger] b@[p]),
        decreases a@.len() - i + b@.len() - j,
    {
        let ghost before = out@;
        let left: bool = i < a.len() && (j >= b.len() || keys[a[i]] <= keys[b[j]]);
        if left {
            out.push(a[i]);
            i += 1;
        } else {
            out.push(b[j]);
            j += 1;
        }
        proof {
            let n = before.len() as int;
            assert forall|x: usize| before.contains(x) implies #[trigger] out@.contains(x) by {
                let k = choose|k: int| 0 <= k < before.len() && before[k] == x;
                assert(out@[k] == x);
            }
            assert(out@[n] == out@.last());
            assert(out@.contains(out@[n]));
            assert forall|k: int| 0 <= k < out@.len() implies a@.contains(#[trigger] out@[k])
                || b@.contains(out@[k]) by {
                if k < n {
                    assert(out@[k] == before[k]);
                }
            }
            assert forall|k: int, p: int|
                0 <= k < out@.len() && i <= p < a@.len() implies comes_first(
                keys@,
                out@[k],
                a@[p],
            ) by {
                if k < n {
                    assert(out@[k] == before[k]);
                } else if left {
                    assert(comes_first(keys@, a@[i - 1], a@[p]));
                } else {
                    assert(i == p || comes_first(keys@, a@[i as int], a@[p]));
                }
            }
            assert forall|k: int, p: int|
                0 <= k < out@.len() && j <= p < b@.len() implies comes_first(
                keys@,
                out@[k],
                b@[p],
            ) by {
                if k < n {
                    assert(out@[k] == before[k]);
                } else if left {
                    assert(j == p || comes_first(keys@, b@[j as int], b@[p]));
                    assert(a@[i - 1] < b@[p]);
                } else {
                    assert(comes_first(keys@, b@[j - 1], b@[p]));
                }
            }
        }
    }
    out
}

fn sort_range(keys: &Vec<u64>, lo: usize, hi: usize) -> (r: Vec<usize>)
    requires
        lo <= hi <= keys@.len(),
    ensures
        in_order(keys@, r@),
        r@.len() == hi - lo,
        forall|k: int| 0 <= k < r@.len() ==> lo <= #[trigger] r@[k] < hi,
        forall|x: usize| lo <= x < hi ==> #[trigger] r@.contains(x),
    decreases hi - lo,
{
    let mut out: Vec<usize> = Vec::new();
    if hi - lo == 0 {
        return out;
    }
    if hi - lo == 1 {
        out.push(lo);
        proof {
            assert(out@[0] == lo);
        }
        return out;
    }
    let mid: usize = lo + (hi - lo) / 2;
    let a: Vec<usize> = sort_range(keys, lo, mid);
    let b: Vec<usize> = sort_range(keys, mid, hi);
    let r: Vec<usize> = merge(keys, &a, &b);
    proof {
        assert forall|k: int| 0 <= k < r@.len() implies lo <= #[trigger] r@[k] < hi by {
            let x = r@[k];
            if a@.contains(x) {
                let p = choose|p: int| 0 <= p < a@.len() && a@[p] == x;
                assert(lo <= a@[p] < mid);
            } else {
                let p = choose|p: int| 0 <= p < b@.len() && b@[p] == x;
                assert(mid <= b@[p] < hi);
            }
        }
        assert forall|x: usize| lo <= x < hi implies #[trigger] r@.contains(x) by {
            if x < mid {
                assert(a@.contains(x));
                let p = choose|p: int| 0 <= p < a@.len() && a@[p] == x;
                assert(r@.contains(a@[p]));
            } else {
                assert(b@.contains(x));
                let p = choose|p: int| 0 <= p < b@.len() && b@[p] == x;
                assert(r@.contains(b@[p]));
            }
        }
    }
    r
}

/// The indices of `keys` in the order of their keys; equal keys stay in place.
pub fn stable_order(keys: &Vec<u64>) -> (r: Vec<usize>)
    ensures
        is_order(keys@, r@),
{
    sort_range(keys, 0, keys.len())
}

/// A stable order lists no index twice.
pub proof fn law_order_is_distinct(keys: Seq<u64>, r: Seq<usize>)
    requires
        is_order(keys, r),
    ensures
        r.no_duplicates(),
{
    assert forall|i: int, j: int| 0 <= i < r.len() && 0 <= j < r.len() && i != j implies r[i]
        != r[j] by {
        if i < j {
            assert(comes_first(keys, r[i], r[j]));
        } else {
            assert(comes_first(keys, r[j], r[i]));
        }
    }
}

proof fn lemma_order_prefix(keys: Seq<u64>, r: Seq<usize>, q: Seq<usize>, k: int)
    requires
        is_order(keys, r),
        is_order(keys, q),
        0 <= k <= r.len(),
    ensures
        r.take(k) == q.take(k),
    decreases k,
{
    if k > 0 {
        lemma_order_prefix(keys, r, q, k - 1);
        let i = k - 1;
        if r[i] != q[i] {
            assert(q.contains(r[i]));
            let a = choose|a: int| 0 <= a < q.len() && q[a] == r[i];
            assert(r.contains(q[i]));
            let b = choose|b: int| 0 <= b < r.len() && r[b] == q[i];
            if a < i {
                assert(r.take(i)[a] == q.take(i)[a]);
                assert(comes_first(keys, r[a], r[i]));
            } else if b < i {
                assert(r.take(i)[b] == q.take(i)[b]);
                assert(comes_first(keys, q[b], q[i]));
            } else {
                assert(comes_first(keys, q[i], q[a]));
                assert(comes_first(keys, r[i], r[b]));
            }
        }
        assert forall|x: int| 0 <= x < k implies r.take(k)[x] == q.take(k)[x] by {
            if x < i {
                assert(r.take(i)[x] == q.take(i)[x]);
            }
        }
        assert(r.take(k) =~= q.take(k));
    } else {
        assert(r.take(k) =~= q.take(k));
    }
}

/// There is only one stable order.
pub proof fn law_order_is_unique(keys: Seq<u64>, r: Seq<usize>, q: Seq<usize>)
    requires
        is_order(keys, r),
        is_order(keys, q),
    ensures
        r == q,
{
    lemma_order_prefix(keys, r, q, r.len() as int);
    assert(r.take(r.len() as int) =~= r);
    assert(q.take(q.len() as int) =~= q);
}

/// `o` lists the numbers below its length, each once.
pub open spec fn is_permutation(o: Seq<usize>) -> bool {
    &&& o.no_duplicates()
    &&& forall|k: int| 0 <= k < o.len() ==> (#[trigger] o[k]) < o.len()
    &&& forall|x: usize| x < o.len() ==> #[trigger] o.contains(x)
}

/// How many of the first `k` entries of `r` come before an index of key `x` that
/// stands behind all of them.
spec fn place(keys: Seq<u64>, r: Seq<usize>, x: u64, k: int) -> int
    decreases k,
{
    if k <= 0 {
        0
    } else if keys[r[k - 1] as int] <= x {
        k
    } else {
        place(keys, r, x, k - 1)
    }
}

proof fn lemma_place(keys: Seq<u64>, r: Seq<usize>, x: u64, k: int)
    requires
        in_order(keys, r),
        0 <= k <= r.len(),
    ensures
        0 <= place(keys, r, x, k) <= k,
        forall|i: int| 0 <= i < place(keys, r, x, k) ==> keys[#[trigger] r[i] as int] <= x,
        forall|i: int| place(keys, r, x, k) <= i < k ==> keys[#[trigger] r[i] as int] > x,
    decreases k,
{
    if k > 0 {
        if keys[r[k - 1] as int] <= x {
            assert forall|i: int| 0 <= i < k implies keys[#[trigger] r[i] as int] <= x by {
                if i < k - 1 {
                    assert(comes_first(keys, r[i], r[k - 1]));
                }
            }
        } else {
            lemma_place(keys, r, x, k - 1);
        }
    }
}

proof fn lemma_order_below(keys: Seq<u64>, n: int)
    requires
        0 <= n <= keys.len() <= usize::MAX,
    ensures
        exists|r: Seq<usize>| #[trigger] is_order(keys.take(n), r),
    decreases n,
{
    if n == 0 {
        assert(is_order(keys.take(0), Seq::<usize>::empty()));
    } else {
        lemma_order_below(keys, n - 1);
        let old_keys = keys.take(n - 1);
        let new_keys = keys.take(n);
        let r = choose|r: Seq<usize>| #[trigger] is_order(old_keys, r);
        let x = keys[n - 1];
        let p = place(old_keys, r, x, r.len() as int);
        lemma_place(old_keys, r, x, r.len() as int);
        let q = r.insert(p, (n - 1) as usize);
        assert forall|i: int| 0 <= i < r.len() implies new_keys[#[trigger] r[i] as int]
            == old_keys[r[i] as int] by {}
        assert forall|i: int| 0 <= i < q.len() implies (#[trigger] q[i]) < new_keys.len() by {
            if i < p {
                assert(q[i] == r[i]);
            } else if i > p {
                assert(q[i] == r[i - 1]);
            }
        }
        assert forall|i: int, j: int| 0 <= i < j < q.len() implies comes_first(
            new_keys,
            q[i],
            q[j],
        ) by {
            if i < p {
                assert(q[i] == r[i]);
                if j < p {
                    assert(q[j] == r[j]);
                    assert(comes_first(old_keys, r[i], r[j]));
                } else if j > p {
                    assert(q[j] == r[j - 1]);
                    assert(comes_first(old_keys, r[i], r[j - 1]));
                }
            } else if i == p {
                assert(q[j] == r[j - 1]);
            } else {
                assert(q[i] == r[i - 1]);
                assert(q[j] == r[j - 1]);
                assert(comes_first(old_keys, r[i - 1], r[j - 1]));
            }
        }
        assert forall|x: usize| x < new_keys.len() implies #[trigger] q.contains(x) by {
            if x == n - 1 {
                assert(q[p] == x);
            } else {
                assert(r.contains(x));
                let i = choose|i: int| 0 <= i < r.len() && r[i] == x;
                if i < p {
                    assert(q[i] == x);
                } else {
                    assert(q[i + 1] == x);
                }
            }
        }
        assert(is_order(new_keys, q));
    }
}

/// Every list of keys has a stable order.
pub proof fn law_keys_can_be_ordered(keys: Seq<u64>)
    requires
        keys.len() <= usize::MAX,
    ensures
        exists|r: Seq<usize>| #[trigger] is_order(keys, r),
{
    lemma_order_below(keys, keys.len() as int);
    assert(keys.take(keys.len() as int) =~= keys);
}

} // verus!
