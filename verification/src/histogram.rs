//! Counts of bytes and of scores.

use vstd::prelude::*;

use crate::bench::{how_many, law_counts_are_of_a_kind, lemma_how_many};

verus! {

// ── Bytes ──────────────────────────────────────────────────────────────────

/// Half of the window around an offset whose bytes are counted.
pub const ENTROPY_HALF_WINDOW: usize = 128;

/// Being the byte `v`.
pub open spec fn is_byte(v: int) -> spec_fn(u8) -> bool {
    |b: u8| b == v
}

/// How often each byte occurs.
pub fn byte_counts(b: &[u8]) -> (r: Vec<usize>)
    ensures
        r@.len() == 256,
        forall|v: int| 0 <= v < 256 ==> #[trigger] r@[v] == how_many(b@, is_byte(v), b@.len() as int),
{
    let mut out: Vec<usize> = Vec::new();
    let mut v: usize = 0;
    while v < 256
        invariant
            v <= 256,
            out@.len() == v,
            forall|i: int| 0 <= i < v ==> #[trigger] out@[i] == 0,
        decreases 256 - v,
    {
        out.push(0);
        v += 1;
    }
    let n: usize = b.len();
    let mut k: usize = 0;
    while k < n
        invariant
            n == b@.len(),
            k <= n,
            out@.len() == 256,
            forall|i: int|
                0 <= i < 256 ==> #[trigger] out@[i] == how_many(b@, is_byte(i), k as int),
        decreases n - k,
    {
        let at: usize = b[k] as usize;
        let ghost before = out@;
        proof {
            lemma_how_many(b@, is_byte(at as int), k as int);
        }
        out.set(at, out[at] + 1);
        proof {
            assert forall|i: int| 0 <= i < 256 implies #[trigger] out@[i] == how_many(
                b@,
                is_byte(i),
                k + 1,
            ) by {
                assert(before[i] == how_many(b@, is_byte(i), k as int));
            }
        }
        k += 1;
    }
    out
}

/// The counts of the bytes below `v`, added up.
pub open spec fn counts_total(b: Seq<u8>, v: int) -> int
    decreases v,
{
    if v <= 0 {
        0
    } else {
        counts_total(b, v - 1) + how_many(b, is_byte(v - 1), b.len() as int)
    }
}

/// Being a byte below `v`.
spec fn is_below(v: int) -> spec_fn(u8) -> bool {
    |b: u8| b < v
}

proof fn lemma_below_step(b: Seq<u8>, v: int, k: int)
    requires
        0 < v,
        0 <= k <= b.len(),
    ensures
        how_many(b, is_below(v), k) == how_many(b, is_below(v - 1), k) + how_many(
            b,
            is_byte(v - 1),
            k,
        ),
    decreases k,
{
    if k > 0 {
        lemma_below_step(b, v, k - 1);
    }
}

proof fn lemma_total_below(b: Seq<u8>, v: int)
    requires
        0 <= v,
    ensures
        counts_total(b, v) == how_many(b, is_below(v), b.len() as int),
    decreases v,
{
    if v > 0 {
        lemma_total_below(b, v - 1);
        lemma_below_step(b, v, b.len() as int);
    } else {
        lemma_none_below(b, b.len() as int);
    }
}

proof fn lemma_none_below(b: Seq<u8>, k: int)
    requires
        0 <= k <= b.len(),
    ensures
        how_many(b, is_below(0), k) == 0,
        how_many(b, is_below(256), k) == k,
    decreases k,
{
    if k > 0 {
        lemma_none_below(b, k - 1);
    }
}

/// Every byte is counted once.
pub proof fn law_counts_add_up(b: Seq<u8>)
    ensures
        counts_total(b, 256) == b.len(),
{
    lemma_total_below(b, 256);
    lemma_none_below(b, b.len() as int);
}

/// A stretch of offsets.
#[derive(Debug, Clone, Copy, PartialEq, Eq, Structural)]
pub struct Stretch {
    /// The first offset.
    pub lo: usize,
    /// The offset behind the last.
    pub hi: usize,
}

/// The window around `offset`, cut at the ends of `len` bytes.
pub open spec fn window_around(offset: int, half: int, len: int) -> (int, int) {
    (
        if offset < half {
            0
        } else {
            offset - half
        },
        if offset + half < len {
            offset + half
        } else {
            len
        },
    )
}

/// The window around `offset`, cut at the ends of `len` bytes.
pub fn local_window(offset: usize, half: usize, len: usize) -> (r: Stretch)
    requires
        offset <= len,
    ensures
        (r.lo as int, r.hi as int) == window_around(offset as int, half as int, len as int),
        r.lo <= r.hi <= len,
{
    let lo: usize = if offset < half {
        0
    } else {
        offset - half
    };
    let hi: usize = if half < len - offset {
        offset + half
    } else {
        len
    };
    Stretch { lo, hi }
}

/// Length of a window of a region.
pub const REGION_WINDOW: usize = 1024;

/// Distance between windows of a region.
pub const REGION_STEP: usize = 512;

/// The windows of a region of `len` bytes whose start is below `k` steps.
pub open spec fn windows_below(len: int, k: int) -> Seq<Stretch>
    decreases k,
{
    if k <= 0 {
        Seq::empty()
    } else {
        windows_below(len, k - 1).push(
            Stretch {
                lo: ((k - 1) * REGION_STEP) as usize,
                hi: ((k - 1) * REGION_STEP + REGION_WINDOW) as usize,
            },
        )
    }
}

/// How many whole windows a region of `len` bytes has.
pub open spec fn window_count(len: int) -> int {
    (len - REGION_WINDOW) / (REGION_STEP as int) + 1
}

/// The windows of a region: as many whole ones as fit, half a window apart; the
/// region itself where it is no longer than a window.
pub fn region_windows(len: usize) -> (r: Vec<Stretch>)
    ensures
        len <= REGION_WINDOW ==> r@ == seq![Stretch { lo: 0, hi: len }],
        len > REGION_WINDOW ==> r@ == windows_below(len as int, window_count(len as int)),
        forall|i: int| 0 <= i < r@.len() ==> (#[trigger] r@[i]).lo <= r@[i].hi <= len,
{
    let mut out: Vec<Stretch> = Vec::new();
    if len <= REGION_WINDOW {
        out.push(Stretch { lo: 0, hi: len });
        proof {
            assert(out@ =~= seq![Stretch { lo: 0, hi: len }]);
        }
        return out;
    }
    let mut at: usize = 0;
    let mut more: bool = true;
    let ghost mut k: int = 0;
    while more
        invariant
            len > REGION_WINDOW,
            0 <= k,
            more ==> at == k * REGION_STEP,
            at + REGION_WINDOW <= len,
            !more ==> k == window_count(len as int),
            out@ == windows_below(len as int, k),
            forall|i: int| 0 <= i < out@.len() ==> (#[trigger] out@[i]).lo <= out@[i].hi <= len,
        decreases len - at, more as int,
    {
        out.push(Stretch { lo: at, hi: at + REGION_WINDOW });
        proof {
            k = k + 1;
        }
        if REGION_STEP <= len - REGION_WINDOW - at {
            at += REGION_STEP;
        } else {
            more = false;
        }
    }
    out
}

// ── Scores ─────────────────────────────────────────────────────────────────

/// A score that fell into a bin, and whether it belongs to a true address.
#[derive(Debug, Clone, Copy, PartialEq, Eq, Structural)]
pub struct Binned {
    /// The bin.
    pub bin: usize,
    /// Whether the address is true.
    pub positive: bool,
}

/// What fell into one bin.
#[derive(Debug, Clone, Copy, PartialEq, Eq, Structural)]
pub struct Bin {
    /// Scores.
    pub count: usize,
    /// Those of true addresses.
    pub positives: usize,
}

/// Having fallen into bin `b`.
pub open spec fn falls_into(b: int) -> spec_fn(Binned) -> bool {
    |x: Binned| x.bin == b
}

/// Having fallen into bin `b`, and being true.
pub open spec fn truly_falls_into(b: int) -> spec_fn(Binned) -> bool {
    |x: Binned| x.bin == b && x.positive
}

/// Counts what fell into each of `n` bins.
pub fn fill_bins(v: &Vec<Binned>, n: usize) -> (r: Vec<Bin>)
    requires
        forall|i: int| 0 <= i < v@.len() ==> (#[trigger] v@[i]).bin < n,
    ensures
        r@.len() == n,
        forall|b: int|
            0 <= b < n ==> (#[trigger] r@[b]).count == how_many(v@, falls_into(b), v@.len() as int)
                && r@[b].positives == how_many(v@, truly_falls_into(b), v@.len() as int),
{
    let mut out: Vec<Bin> = Vec::new();
    let mut b: usize = 0;
    while b < n
        invariant
            b <= n,
            out@.len() == b,
            forall|i: int| 0 <= i < b ==> #[trigger] out@[i] == (Bin { count: 0, positives: 0 }),
        decreases n - b,
    {
        out.push(Bin { count: 0, positives: 0 });
        b += 1;
    }
    let len: usize = v.len();
    let mut k: usize = 0;
    while k < len
        invariant
            len == v@.len(),
            k <= len,
            out@.len() == n,
            forall|i: int| 0 <= i < v@.len() ==> (#[trigger] v@[i]).bin < n,
            forall|i: int|
                0 <= i < n ==> (#[trigger] out@[i]).count == how_many(v@, falls_into(i), k as int)
                    && out@[i].positives == how_many(v@, truly_falls_into(i), k as int),
        decreases len - k,
    {
        let x: Binned = v[k];
        let ghost before = out@;
        proof {
            assert(v@[k as int].bin < n);
            lemma_how_many(v@, falls_into(x.bin as int), k as int);
            lemma_how_many(v@, truly_falls_into(x.bin as int), k as int);
        }
        let old_bin: Bin = out[x.bin];
        let hit: usize = if x.positive {
            1
        } else {
            0
        };
        out.set(
            x.bin,
            Bin { count: old_bin.count + 1, positives: old_bin.positives + hit },
        );
        proof {
            assert forall|i: int| 0 <= i < n implies (#[trigger] out@[i]).count == how_many(
                v@,
                falls_into(i),
                k + 1,
            ) && out@[i].positives == how_many(v@, truly_falls_into(i), k + 1) by {
                assert(before[i].count == how_many(v@, falls_into(i), k as int));
            }
        }
        k += 1;
    }
    out
}

/// What scores show over addresses that are known to be data.
#[derive(Debug, Clone, Copy, PartialEq, Eq, Structural)]
pub struct NegMetrics {
    /// Scores.
    pub n: usize,
    /// Those that claim code with confidence.
    pub confident: usize,
    /// The highest, where there is one.
    pub worst: Option<u64>,
}

/// Lying in `[lo, hi)`.
pub open spec fn lies_in(lo: u64, hi: u64) -> spec_fn((u64, u64)) -> bool {
    |x: (u64, u64)| lo <= x.0 < hi
}

/// Lying in `[lo, hi)`, and scoring at least `sure`.
pub open spec fn claims_in(lo: u64, hi: u64, sure: u64) -> spec_fn((u64, u64)) -> bool {
    |x: (u64, u64)| lo <= x.0 < hi && x.1 >= sure
}

/// Whether `m` is the highest of the first `k` scores in `[lo, hi)`.
pub open spec fn is_worst(v: Seq<(u64, u64)>, lo: u64, hi: u64, m: Option<u64>, k: int) -> bool {
    match m {
        Some(x) => {
            &&& exists|i: int| 0 <= i < k && lo <= (#[trigger] v[i]).0 < hi && v[i].1 == x
            &&& forall|i: int| 0 <= i < k && lo <= (#[trigger] v[i]).0 < hi ==> v[i].1 <= x
        },
        None => forall|i: int| 0 <= i < k ==> !(lo <= (#[trigger] v[i]).0 < hi),
    }
}

/// Grades scores over a window that is known to be data: every confident claim
/// in it is wrong. `sure` is the key from which a claim is confident.
pub fn evaluate_negatives(v: &Vec<(u64, u64)>, lo: u64, hi: u64, sure: u64) -> (r: NegMetrics)
    ensures
        r.n == how_many(v@, lies_in(lo, hi), v@.len() as int),
        r.confident == how_many(v@, claims_in(lo, hi, sure), v@.len() as int),
        is_worst(v@, lo, hi, r.worst, v@.len() as int),
{
    let len: usize = v.len();
    let mut n: usize = 0;
    let mut confident: usize = 0;
    let mut worst: Option<u64> = None;
    let mut k: usize = 0;
    while k < len
        invariant
            len == v@.len(),
            k <= len,
            n <= k,
            confident <= k,
            n == how_many(v@, lies_in(lo, hi), k as int),
            confident == how_many(v@, claims_in(lo, hi, sure), k as int),
            is_worst(v@, lo, hi, worst, k as int),
        decreases len - k,
    {
        let x: (u64, u64) = v[k];
        if lo <= x.0 && x.0 < hi {
            n += 1;
            if x.1 >= sure {
                confident += 1;
            }
            let ghost was = worst;
            worst = match worst {
                Some(m) => if x.1 > m {
                    Some(x.1)
                } else {
                    Some(m)
                },
                None => Some(x.1),
            };
            proof {
                assert(v@[k as int] == x);
                if let Some(m) = was {
                    let i = choose|i: int|
                        0 <= i < k && lo <= (#[trigger] v@[i]).0 < hi && v@[i].1 == m;
                    assert(v@[i].1 == m);
                }
            }
        }
        k += 1;
    }
    NegMetrics { n, confident, worst }
}

/// No more claims are confident than there are scores.
pub proof fn law_confident_claims_are_scores(
    v: Seq<(u64, u64)>,
    lo: u64,
    hi: u64,
    sure: u64,
    k: int,
)
    requires
        0 <= k <= v.len(),
    ensures
        how_many(v, claims_in(lo, hi, sure), k) <= how_many(v, lies_in(lo, hi), k),
    decreases k,
{
    if k > 0 {
        law_confident_claims_are_scores(v, lo, hi, sure, k - 1);
    }
}

// ── What is counted ────────────────────────────────────────────────────────

/// A byte is counted as often as it stands there.
pub proof fn law_bytes_are_counted(b: Seq<u8>, v: int)
    ensures
        how_many(b, is_byte(v), b.len() as int) == b.filter(|x: u8| x == v).len(),
{
    assert(is_byte(v) =~= (|x: u8| x == v));
    law_counts_are_of_a_kind(b, is_byte(v));
}

/// The window around an offset holds as many bytes before it as behind it, as far as
/// there are any.
pub proof fn law_window_lies_around(offset: int, half: int, len: int)
    requires
        0 <= offset <= len,
        0 <= half,
    ensures
        ({
            let w = window_around(offset, half, len);
            &&& 0 <= w.0 <= offset <= w.1 <= len
            &&& w.0 == 0 || offset - w.0 == half
            &&& w.1 == len || w.1 - offset == half
            &&& offset - w.0 <= half && w.1 - offset <= half
        }),
{
}

proof fn lemma_windows(len: int, k: int)
    requires
        0 <= k,
        512 * (k - 1) + 1024 <= usize::MAX,
    ensures
        windows_below(len, k).len() == k,
        forall|i: int|
            0 <= i < k ==> (#[trigger] windows_below(len, k)[i]).lo == 512 * i && windows_below(
                len,
                k,
            )[i].hi == 512 * i + 1024,
    decreases k,
{
    if k > 0 {
        lemma_windows(len, k - 1);
    }
}

/// The windows of a long region have 1024 bytes each and begin every 512 bytes; there
/// are as many as fit.
pub proof fn law_windows_of_a_region(len: int, i: int)
    requires
        1024 < len <= usize::MAX,
    ensures
        ({
            let w = windows_below(len, window_count(len));
            &&& w.len() >= 1
            &&& 512 * (w.len() - 1) + 1024 <= len < 512 * w.len() + 1024
            &&& 0 <= i < w.len() ==> w[i].lo == 512 * i && w[i].hi == 512 * i + 1024
        }),
{
    lemma_windows(len, window_count(len));
}

/// Bins count what fell into them, and of that what is true; negatives what lies in the
/// window, and of that what scores at least as sure.
pub proof fn law_bins_and_negatives(
    v: Seq<Binned>,
    b: int,
    s: Seq<(u64, u64)>,
    lo: u64,
    hi: u64,
    sure: u64,
)
    ensures
        how_many(v, falls_into(b), v.len() as int) == v.filter(|x: Binned| x.bin == b).len(),
        how_many(v, truly_falls_into(b), v.len() as int) == v.filter(
            |x: Binned| x.bin == b && x.positive,
        ).len(),
        how_many(s, lies_in(lo, hi), s.len() as int) == s.filter(
            |x: (u64, u64)| lo <= x.0 && x.0 < hi,
        ).len(),
        how_many(s, claims_in(lo, hi, sure), s.len() as int) == s.filter(
            |x: (u64, u64)| lo <= x.0 && x.0 < hi && sure <= x.1,
        ).len(),
{
    assert(falls_into(b) =~= (|x: Binned| x.bin == b));
    assert(truly_falls_into(b) =~= (|x: Binned| x.bin == b && x.positive));
    assert(lies_in(lo, hi) =~= (|x: (u64, u64)| lo <= x.0 && x.0 < hi));
    assert(claims_in(lo, hi, sure) =~= (|x: (u64, u64)| lo <= x.0 && x.0 < hi && sure <= x.1));
    law_counts_are_of_a_kind(v, falls_into(b));
    law_counts_are_of_a_kind(v, truly_falls_into(b));
    law_counts_are_of_a_kind(s, lies_in(lo, hi));
    law_counts_are_of_a_kind(s, claims_in(lo, hi, sure));
}

} // verus!
