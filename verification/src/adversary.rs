//! Code with additions whose every byte is accounted for: what an adversary who
//! wants to go unnoticed might build.

use std::collections::BTreeSet;

use vstd::prelude::*;

use crate::order::{is_order, stable_order};
use crate::synth::{deflate, deflated, push_bytes, xorshift_next, xorshift_step};
use crate::text::{
    chars_of, hex_word, lines, parse_hex_word, split_lines, texts, trim, trimmed,
};

verus! {

broadcast use vstd::std_specs::btree::group_btree_axioms;

// ── Clean code ─────────────────────────────────────────────────────────────

/// The first line, counted from `k`, that is neither blank nor a hexadecimal
/// number.
pub open spec fn first_bad_line(v: Seq<Seq<char>>, k: int) -> Option<int>
    decreases v.len() - k,
{
    if k >= v.len() {
        None
    } else if trimmed(v[k]).len() > 0 && hex_word(v[k]) is None {
        Some(k)
    } else {
        first_bad_line(v, k + 1)
    }
}

/// The numbers that the first `k` lines write.
pub open spec fn vaddrs_below(v: Seq<Seq<char>>, k: int) -> Seq<u64>
    decreases k,
{
    if k <= 0 {
        Seq::empty()
    } else if trimmed(v[k - 1]).len() > 0 {
        vaddrs_below(v, k - 1).push(hex_word(v[k - 1])->0)
    } else {
        vaddrs_below(v, k - 1)
    }
}

/// Whether `r` is `v` in the order `o`.
pub open spec fn is_arranged(r: Seq<u64>, v: Seq<u64>, o: Seq<usize>) -> bool {
    is_order(v, o) && r == o.map_values(|i: usize| v[i as int])
}

/// Whether `r` is `v`, sorted.
pub open spec fn is_sorted_form(r: Seq<u64>, v: Seq<u64>) -> bool {
    exists|o: Seq<usize>| is_arranged(r, v, o)
}

/// Reads addresses, one hexadecimal number to a line, and sorts them; or gives
/// the number of the first line that holds something else.
pub fn read_gt_vaddrs(text: &str) -> (r: Result<Vec<u64>, usize>)
    ensures
        match r {
            Ok(v) => first_bad_line(lines(text@), 0) is None && is_sorted_form(
                v@,
                vaddrs_below(lines(text@), lines(text@).len() as int),
            ),
            Err(k) => first_bad_line(lines(text@), 0) == Some(k as int),
        },
{
    let rows: Vec<Vec<char>> = split_lines(&chars_of(text));
    let ghost v = lines(text@);
    let mut found: Vec<u64> = Vec::new();
    let mut k: usize = 0;
    proof {
        assert(texts(rows@).len() == rows@.len());
    }
    while k < rows.len()
        invariant
            k <= rows@.len(),
            texts(rows@) == v,
            rows@.len() == v.len(),
            v == lines(text@),
            first_bad_line(v, 0) == first_bad_line(v, k as int),
            found@ == vaddrs_below(v, k as int),
        decreases rows@.len() - k,
    {
        let line: &Vec<char> = &rows[k];
        proof {
            assert(texts(rows@)[k as int] == line@);
        }
        if trim(line).len() > 0 {
            match parse_hex_word(line) {
                None => {
                    return Err(k);
                },
                Some(a) => {
                    found.push(a);
                },
            }
        }
        k += 1;
    }
    let order: Vec<usize> = stable_order(&found);
    let mut out: Vec<u64> = Vec::new();
    let mut j: usize = 0;
    while j < order.len()
        invariant
            j <= order@.len(),
            is_order(found@, order@),
            out@.len() == j,
            forall|i: int| 0 <= i < j ==> #[trigger] out@[i] == found@[order@[i] as int],
        decreases order@.len() - j,
    {
        out.push(found[order[j]]);
        j += 1;
    }
    proof {
        assert(out@ =~= order@.map_values(|i: usize| found@[i as int]));
        assert(is_arranged(out@, found@, order@));
    }
    Ok(out)
}

/// The offsets of the first `k` addresses, as far as they lie in the code.
pub open spec fn offsets_below(v: Seq<u64>, base: u64, len: int, k: int) -> Seq<u64>
    decreases k,
{
    if k <= 0 {
        Seq::empty()
    } else if base <= v[k - 1] < base + len {
        offsets_below(v, base, len, k - 1).push((v[k - 1] - base) as u64)
    } else {
        offsets_below(v, base, len, k - 1)
    }
}

/// Turns addresses into offsets; those outside the code are left out.
pub fn clean_offsets(v: &Vec<u64>, base: u64, len: usize) -> (r: Vec<u64>)
    ensures
        r@ == offsets_below(v@, base, len as int, v@.len() as int),
        forall|i: int| 0 <= i < r@.len() ==> (#[trigger] r@[i]) < len,
{
    let mut out: Vec<u64> = Vec::new();
    let mut k: usize = 0;
    while k < v.len()
        invariant
            k <= v@.len(),
            out@ == offsets_below(v@, base, len as int, k as int),
            forall|i: int| 0 <= i < out@.len() ==> (#[trigger] out@[i]) < len,
        decreases v@.len() - k,
    {
        if base <= v[k] && v[k] - base < len as u64 {
            out.push(v[k] - base);
        }
        k += 1;
    }
    out
}

/// The members of a list.
pub fn set_of(v: &Vec<u64>) -> (r: BTreeSet<u64>)
    ensures
        r@ == v@.to_set(),
{
    let mut out: BTreeSet<u64> = BTreeSet::new();
    let mut k: usize = 0;
    proof {
        assert(out@ =~= v@.take(0).to_set());
    }
    while k < v.len()
        invariant
            k <= v@.len(),
            out@ == v@.take(k as int).to_set(),
        decreases v@.len() - k,
    {
        let ghost past = v@.take(k as int);
        let ghost now = v@.take(k + 1);
        out.insert(v[k]);
        proof {
            assert forall|a: u64| #[trigger] out@.contains(a) <==> now.to_set().contains(a) by {
                if past.contains(a) {
                    let j = choose|j: int| 0 <= j < past.len() && past[j] == a;
                    assert(now[j] == a);
                }
                assert(now[k as int] == v@[k as int]);
                if now.contains(a) {
                    let j = choose|j: int| 0 <= j < now.len() && now[j] == a;
                    if j < k {
                        assert(past[j] == a);
                    }
                }
            }
            assert(out@ =~= now.to_set());
        }
        k += 1;
    }
    proof {
        assert(v@.take(k as int) =~= v@);
    }
    out
}

// ── Bodies of data ─────────────────────────────────────────────────────────

/// `n` bytes, one out of each state of the generator that follows `s`.
pub open spec fn state_bytes(s: u64, n: nat) -> Seq<u8>
    decreases n,
{
    if n == 0 {
        Seq::empty()
    } else {
        let t = xorshift_next(s);
        seq![(t >> 24u64) as u8] + state_bytes(t, (n - 1) as nat)
    }
}

/// `n` pseudo-random bytes.
pub fn xorshift(seed: u64, n: usize) -> (r: Vec<u8>)
    ensures
        r@ == state_bytes(seed | 1, n as nat),
        r@.len() == n,
{
    let mut s: u64 = seed | 1;
    let mut out: Vec<u8> = Vec::new();
    let mut k: usize = 0;
    proof {
        assert(out@ + state_bytes(s, n as nat) =~= state_bytes(s, n as nat));
    }
    while k < n
        invariant
            k <= n,
            out@.len() == k,
            out@ + state_bytes(s, (n - k) as nat) == state_bytes(seed | 1, n as nat),
        decreases n - k,
    {
        let ghost before = out@;
        let ghost was = s;
        s = xorshift_step(s);
        out.push((s >> 24u64) as u8);
        proof {
            assert(out@ + state_bytes(s, (n - k - 1) as nat) =~= before + (seq![
                (s >> 24u64) as u8,
            ] + state_bytes(s, (n - k - 1) as nat)));
        }
        k += 1;
    }
    proof {
        assert(out@ + state_bytes(s, 0) =~= out@);
    }
    out
}

/// `s`, cut or filled up with zeros to `n` bytes.
pub open spec fn resized(s: Seq<u8>, n: nat) -> Seq<u8> {
    Seq::new(
        n,
        |i: int|
            if i < s.len() {
                s[i]
            } else {
                0
            },
    )
}

/// As many bytes as `donor` has, out of what compression leaves of three copies
/// of it.
pub fn packed_body(donor: &[u8]) -> (r: Vec<u8>)
    ensures
        r@ == resized(deflated(donor@ + donor@ + donor@), donor@.len()),
{
    let mut source: Vec<u8> = Vec::new();
    push_bytes(&mut source, donor);
    push_bytes(&mut source, donor);
    push_bytes(&mut source, donor);
    proof {
        assert(source@ =~= donor@ + donor@ + donor@);
    }
    let z: Vec<u8> = deflate(source.as_slice());
    let n: usize = donor.len();
    let mut out: Vec<u8> = Vec::new();
    let mut k: usize = 0;
    while k < n
        invariant
            k <= n,
            out@.len() == k,
            forall|i: int|
                0 <= i < k ==> #[trigger] out@[i] == if i < z@.len() {
                    z@[i]
                } else {
                    0
                },
        decreases n - k,
    {
        if k < z.len() {
            out.push(z[k]);
        } else {
            out.push(0);
        }
        k += 1;
    }
    proof {
        assert(out@ =~= resized(z@, n as nat));
    }
    out
}

/// `n` bytes that do nothing.
pub fn nop_sled(n: usize) -> (r: Vec<u8>)
    ensures
        r@ == Seq::new(n as nat, |i: int| 0x90u8),
{
    let mut out: Vec<u8> = Vec::new();
    let mut k: usize = 0;
    while k < n
        invariant
            k <= n,
            out@.len() == k,
            forall|i: int| 0 <= i < k ==> #[trigger] out@[i] == 0x90u8,
        decreases n - k,
    {
        out.push(0x90);
        k += 1;
    }
    proof {
        assert(out@ =~= Seq::new(n as nat, |i: int| 0x90u8));
    }
    out
}

/// Byte `i` of random blocks and blocks of `donor` in turn, `k` bytes each. Byte
/// `j` of a random block that starts at `a` is random byte `a + 2 * j`, counted
/// round; blocks of `donor` follow on from each other.
pub open spec fn interleaved_at(rnd: Seq<u8>, donor: Seq<u8>, k: int, i: int) -> u8 {
    let block = i / k;
    let j = i % k;
    if block % 2 == 0 {
        rnd[(i + j) % (rnd.len() as int)]
    } else {
        donor[((block / 2) * k + j) % (donor.len() as int)]
    }
}

/// As many bytes as `donor` has, random blocks and blocks of `donor` in turn.
pub fn interleave(rnd: &Vec<u8>, donor: &[u8], k: usize) -> (r: Vec<u8>)
    requires
        k > 0,
        rnd@.len() == donor@.len(),
        2 * donor@.len() <= usize::MAX,
    ensures
        r@.len() == donor@.len(),
        forall|i: int|
            0 <= i < r@.len() ==> #[trigger] r@[i] == interleaved_at(rnd@, donor@, k as int, i),
{
    let n: usize = donor.len();
    let mut out: Vec<u8> = Vec::new();
    let mut i: usize = 0;
    let mut j: usize = 0;
    let mut random: bool = true;
    let mut taken: usize = 0;
    let ghost mut block: int = 0;
    while i < n
        invariant
            k > 0,
            n == donor@.len(),
            rnd@.len() == n,
            2 * n <= usize::MAX,
            i <= n,
            j < k,
            j <= i,
            block >= 0,
            i == block * k + j,
            random == (block % 2 == 0),
            taken <= i,
            taken == (block / 2) * k + if random {
                0
            } else {
                j as int
            },
            out@.len() == i,
            forall|p: int|
                0 <= p < i ==> #[trigger] out@[p] == interleaved_at(rnd@, donor@, k as int, p),
        decreases n - i,
    {
        proof {
            vstd::arithmetic::div_mod::lemma_fundamental_div_mod_converse(
                i as int,
                k as int,
                block,
                j as int,
            );
        }
        if random {
            let at: usize = (i + j) % n;
            out.push(rnd[at]);
        } else {
            let at: usize = taken % n;
            out.push(donor[at]);
            taken += 1;
        }
        proof {
            assert(out@[i as int] == interleaved_at(rnd@, donor@, k as int, i as int));
        }
        i += 1;
        j += 1;
        if j == k {
            proof {
                assert((block + 1) * k == block * k + k) by (nonlinear_arith);
                if random {
                    assert((block + 1) / 2 == block / 2);
                } else {
                    assert((block + 1) / 2 == block / 2 + 1);
                    assert((block / 2 + 1) * k == (block / 2) * k + k) by (nonlinear_arith);
                }
                block = block + 1;
            }
            j = 0;
            random = !random;
        }
    }
    out
}

// ── Constructions ──────────────────────────────────────────────────────────

/// What was built, and what is known of it.
#[derive(Debug)]
pub struct Construction {
    /// The bytes.
    pub payload: Vec<u8>,
    /// The offsets at which instructions start.
    pub starts: BTreeSet<u64>,
    /// How many bytes were added.
    pub added: usize,
    /// How many of the additions count as instruction starts.
    pub added_starts: usize,
}

/// Puts `region` behind `code`; nothing in it is an instruction.
pub fn append(code: &[u8], starts: &BTreeSet<u64>, region: &[u8]) -> (r: Construction)
    ensures
        r.payload@ == code@ + region@,
        r.starts@ == starts@,
        r.added == region@.len(),
        r.added_starts == 0,
{
    let mut payload: Vec<u8> = Vec::new();
    push_bytes(&mut payload, code);
    push_bytes(&mut payload, region);
    Construction { payload, starts: starts.clone(), added: region.len(), added_starts: 0 }
}

/// Where the instructions of a donor start once it stands behind `len` bytes of
/// code.
pub open spec fn moved_starts(donor_offs: Seq<u64>, len: int) -> Set<u64> {
    Set::new(
        |a: u64| exists|i: int| 0 <= i < donor_offs.len() && #[trigger] donor_offs[i] + len == a,
    )
}

/// Puts `donor` behind `code`, with its instructions counted as such.
pub fn append_labelled(
    code: &[u8],
    starts: &BTreeSet<u64>,
    donor: &[u8],
    donor_offs: &Vec<u64>,
) -> (r: Construction)
    requires
        code@.len() + donor@.len() <= u64::MAX,
        forall|i: int| 0 <= i < donor_offs@.len() ==> (#[trigger] donor_offs@[i]) < donor@.len(),
    ensures
        r.payload@ == code@ + donor@,
        r.starts@ == starts@.union(moved_starts(donor_offs@, code@.len() as int)),
        r.added == donor@.len(),
        r.added_starts == donor_offs@.len(),
{
    let mut payload: Vec<u8> = Vec::new();
    push_bytes(&mut payload, code);
    push_bytes(&mut payload, donor);
    let len: u64 = code.len() as u64;
    let mut all: BTreeSet<u64> = starts.clone();
    let mut k: usize = 0;
    proof {
        assert(all@ =~= starts@.union(moved_starts(donor_offs@.take(0), len as int)));
    }
    while k < donor_offs.len()
        invariant
            k <= donor_offs@.len(),
            len == code@.len(),
            code@.len() + donor@.len() <= u64::MAX,
            forall|i: int|
                0 <= i < donor_offs@.len() ==> (#[trigger] donor_offs@[i]) < donor@.len(),
            all@ == starts@.union(moved_starts(donor_offs@.take(k as int), len as int)),
        decreases donor_offs@.len() - k,
    {
        let ghost past = donor_offs@.take(k as int);
        let ghost now = donor_offs@.take(k + 1);
        let ghost before = all@;
        all.insert(len + donor_offs[k]);
        proof {
            assert forall|a: u64| #[trigger] all@.contains(a) <==> starts@.union(
                moved_starts(now, len as int),
            ).contains(a) by {
                if moved_starts(past, len as int).contains(a) {
                    let i = choose|i: int| 0 <= i < past.len() && #[trigger] past[i] + len == a;
                    assert(now[i] + len == a);
                }
                assert(now[k as int] + len == len + donor_offs@[k as int]);
                if moved_starts(now, len as int).contains(a) {
                    let i = choose|i: int| 0 <= i < now.len() && #[trigger] now[i] + len == a;
                    if i < k {
                        assert(past[i] + len == a);
                    }
                }
            }
            assert(all@ =~= starts@.union(moved_starts(now, len as int)));
        }
        k += 1;
    }
    proof {
        assert(donor_offs@.take(k as int) =~= donor_offs@);
    }
    Construction { payload, starts: all, added: donor.len(), added_starts: donor_offs.len() }
}

/// Every start of an appended construction lies in the code itself, and the code
/// is unchanged.
pub proof fn law_appended_bytes_are_negative(
    code: Seq<u8>,
    region: Seq<u8>,
    starts: Set<u64>,
    a: u64,
)
    requires
        forall|s: u64| #[trigger] starts.contains(s) ==> s < code.len(),
        starts.contains(a),
    ensures
        a < code.len(),
        (code + region)[a as int] == code[a as int],
{
}

// ── Desynchronised code ────────────────────────────────────────────────────

/// Number of starts below `k`.
pub open spec fn starts_seen(starts: Set<u64>, k: int) -> int
    decreases k,
{
    if k <= 0 {
        0
    } else {
        starts_seen(starts, k - 1) + if starts.contains((k - 1) as u64) {
            1int
        } else {
            0int
        }
    }
}

/// Whether a prefix goes before offset `k`: at every `step`-th start.
pub open spec fn is_prefixed(starts: Set<u64>, step: int, k: int) -> bool {
    starts.contains(k as u64) && starts_seen(starts, k + 1) % step == 0
}

/// The first `k` bytes of `code` with the prefixes among them.
pub open spec fn desynced(code: Seq<u8>, starts: Set<u64>, step: int, k: int) -> Seq<u8>
    decreases k,
{
    if k <= 0 {
        Seq::empty()
    } else {
        let done = desynced(code, starts, step, k - 1);
        if is_prefixed(starts, step, k - 1) {
            done.push(0x48).push(code[k - 1])
        } else {
            done.push(code[k - 1])
        }
    }
}

/// Where offset `k` ends up: one place further for each prefix up to there.
pub open spec fn moved(starts: Set<u64>, step: int, k: int) -> int {
    k + starts_seen(starts, k + 1) / step
}

/// Where the starts below `k` end up.
pub open spec fn moved_below(starts: Set<u64>, step: int, k: int) -> Set<u64> {
    Set::new(
        |a: u64|
            exists|o: u64| o < k && #[trigger] starts.contains(o) && moved(starts, step, o as int)
                == a,
    )
}

proof fn lemma_starts_seen(starts: Set<u64>, k: int)
    requires
        0 <= k,
    ensures
        0 <= starts_seen(starts, k) <= k,
    decreases k,
{
    if k > 0 {
        lemma_starts_seen(starts, k - 1);
    }
}

proof fn lemma_div_step(x: int, step: int)
    requires
        0 <= x,
        0 < step,
    ensures
        (x + 1) / step == x / step + if (x + 1) % step == 0 {
            1int
        } else {
            0int
        },
        0 <= x / step <= x,
{
    let q = x / step;
    let r = x % step;
    vstd::arithmetic::div_mod::lemma_fundamental_div_mod(x, step);
    assert(x == step * q + r);
    assert(0 <= r < step) by (nonlinear_arith)
        requires
            r == x % step,
            0 < step,
    ;
    assert(step * q == q * step) by (nonlinear_arith);
    if r + 1 == step {
        assert((q + 1) * step == q * step + step) by (nonlinear_arith);
        vstd::arithmetic::div_mod::lemma_fundamental_div_mod_converse(x + 1, step, q + 1, 0);
    } else {
        vstd::arithmetic::div_mod::lemma_fundamental_div_mod_converse(x + 1, step, q, r + 1);
    }
    assert(0 <= q) by (nonlinear_arith)
        requires
            q == x / step,
            0 <= x,
            0 < step,
    ;
    assert(q <= q * step) by (nonlinear_arith)
        requires
            0 <= q,
            0 < step,
    ;
}

proof fn lemma_desynced_len(code: Seq<u8>, starts: Set<u64>, step: int, k: int)
    requires
        0 <= k <= code.len(),
        0 < step,
    ensures
        desynced(code, starts, step, k).len() == k + starts_seen(starts, k) / step,
        0 <= starts_seen(starts, k) / step <= k,
    decreases k,
{
    if k > 0 {
        lemma_desynced_len(code, starts, step, k - 1);
        lemma_starts_seen(starts, k - 1);
        lemma_div_step(starts_seen(starts, k - 1), step);
        lemma_starts_seen(starts, k);
        lemma_div_step(starts_seen(starts, k), step);
    } else {
        lemma_div_step(0, step);
    }
}

/// Every byte of the code is still there, moved by the prefixes before it.
pub proof fn law_desync_keeps_the_code(code: Seq<u8>, starts: Set<u64>, step: int, n: int, k: int)
    requires
        0 <= k < n <= code.len(),
        0 < step,
    ensures
        0 <= moved(starts, step, k) < desynced(code, starts, step, n).len(),
        desynced(code, starts, step, n)[moved(starts, step, k)] == code[k],
    decreases n,
{
    lemma_desynced_len(code, starts, step, n);
    lemma_desynced_len(code, starts, step, n - 1);
    if k < n - 1 {
        law_desync_keeps_the_code(code, starts, step, n - 1, k);
    } else {
        lemma_starts_seen(starts, k);
        lemma_div_step(starts_seen(starts, k), step);
    }
}

/// Different bytes of the code stay different bytes.
pub proof fn law_desync_keeps_the_order(starts: Set<u64>, step: int, a: int, b: int)
    requires
        0 <= a < b,
        0 < step,
    ensures
        moved(starts, step, a) < moved(starts, step, b),
    decreases b,
{
    lemma_starts_seen(starts, b);
    lemma_div_step(starts_seen(starts, b), step);
    if a < b - 1 {
        law_desync_keeps_the_order(starts, step, a, b - 1);
    }
}

/// Puts a prefix before every `step`-th start, which makes the decoder swallow
/// what follows. The starts move with the bytes they stand for.
pub fn desync(code: &[u8], starts: &BTreeSet<u64>, step: usize) -> (r: Construction)
    requires
        step > 0,
        2 * code@.len() <= usize::MAX,
    ensures
        r.payload@ == desynced(code@, starts@, step as int, code@.len() as int),
        r.starts@ == moved_below(starts@, step as int, code@.len() as int),
        r.added == starts_seen(starts@, code@.len() as int) / step as int,
        r.payload@.len() == code@.len() + r.added,
        r.added_starts == 0,
{
    let n: usize = code.len();
    let mut payload: Vec<u8> = Vec::new();
    let mut placed: BTreeSet<u64> = BTreeSet::new();
    let mut since: usize = 0;
    let mut added: usize = 0;
    let ghost st = step as int;
    let ghost mut seen: int = 0;
    let mut k: usize = 0;
    proof {
        lemma_div_step(0, st);
        assert(placed@ =~= moved_below(starts@, st, 0));
    }
    while k < n
        invariant
            n == code@.len(),
            2 * n <= usize::MAX,
            k <= n,
            step > 0,
            st == step,
            seen == starts_seen(starts@, k as int),
            0 <= seen <= k,
            since == seen % st,
            since < step,
            added == seen / st,
            added <= k,
            payload@ == desynced(code@, starts@, st, k as int),
            payload@.len() == k + added,
            placed@ == moved_below(starts@, st, k as int),
        decreases n - k,
    {
        let off: u64 = k as u64;
        let ghost before = placed@;
        proof {
            lemma_div_step(seen, st);
            assert(seen % st + 1 == st || (seen + 1) % st == seen % st + 1) by (nonlinear_arith)
                requires
                    0 < st,
                    0 <= seen,
            ;
            assert(seen % st + 1 == st ==> (seen + 1) % st == 0) by (nonlinear_arith)
                requires
                    0 < st,
                    0 <= seen,
            ;
        }
        if starts.contains(&off) {
            proof {
                seen = seen + 1;
            }
            since += 1;
            if since == step {
                since = 0;
                payload.push(0x48);
                added += 1;
            }
            placed.insert(payload.len() as u64);
        }
        payload.push(code[k]);
        proof {
            let now = moved_below(starts@, st, k + 1);
            assert(moved(starts@, st, k as int) == k + added);
            assert forall|a: u64| #[trigger] placed@.contains(a) <==> now.contains(a) by {
                if before.contains(a) {
                    let o = choose|o: u64|
                        o < k && #[trigger] starts@.contains(o) && moved(starts@, st, o as int)
                            == a;
                    assert(starts@.contains(o));
                }
                if now.contains(a) {
                    let o = choose|o: u64|
                        o < k + 1 && #[trigger] starts@.contains(o) && moved(
                            starts@,
                            st,
                            o as int,
                        ) == a;
                    if o < k {
                        assert(starts@.contains(o));
                        assert(before.contains(a));
                    } else {
                        assert(o == off);
                    }
                }
                if starts@.contains(off) && a == k + added {
                    assert(starts@.contains(off));
                }
            }
            assert(placed@ =~= now);
        }
        k += 1;
    }
    Construction { payload, starts: placed, added, added_starts: 0 }
}

/// Which statistics fire, in words.
pub open spec fn fires_text(glob: bool, spat: bool) -> Seq<char> {
    if glob && spat {
        "S_glob+S_spat"@
    } else if glob {
        "S_glob"@
    } else if spat {
        "S_spat"@
    } else {
        "none"@
    }
}

/// Which statistics fire, in words.
pub fn fires(glob: bool, spat: bool) -> (r: &'static str)
    ensures
        r@ == fires_text(glob, spat),
{
    if glob && spat {
        "S_glob+S_spat"
    } else if glob {
        "S_glob"
    } else if spat {
        "S_spat"
    } else {
        "none"
    }
}

// ── Laws ───────────────────────────────────────────────────────────────────

/// Whether `v` lists the members of a set in ascending order.
spec fn lists(v: Seq<u64>, set: Set<u64>) -> bool {
    &&& forall|i: int, j: int| 0 <= i < j < v.len() ==> v[i] < v[j]
    &&& forall|a: u64| #[trigger] set.contains(a) <==> v.contains(a)
}

proof fn lemma_seen_is_a_place(starts: Set<u64>, v: Seq<u64>, k: int, j: int)
    requires
        lists(v, starts),
        0 <= k <= u64::MAX,
        0 <= j <= v.len(),
        forall|i: int| 0 <= i < j ==> #[trigger] v[i] < k,
        forall|i: int| j <= i < v.len() ==> #[trigger] v[i] >= k,
    ensures
        starts_seen(starts, k) == j,
    decreases k,
{
    if k > 0 {
        let last = (k - 1) as u64;
        if starts.contains(last) {
            assert(v.contains(last));
            let i = choose|i: int| 0 <= i < v.len() && v[i] == last;
            assert(i < j);
            if i < j - 1 {
                assert(v[i] < v[j - 1]);
            }
            assert forall|x: int| 0 <= x < j - 1 implies #[trigger] v[x] < k - 1 by {
                assert(v[x] < v[j - 1]);
            }
            lemma_seen_is_a_place(starts, v, k - 1, j - 1);
        } else {
            assert forall|x: int| 0 <= x < j implies #[trigger] v[x] < k - 1 by {
                if v[x] == k - 1 {
                    assert(v.contains(last));
                }
            }
            lemma_seen_is_a_place(starts, v, k - 1, j);
        }
    } else if j > 0 {
        assert(v[0] < k);
    }
}

/// How the bytes move: a byte of the code that has `j` starts up to and including
/// itself goes `j / step` places on.
pub proof fn law_desync_moves_bytes(
    code: Seq<u8>,
    starts: Set<u64>,
    step: int,
    v: Seq<u64>,
    k: int,
    j: int,
)
    requires
        0 < step,
        0 <= k < code.len() <= u64::MAX,
        forall|x: int, y: int| 0 <= x < y < v.len() ==> v[x] < v[y],
        forall|a: u64| #[trigger] starts.contains(a) <==> v.contains(a),
        0 <= j <= v.len(),
        forall|i: int| 0 <= i < j ==> #[trigger] v[i] <= k,
        forall|i: int| j <= i < v.len() ==> #[trigger] v[i] > k,
    ensures
        ({
            let payload = desynced(code, starts, step, code.len() as int);
            &&& 0 <= k + j / step < payload.len()
            &&& payload[k + j / step] == code[k]
        }),
{
    lemma_seen_is_a_place(starts, v, k + 1, j);
    law_desync_keeps_the_code(code, starts, step, code.len() as int, k);
}

/// Every `step`-th start, counted in ascending order, has a REX.W prefix (`0x48`)
/// right before it that the code did not have; the starts themselves are where the
/// construction says.
pub proof fn law_desync_prefixes_every_nth_start(
    code: Seq<u8>,
    starts: Set<u64>,
    step: int,
    v: Seq<u64>,
    i: int,
)
    requires
        0 < step,
        2 * code.len() <= u64::MAX,
        forall|x: int, y: int| 0 <= x < y < v.len() ==> v[x] < v[y],
        forall|a: u64| #[trigger] starts.contains(a) <==> v.contains(a),
        0 <= i < v.len(),
        v[i] < code.len(),
    ensures
        ({
            let payload = desynced(code, starts, step, code.len() as int);
            let at = v[i] + (i + 1) / step;
            &&& 0 <= at < payload.len()
            &&& payload[at] == code[v[i] as int]
            &&& moved_below(starts, step, code.len() as int).contains(at as u64)
            &&& (i + 1) % step == 0 ==> at > 0 && payload[at - 1] == 0x48
            &&& (i + 1) % step != 0 && v[i] > 0 ==> payload[at - 1] == code[v[i] - 1]
        }),
{
    let n = code.len() as int;
    let k = v[i] as int;
    assert forall|x: int| 0 <= x < i + 1 implies #[trigger] v[x] <= k by {
        if x < i {
            assert(v[x] < v[i]);
        }
    }
    assert forall|x: int| i + 1 <= x < v.len() implies #[trigger] v[x] > k by {
        assert(v[i] < v[x]);
    }
    law_desync_moves_bytes(code, starts, step, v, k, i + 1);
    lemma_seen_is_a_place(starts, v, k + 1, i + 1);
    assert(v.contains(v[i]));
    assert(starts.contains(v[i]));
    lemma_starts_seen(starts, k + 1);
    lemma_div_step(i as int, step);
    assert(moved(starts, step, k) == k + (i + 1) / step);
    assert forall|x: int| 0 <= x < i implies #[trigger] v[x] < k by {
        assert(v[x] < v[i]);
    }
    lemma_seen_is_a_place(starts, v, k, i);
    lemma_desynced_len(code, starts, step, k);
    lemma_desynced_len(code, starts, step, k + 1);
    lemma_desynced_prefix(code, starts, step, k + 1, n);
    if (i + 1) % step == 0 {
        assert(is_prefixed(starts, step, k));
        let done = desynced(code, starts, step, k);
        assert(desynced(code, starts, step, k + 1) == done.push(0x48).push(code[k]));
        assert(done.len() == k + i as int / step);
    } else if k > 0 {
        law_desync_moves_bytes(code, starts, step, v, k - 1, i);
    }
}

proof fn lemma_desynced_prefix(code: Seq<u8>, starts: Set<u64>, step: int, k: int, n: int)
    requires
        0 <= k <= n <= code.len(),
    ensures
        desynced(code, starts, step, k).len() <= desynced(code, starts, step, n).len(),
        forall|x: int|
            0 <= x < desynced(code, starts, step, k).len() ==> #[trigger] desynced(
                code,
                starts,
                step,
                n,
            )[x] == desynced(code, starts, step, k)[x],
    decreases n - k,
{
    if k < n {
        lemma_desynced_prefix(code, starts, step, k, n - 1);
    }
}

/// All that desynchronising adds are prefixes: a byte of the payload is either a byte
/// of the code at its new place or `0x48`, with a start right behind it.
pub proof fn law_desync_adds_prefixes_only(
    code: Seq<u8>,
    starts: Set<u64>,
    step: int,
    n: int,
    p: int,
)
    requires
        0 < step,
        0 <= n <= code.len() <= u64::MAX,
        0 <= p < desynced(code, starts, step, n).len(),
    ensures
        ({
            let payload = desynced(code, starts, step, n);
            ||| exists|k: int|
                0 <= k < n && #[trigger] moved(starts, step, k) == p && payload[p] == code[k]
            ||| payload[p] == 0x48 && exists|k: int|
                0 <= k < n && #[trigger] moved(starts, step, k) == p + 1 && starts.contains(
                    k as u64,
                )
        }),
    decreases n,
{
    let payload = desynced(code, starts, step, n);
    let done = desynced(code, starts, step, n - 1);
    lemma_desynced_len(code, starts, step, n);
    lemma_desynced_len(code, starts, step, n - 1);
    if p < done.len() {
        law_desync_adds_prefixes_only(code, starts, step, n - 1, p);
        assert(payload[p] == done[p]);
        if exists|k: int|
            0 <= k < n - 1 && #[trigger] moved(starts, step, k) == p && done[p] == code[k] {
            let k = choose|k: int|
                0 <= k < n - 1 && #[trigger] moved(starts, step, k) == p && done[p] == code[k];
            assert(0 <= k < n && moved(starts, step, k) == p && payload[p] == code[k]);
        } else {
            let k = choose|k: int|
                0 <= k < n - 1 && #[trigger] moved(starts, step, k) == p + 1 && starts.contains(
                    k as u64,
                );
            assert(0 <= k < n && moved(starts, step, k) == p + 1);
        }
    } else {
        lemma_starts_seen(starts, n - 1);
        lemma_div_step(starts_seen(starts, n - 1), step);
        assert(moved(starts, step, n - 1) == payload.len() - 1);
    }
}

/// Where nothing starts, nothing is added.
pub proof fn law_desync_without_starts(code: Seq<u8>, step: int, n: int)
    requires
        0 <= n <= code.len(),
    ensures
        desynced(code, Set::empty(), step, n) == code.take(n),
    decreases n,
{
    if n > 0 {
        law_desync_without_starts(code, step, n - 1);
        assert(code.take(n) =~= code.take(n - 1).push(code[n - 1]));
    } else {
        assert(code.take(0) =~= Seq::empty());
    }
}

/// Blocks of `k` bytes take turns: the even ones are random, the odd ones hold the
/// donor, in order and without gaps.
pub proof fn law_interleaved_blocks_take_turns(
    rnd: Seq<u8>,
    donor: Seq<u8>,
    k: int,
    block: int,
    j: int,
)
    requires
        0 < k,
        0 <= j < k,
        0 <= block,
        rnd.len() == donor.len(),
        donor.len() > 0,
    ensures
        ({
            let n = donor.len() as int;
            &&& interleaved_at(rnd, donor, k, 2 * block * k + j) == rnd[(2 * block * k + 2 * j) % n]
            &&& interleaved_at(rnd, donor, k, (2 * block + 1) * k + j) == donor[(block * k + j) % n]
        }),
{
    let even = 2 * block * k + j;
    let odd = (2 * block + 1) * k + j;
    vstd::arithmetic::div_mod::lemma_fundamental_div_mod_converse(even, k, 2 * block, j);
    vstd::arithmetic::div_mod::lemma_fundamental_div_mod_converse(odd, k, 2 * block + 1, j);
}

proof fn lemma_offsets_below(v: Seq<u64>, base: u64, len: int, k: int, o: u64)
    requires
        0 <= k <= v.len(),
    ensures
        offsets_below(v, base, len, k).contains(o) <==> o < len && exists|i: int|
            0 <= i < k && #[trigger] v[i] == base + o,
    decreases k,
{
    if k > 0 {
        lemma_offsets_below(v, base, len, k - 1, o);
        let before = offsets_below(v, base, len, k - 1);
        let now = offsets_below(v, base, len, k);
        if before.contains(o) {
            let x = choose|x: int| 0 <= x < before.len() && before[x] == o;
            assert(now[x] == o);
        }
        if base <= v[k - 1] < base + len {
            assert(now[before.len() as int] == v[k - 1] - base);
            if now.contains(o) && o != v[k - 1] - base {
                let x = choose|x: int| 0 <= x < now.len() && now[x] == o;
                assert(before[x] == o);
            }
        }
    }
}

/// The offsets of the code are those at which an address lies, and no others.
pub proof fn law_offsets_are_addresses(v: Seq<u64>, base: u64, len: int, o: u64)
    ensures
        offsets_below(v, base, len, v.len() as int).contains(o) <==> o < len && exists|i: int|
            0 <= i < v.len() && #[trigger] v[i] == base + o,
{
    lemma_offsets_below(v, base, len, v.len() as int, o);
}

/// A donor that is appended with its labels has a start behind the code exactly where
/// it had one itself.
pub proof fn law_moved_starts_are_the_donors(offs: Seq<u64>, len: int, o: u64)
    requires
        0 <= len,
        o + len <= u64::MAX,
    ensures
        moved_starts(offs, len).contains((o + len) as u64) <==> offs.contains(o),
{
    let a = (o + len) as u64;
    if moved_starts(offs, len).contains(a) {
        let i = choose|i: int| 0 <= i < offs.len() && #[trigger] offs[i] + len == a;
        assert(offs[i] == o);
    }
    if offs.contains(o) {
        let i = choose|i: int| 0 <= i < offs.len() && offs[i] == o;
        assert(offs[i] + len == a);
    }
}

// ── Addresses and bodies ───────────────────────────────────────────────────

proof fn lemma_first_bad(v: Seq<Seq<char>>, k: int)
    requires
        0 <= k,
    ensures
        match first_bad_line(v, k) {
            Some(i) => k <= i < v.len() && trimmed(v[i]).len() > 0 && hex_word(v[i]) is None
                && forall|j: int|
                k <= j < i ==> trimmed(#[trigger] v[j]).len() == 0 || hex_word(v[j]) is Some,
            None => forall|j: int|
                k <= j < v.len() ==> trimmed(#[trigger] v[j]).len() == 0 || hex_word(v[j]) is Some,
        },
    decreases v.len() - k,
{
    if k < v.len() && !(trimmed(v[k]).len() > 0 && hex_word(v[k]) is None) {
        lemma_first_bad(v, k + 1);
    }
}

proof fn lemma_read_numbers(v: Seq<Seq<char>>, k: int)
    requires
        0 <= k <= v.len(),
    ensures
        vaddrs_below(v, k) == v.take(k).filter(|l: Seq<char>| trimmed(l).len() > 0).map_values(
            |l: Seq<char>| hex_word(l)->0,
        ),
    decreases k,
{
    reveal(Seq::filter);
    let f = |l: Seq<char>| trimmed(l).len() > 0;
    let g = |l: Seq<char>| hex_word(l)->0;
    if k > 0 {
        lemma_read_numbers(v, k - 1);
        assert(v.take(k).drop_last() =~= v.take(k - 1));
        assert(v.take(k).last() == v[k - 1]);
        let before = v.take(k - 1).filter(f);
        assert(before.push(v[k - 1]).map_values(g) =~= before.map_values(g).push(g(v[k - 1])));
    } else {
        assert(v.take(k) =~= Seq::empty());
        assert(Seq::<Seq<char>>::empty().map_values(g) =~= Seq::empty());
    }
}

/// Lines that are not blank write one hexadecimal number each; the first that does not is
/// at fault, and without one all the numbers are read.
pub proof fn law_lines_of_addresses(v: Seq<Seq<char>>, i: int)
    requires
        0 <= i < v.len(),
    ensures
        trimmed(v[i]).len() > 0 && hex_word(v[i]) is None ==> (first_bad_line(v, 0) matches Some(k)
            && 0 <= k <= i),
        first_bad_line(v, 0) == Some(i) ==> trimmed(v[i]).len() > 0 && hex_word(v[i]) is None,
        vaddrs_below(v, v.len() as int) == v.filter(
            |l: Seq<char>| trimmed(l).len() > 0,
        ).map_values(|l: Seq<char>| hex_word(l)->0),
{
    lemma_first_bad(v, 0);
    lemma_read_numbers(v, v.len() as int);
    assert(v.take(v.len() as int) =~= v);
    if first_bad_line(v, 0) is None {
        assert(trimmed(v[i]).len() == 0 || hex_word(v[i]) is Some);
    }
}

/// Sorted addresses ascend and are the ones that were read, as many of them.
pub proof fn law_addresses_are_sorted(r: Seq<u64>, v: Seq<u64>, i: int, j: int)
    requires
        is_sorted_form(r, v),
        v.len() <= usize::MAX,
        0 <= i <= j < r.len(),
    ensures
        r.len() == v.len(),
        r[i] <= r[j],
        v.contains(r[i]),
        r.contains(v[i]),
{
    let o = choose|o: Seq<usize>| is_arranged(r, v, o);
    assert(r[i] == v[o[i] as int] && r[j] == v[o[j] as int]);
    if i < j {
        assert(crate::order::comes_first(v, o[i], o[j]));
    }
    assert(o.contains(i as usize));
    let k = choose|k: int| 0 <= k < o.len() && o[k] == i as usize;
    assert(r[k] == v[i]);
}

/// A body of random bytes has the fourth byte of each state of the generator.
pub proof fn law_random_bodies(s: u64, n: nat)
    ensures
        state_bytes(s, 0) == Seq::<u8>::empty(),
        state_bytes(s, (n + 1) as nat) == seq![
            ((xorshift_next(s) / 0x100_0000) % 256) as u8,
        ] + state_bytes(xorshift_next(s), n),
{
    let t = xorshift_next(s);
    assert((t >> 24u64) as u8 == ((t / 0x100_0000) % 256) as u8) by (bit_vector);
}

/// A packed body keeps the length asked for: what compression leaves, cut, or with zeros
/// behind it.
pub proof fn law_packed_bodies(z: Seq<u8>, n: nat)
    ensures
        n <= z.len() ==> resized(z, n) == z.take(n as int),
        n >= z.len() ==> resized(z, n) == z + Seq::new((n - z.len()) as nat, |i: int| 0u8),
{
    if n <= z.len() {
        assert(resized(z, n) =~= z.take(n as int));
    }
    if n >= z.len() {
        assert(resized(z, n) =~= z + Seq::new((n - z.len()) as nat, |i: int| 0u8));
    }
}

/// What fires is named, and both are with a plus between them.
pub proof fn law_what_fires_is_named(glob: bool, spat: bool)
    ensures
        glob && !spat ==> fires_text(glob, spat) == "S_glob"@,
        spat && !glob ==> fires_text(glob, spat) == "S_spat"@,
        glob && spat ==> fires_text(glob, spat) == fires_text(true, false) + seq!['+']
            + fires_text(false, true),
        !glob && !spat ==> fires_text(glob, spat) == "none"@,
{
    reveal_strlit("S_glob");
    reveal_strlit("S_spat");
    reveal_strlit("S_glob+S_spat");
    assert("S_glob+S_spat"@ =~= "S_glob"@ + seq!['+'] + "S_spat"@);
}

} // verus!
