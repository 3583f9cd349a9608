//! Little-endian numbers.

use vstd::prelude::*;

verus! {

/// The number that `b` holds, low byte first.
pub open spec fn le_value(b: Seq<u8>) -> nat
    decreases b.len(),
{
    if b.len() == 0 {
        0
    } else {
        b[0] as nat + 256 * le_value(b.drop_first())
    }
}

/// The low `n` bytes of `x`, low byte first.
pub open spec fn le_bytes(x: nat, n: nat) -> Seq<u8>
    decreases n,
{
    if n == 0 {
        Seq::empty()
    } else {
        seq![(x % 256) as u8] + le_bytes(x / 256, (n - 1) as nat)
    }
}

/// 256 to the power of `n`.
pub open spec fn pow256(n: nat) -> nat
    decreases n,
{
    if n == 0 {
        1
    } else {
        256 * pow256((n - 1) as nat)
    }
}

/// `n` bytes of a number are `n` bytes.
pub proof fn lemma_le_bytes_len(x: nat, n: nat)
    ensures
        le_bytes(x, n).len() == n,
    decreases n,
{
    if n > 0 {
        lemma_le_bytes_len(x / 256, (n - 1) as nat);
    }
}

/// Writing a number that fits and reading it back gives the number.
pub proof fn law_le_round_trip(x: nat, n: nat)
    requires
        x < pow256(n),
    ensures
        le_bytes(x, n).len() == n,
        le_value(le_bytes(x, n)) == x,
    decreases n,
{
    lemma_le_bytes_len(x, n);
    if n > 0 {
        law_le_round_trip(x / 256, (n - 1) as nat);
        assert(le_bytes(x, n).drop_first() =~= le_bytes(x / 256, (n - 1) as nat));
    }
}

/// Reads four bytes at `at`.
pub fn read_u32(b: &[u8], at: usize) -> (r: u32)
    requires
        at + 4 <= b@.len(),
    ensures
        r == le_value(b@.subrange(at as int, at + 4)),
{
    proof {
        let s = b@.subrange(at as int, at + 4);
        reveal_with_fuel(le_value, 5);
        assert(s.drop_first() =~= b@.subrange(at + 1, at + 4));
        assert(s.drop_first().drop_first() =~= b@.subrange(at + 2, at + 4));
        assert(s.drop_first().drop_first().drop_first() =~= b@.subrange(at + 3, at + 4));
        assert(s.drop_first().drop_first().drop_first().drop_first() =~= Seq::empty());
    }
    b[at] as u32 + 256 * (b[at + 1] as u32 + 256 * (b[at + 2] as u32 + 256 * (b[at + 3] as u32)))
}

/// Reads eight bytes at `at`.
pub fn read_u64(b: &[u8], at: usize) -> (r: u64)
    requires
        at + 8 <= b@.len(),
    ensures
        r == le_value(b@.subrange(at as int, at + 8)),
{
    let n: usize = b.len();
    proof {
        assert(at + 8 <= n);
    }
    let lo: u64 = read_u32(b, at) as u64;
    let hi: u64 = read_u32(b, at + 4) as u64;
    proof {
        let s = b@.subrange(at as int, at + 8);
        assert(s =~= b@.subrange(at as int, at + 4) + b@.subrange(at + 4, at + 8));
        lemma_le_value_append(b@.subrange(at as int, at + 4), b@.subrange(at + 4, at + 8));
        reveal_with_fuel(pow256, 5);
        assert(pow256(4) == 0x1_0000_0000);
    }
    lo + 0x1_0000_0000 * hi
}

/// A longer number is its low part plus its shifted high part.
proof fn lemma_le_value_append(a: Seq<u8>, b: Seq<u8>)
    ensures
        le_value(a + b) == le_value(a) + pow256(a.len()) * le_value(b),
    decreases a.len(),
{
    if a.len() == 0 {
        assert(a + b =~= b);
        assert(pow256(0) == 1);
    } else {
        lemma_le_value_append(a.drop_first(), b);
        assert((a + b).drop_first() =~= a.drop_first() + b);
        let p = pow256((a.len() - 1) as nat);
        let v = le_value(b);
        assert(pow256(a.len()) == 256 * p);
        assert(256 * (p * v) == (256 * p) * v) by (nonlinear_arith);
        assert(256 * (le_value(a.drop_first()) + p * v) == 256 * le_value(a.drop_first()) + 256
            * (p * v));
    }
}

/// Appends the low `n` bytes of `x`.
pub fn push_le(out: &mut Vec<u8>, x: u64, n: usize)
    ensures
        final(out)@ == old(out)@ + le_bytes(x as nat, n as nat),
{
    let mut rest: u64 = x;
    let mut k: usize = 0;
    while k < n
        invariant
            k <= n,
            out@ + le_bytes(rest as nat, (n - k) as nat) == old(out)@ + le_bytes(
                x as nat,
                n as nat,
            ),
        decreases n - k,
    {
        let ghost before = out@;
        let ghost was = rest as nat;
        out.push((rest % 256) as u8);
        rest = rest / 256;
        proof {
            assert(before + (seq![(was % 256) as u8] + le_bytes(was / 256, (n - k - 1) as nat))
                =~= out@ + le_bytes(rest as nat, (n - k - 1) as nat));
        }
        k += 1;
    }
    proof {
        assert(out@ + le_bytes(rest as nat, 0) =~= out@);
    }
}

/// Four bytes, low byte first, make the number whose byte of each weight they are.
pub proof fn law_low_byte_first(b: Seq<u8>)
    ensures
        b.len() == 1 ==> le_value(b) == b[0],
        b.len() == 2 ==> le_value(b) == b[0] + 0x100 * b[1],
        b.len() == 4 ==> le_value(b) == b[0] + 0x100 * b[1] + 0x1_0000 * b[2] + 0x100_0000 * b[3],
{
    reveal_with_fuel(le_value, 5);
}

} // verus!
