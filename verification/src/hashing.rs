//! Hashes that order and identify files.

use vstd::prelude::*;

use crate::text::{digits_of, format_digits, push_text, string_of, zero_padded};

verus! {

/// Where the FNV-1a hash starts.
pub const FNV_BASIS: u64 = 0xcbf2_9ce4_8422_2325;

/// The FNV-1a multiplier.
pub const FNV_PRIME: u64 = 0x0000_0100_0000_01b3;

/// The 64-bit FNV-1a hash of `b`.
pub open spec fn fnv(b: Seq<u8>) -> u64
    decreases b.len(),
{
    if b.len() == 0 {
        FNV_BASIS
    } else {
        (fnv(b.drop_last()) ^ (b.last() as u64)).wrapping_mul(FNV_PRIME)
    }
}

/// The 64-bit FNV-1a hash of `bytes`.
pub fn fnv1a(bytes: &[u8]) -> (r: u64)
    ensures
        r == fnv(bytes@),
{
    let mut h: u64 = FNV_BASIS;
    let mut k: usize = 0;
    while k < bytes.len()
        invariant
            k <= bytes@.len(),
            h == fnv(bytes@.take(k as int)),
        decreases bytes@.len() - k,
    {
        proof {
            assert(bytes@.take(k + 1).drop_last() =~= bytes@.take(k as int));
        }
        h = (h ^ (bytes[k] as u64)).wrapping_mul(FNV_PRIME);
        k += 1;
    }
    proof {
        assert(bytes@.take(k as int) =~= bytes@);
    }
    h
}

/// The text form of a content hash.
pub open spec fn hash_text(b: Seq<u8>) -> Seq<char> {
    "fnv1a64:"@ + zero_padded(digits_of(fnv(b) as int, 16), 16)
}

/// The content hash of `bytes` as text: the name of the algorithm and sixteen
/// hexadecimal digits.
pub fn fnv1a_hex(bytes: &[u8]) -> (r: String)
    ensures
        r@ == hash_text(bytes@),
{
    let mut out: Vec<char> = Vec::new();
    push_text(&mut out, "fnv1a64:");
    let mut digits: Vec<char> = format_digits(fnv1a(bytes), 16);
    let n: usize = digits.len();
    let ghost head = out@;
    let mut k: usize = n;
    while k < 16
        invariant
            n == digits@.len(),
            n <= k,
            k <= 16 || k == n,
            out@ == head + Seq::new((k - n) as nat, |i: int| '0'),
        decreases 16 - k,
    {
        out.push('0');
        proof {
            assert(out@ =~= head + Seq::new((k + 1 - n) as nat, |i: int| '0'));
        }
        k += 1;
    }
    out.append(&mut digits);
    proof {
        assert(head =~= "fnv1a64:"@);
        assert(out@ =~= hash_text(bytes@));
    }
    string_of(&out)
}

/// One step of the splitmix64 generator from state `z`.
pub open spec fn splitmix(z: u64) -> u64 {
    let a = z.wrapping_add(0x9e37_79b9_7f4a_7c15);
    let b = (a ^ (a >> 30u64)).wrapping_mul(0xbf58_476d_1ce4_e5b9);
    let c = (b ^ (b >> 27u64)).wrapping_mul(0x94d0_49bb_1331_11eb);
    c ^ (c >> 31u64)
}

/// One step of the splitmix64 generator from state `z`.
pub fn splitmix64(z: u64) -> (r: u64)
    ensures
        r == splitmix(z),
{
    let a: u64 = z.wrapping_add(0x9e37_79b9_7f4a_7c15);
    let b: u64 = (a ^ (a >> 30u64)).wrapping_mul(0xbf58_476d_1ce4_e5b9);
    let c: u64 = (b ^ (b >> 27u64)).wrapping_mul(0x94d0_49bb_1331_11eb);
    c ^ (c >> 31u64)
}

proof fn lemma_hex_len(n: int, k: nat, bound: int)
    requires
        0 <= n < bound,
        k > 0,
        bound == pow16(k),
    ensures
        digits_of(n, 16).len() <= k,
    decreases k,
{
    if n >= 16 {
        if k == 1 {
            assert(pow16(1) == 16) by {
                reveal_with_fuel(pow16, 2);
            }
        } else {
            lemma_hex_len(n / 16, (k - 1) as nat, pow16((k - 1) as nat));
        }
    }
}

spec fn pow16(k: nat) -> int
    decreases k,
{
    if k == 0 {
        1
    } else {
        16 * pow16((k - 1) as nat)
    }
}

/// The text of a content hash always has the same length.
pub proof fn law_hash_text_length(b: Seq<u8>)
    ensures
        hash_text(b).len() == "fnv1a64:"@.len() + 16,
{
    reveal_with_fuel(pow16, 17);
    lemma_hex_len(fnv(b) as int, 16, pow16(16));
}

/// Multiplication by an odd number modulo two to the power of 64 can be undone.
proof fn lemma_unmultiply(x: u64, c: u64, inverse: u64, q: int)
    requires
        c * inverse == q * 0x1_0000_0000_0000_0000 + 1,
    ensures
        (x.wrapping_mul(c) * inverse) % 0x1_0000_0000_0000_0000 == x,
{
    let m: int = 0x1_0000_0000_0000_0000;
    let p = x * c;
    let k = p / m;
    assert(p == k * m + p % m) by (nonlinear_arith)
        requires
            k == p / m,
            m > 0,
    ;
    assert(x.wrapping_mul(c) == p % m);
    assert((p % m) * inverse == (x * q - k * inverse) * m + x) by (nonlinear_arith)
        requires
            p == x * c,
            p == k * m + p % m,
            c * inverse == q * m + 1,
    ;
    let d = x * q - k * inverse;
    vstd::arithmetic::div_mod::lemma_fundamental_div_mod_converse_mod(
        (p % m) * inverse,
        m,
        d,
        x as int,
    );
}

/// The generator takes different states to different numbers: names whose hashes
/// differ never tie under one seed.
pub proof fn law_splitmix_is_injective(a: u64, b: u64)
    requires
        splitmix(a) == splitmix(b),
    ensures
        a == b,
{
    let g: u64 = 0x9e37_79b9_7f4a_7c15;
    let c1: u64 = 0xbf58_476d_1ce4_e5b9;
    let c2: u64 = 0x94d0_49bb_1331_11eb;
    let a0 = a.wrapping_add(g);
    let b0 = b.wrapping_add(g);
    let a1 = a0 ^ (a0 >> 30u64);
    let b1 = b0 ^ (b0 >> 30u64);
    let a2 = a1.wrapping_mul(c1);
    let b2 = b1.wrapping_mul(c1);
    let a3 = a2 ^ (a2 >> 27u64);
    let b3 = b2 ^ (b2 >> 27u64);
    let a4 = a3.wrapping_mul(c2);
    let b4 = b3.wrapping_mul(c2);
    assert(a4 ^ (a4 >> 31u64) == b4 ^ (b4 >> 31u64) ==> a4 == b4) by (bit_vector);
    lemma_unmultiply(a3, c2, 0x3196_42b2_d24d_8ec3, 2077064247507883091);
    lemma_unmultiply(b3, c2, 0x3196_42b2_d24d_8ec3, 2077064247507883091);
    assert(a2 ^ (a2 >> 27u64) == b2 ^ (b2 >> 27u64) ==> a2 == b2) by (bit_vector);
    lemma_unmultiply(a1, c1, 0x96de_1b17_3f11_9089, 8125545580553827436);
    lemma_unmultiply(b1, c1, 0x96de_1b17_3f11_9089, 8125545580553827436);
    assert(a0 ^ (a0 >> 30u64) == b0 ^ (b0 >> 30u64) ==> a0 == b0) by (bit_vector);
}

/// The hash goes byte by byte: each is laid over what came before, and the result is
/// multiplied.
pub proof fn law_hash_goes_byte_by_byte(b: Seq<u8>, x: u8)
    ensures
        fnv(Seq::<u8>::empty()) == 0xcbf2_9ce4_8422_2325,
        fnv(b.push(x)) == (fnv(b) ^ (x as u64)).wrapping_mul(0x100_0000_01b3),
{
    assert(b.push(x).drop_last() =~= b);
}

} // verus!
