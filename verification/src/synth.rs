//! Synthetic binaries and data: byte streams with known properties.

use std::io::Write;

use vstd::prelude::*;

use crate::le::{law_le_round_trip, le_bytes, le_value, lemma_le_bytes_len, pow256, push_le};
use crate::text::str_eq;

verus! {

// ── Pseudo-random bytes ────────────────────────────────────────────────────

/// The state that follows `s` in the xorshift generator.
pub open spec fn xorshift_next(s: u64) -> u64 {
    let a = s ^ (s << 13u64);
    let b = a ^ (a >> 7u64);
    b ^ (b << 17u64)
}

/// `n` bytes of the generator that stands in state `s`.
pub open spec fn xorshift_bytes(s: u64, n: nat) -> Seq<u8>
    decreases n,
{
    if n == 0 {
        Seq::empty()
    } else {
        let w = le_bytes(xorshift_next(s) as nat, 8);
        if n <= 8 {
            w.take(n as int)
        } else {
            w + xorshift_bytes(xorshift_next(s), (n - 8) as nat)
        }
    }
}

/// Without a source every kind of data is the pseudo-random stream.
pub proof fn law_no_source_gives_the_stream(kind: DataKind, seed: u64, n: nat)
    ensures
        data_bytes(kind, seed, Seq::empty(), n) == data_bytes(
            DataKind::Xorshift,
            seed,
            Seq::empty(),
            n,
        ),
{
}

/// The generator never leaves a nonzero state for zero.
pub proof fn law_xorshift_never_stalls(s: u64)
    requires
        s != 0,
    ensures
        xorshift_next(s) != 0,
{
    let a = s ^ (s << 13u64);
    let b = a ^ (a >> 7u64);
    assert(s != 0 ==> (s ^ (s << 13u64)) != 0) by (bit_vector);
    assert(a != 0 ==> (a ^ (a >> 7u64)) != 0) by (bit_vector);
    assert(b != 0 ==> (b ^ (b << 17u64)) != 0) by (bit_vector);
}

/// One step of the xorshift generator.
pub fn xorshift_step(s: u64) -> (r: u64)
    ensures
        r == xorshift_next(s),
{
    let a: u64 = s ^ (s << 13u64);
    let b: u64 = a ^ (a >> 7u64);
    b ^ (b << 17u64)
}

/// `n` bytes of a deterministic, nearly uniform stream. The low bit of the seed
/// is forced to one, so that the generator never stands at zero.
pub fn xorshift_stream(seed: u64, n: usize) -> (r: Vec<u8>)
    ensures
        r@ == xorshift_bytes(seed | 1, n as nat),
        r@.len() == n,
{
    let mut state: u64 = seed | 1;
    let mut out: Vec<u8> = Vec::new();
    let mut left: usize = n;
    while left > 0
        invariant
            left <= n,
            out@ + xorshift_bytes(state, left as nat) == xorshift_bytes(seed | 1, n as nat),
            out@.len() + left == n,
        decreases left,
    {
        let ghost before = out@;
        let ghost was = state;
        state = xorshift_step(state);
        let ghost w = le_bytes(state as nat, 8);
        let take: usize = if left < 8 {
            left
        } else {
            8
        };
        proof {
            lemma_le_bytes_len(state as nat, 8);
            lemma_le_bytes_take(state as nat, 8, take as nat);
        }
        push_le(&mut out, state, take);
        proof {
            lemma_le_bytes_len(state as nat, take as nat);
            if left <= 8 {
                assert(xorshift_bytes(was, left as nat) == w.take(left as int));
                assert(out@ + xorshift_bytes(state, 0) =~= before + w.take(left as int));
            } else {
                assert(w.take(8) =~= w);
                assert(out@ + xorshift_bytes(state, (left - 8) as nat) =~= before + (w
                    + xorshift_bytes(state, (left - 8) as nat)));
            }
        }
        left = left - take;
    }
    proof {
        assert(out@ + xorshift_bytes(state, 0) =~= out@);
    }
    out
}

/// Fewer bytes of a number are the first of more.
proof fn lemma_le_bytes_take(x: nat, n: nat, k: nat)
    requires
        k <= n,
    ensures
        le_bytes(x, k) == le_bytes(x, n).take(k as int),
    decreases n,
{
    lemma_le_bytes_len(x, n);
    lemma_le_bytes_len(x, k);
    if k == 0 {
        assert(le_bytes(x, n).take(0) =~= Seq::empty());
    } else {
        lemma_le_bytes_take(x / 256, (n - 1) as nat, (k - 1) as nat);
        lemma_le_bytes_len(x / 256, (n - 1) as nat);
        assert(le_bytes(x, k) =~= le_bytes(x, n).take(k as int));
    }
}

// ── Data for a synthetic region ────────────────────────────────────────────

/// What to fill a region of data with.
#[derive(Debug, Clone, Copy, PartialEq, Eq, Structural)]
pub enum DataKind {
    /// A pseudo-random stream.
    Xorshift,
    /// The compressed source, over and over: what a packer leaves.
    Compressed,
    /// The source itself, over and over: instructions that never run.
    Code,
}

/// The kind of data that a word names.
pub open spec fn kind_named(s: Seq<char>) -> Option<DataKind> {
    if s == "code"@ {
        Some(DataKind::Code)
    } else if s == "xorshift"@ || s == "random"@ {
        Some(DataKind::Xorshift)
    } else if s == "compressed"@ || s == "deflate"@ {
        Some(DataKind::Compressed)
    } else {
        None
    }
}

/// The kind of data that a word names.
pub fn parse_kind(s: &str) -> (r: Option<DataKind>)
    ensures
        r == kind_named(s@),
{
    if str_eq(s, "code") {
        Some(DataKind::Code)
    } else if str_eq(s, "xorshift") || str_eq(s, "random") {
        Some(DataKind::Xorshift)
    } else if str_eq(s, "compressed") || str_eq(s, "deflate") {
        Some(DataKind::Compressed)
    } else {
        None
    }
}

impl DataKind {
    /// The name of the kind.
    pub open spec fn spec_name(self) -> Seq<char> {
        match self {
            DataKind::Xorshift => "Xorshift"@,
            DataKind::Compressed => "Compressed"@,
            DataKind::Code => "Code"@,
        }
    }

    /// The name of the kind.
    pub fn name(self) -> (r: &'static str)
        ensures
            r@ == self.spec_name(),
    {
        match self {
            DataKind::Xorshift => "Xorshift",
            DataKind::Compressed => "Compressed",
            DataKind::Code => "Code",
        }
    }
}

/// What raw DEFLATE at the best level makes of `data`.
pub uninterp spec fn deflated(data: Seq<u8>) -> Seq<u8>;

/// `flate2::write::DeflateEncoder` with `Compression::best()`, given all of `data`
/// at once and finished. The result depends on the data alone; writing to a
/// vector cannot fail.
#[verifier::external_body]
pub(crate) fn deflate(data: &[u8]) -> (r: Vec<u8>)
    ensures
        r@ == deflated(data@),
{
    let mut enc = flate2::write::DeflateEncoder::new(Vec::new(), flate2::Compression::best());
    let _ = enc.write_all(data);
    enc.finish().unwrap_or_default()
}

/// `n` bytes of `body` repeated for ever, from its byte number `skip` on.
pub open spec fn tiled(body: Seq<u8>, skip: int, n: nat) -> Seq<u8> {
    Seq::new(n, |i: int| body[(skip + i) % (body.len() as int)])
}

/// `n` bytes of `body` repeated for ever; a pseudo-random stream where there is
/// nothing to repeat.
pub open spec fn tiled_or_stream(body: Seq<u8>, skip: int, seed: u64, n: nat) -> Seq<u8> {
    if body.len() == 0 {
        xorshift_bytes(seed | 1, n)
    } else {
        tiled(body, skip, n)
    }
}

/// `n` bytes of data of the given kind. Copies of code start a third of the way
/// in, so that they do not open as the source does. Where there is no source the
/// data is a pseudo-random stream.
pub open spec fn data_bytes(kind: DataKind, seed: u64, source: Seq<u8>, n: nat) -> Seq<u8> {
    match kind {
        DataKind::Xorshift => xorshift_bytes(seed | 1, n),
        DataKind::Compressed => if source.len() == 0 {
            xorshift_bytes(seed | 1, n)
        } else {
            tiled_or_stream(deflated(source), 0, seed, n)
        },
        DataKind::Code => tiled_or_stream(source, source.len() as int / 3, seed, n),
    }
}

/// Repeats `body` from byte number `skip` on, up to `n` bytes.
pub fn tile_or_stream(body: &[u8], skip: usize, seed: u64, n: usize) -> (r: Vec<u8>)
    requires
        body@.len() == 0 || skip < body@.len(),
    ensures
        r@ == tiled_or_stream(body@, skip as int, seed, n as nat),
        r@.len() == n,
{
    let len: usize = body.len();
    if len == 0 {
        return xorshift_stream(seed, n);
    }
    let mut out: Vec<u8> = Vec::new();
    let mut at: usize = skip;
    let mut k: usize = 0;
    proof {
        assert(skip as int % len as int == skip) by (nonlinear_arith)
            requires
                0 <= skip < len,
        ;
    }
    while k < n
        invariant
            k <= n,
            len == body@.len(),
            at < len,
            at == (skip + k) % (len as int),
            out@.len() == k,
            forall|i: int| 0 <= i < k ==> #[trigger] out@[i] == body@[(skip + i) % (len as int)],
        decreases n - k,
    {
        out.push(body[at]);
        proof {
            let x = skip + k;
            let l = len as int;
            assert((x + 1) % l == if x % l + 1 == l {
                0
            } else {
                x % l + 1
            }) by (nonlinear_arith)
                requires
                    l > 0,
                    x >= 0,
            ;
        }
        at = if at + 1 == len {
            0
        } else {
            at + 1
        };
        k += 1;
    }
    proof {
        assert(out@ =~= tiled(body@, skip as int, n as nat));
    }
    out
}

/// `n` bytes of data of the given kind.
pub fn make_data(kind: DataKind, seed: u64, source: &[u8], n: usize) -> (r: Vec<u8>)
    ensures
        r@ == data_bytes(kind, seed, source@, n as nat),
        r@.len() == n,
{
    match kind {
        DataKind::Xorshift => xorshift_stream(seed, n),
        DataKind::Compressed => {
            if source.len() == 0 {
                return xorshift_stream(seed, n);
            }
            let body: Vec<u8> = deflate(source);
            tile_or_stream(body.as_slice(), 0, seed, n)
        },
        DataKind::Code => tile_or_stream(source, source.len() / 3, seed, n),
    }
}

// ── A minimal executable ───────────────────────────────────────────────────

/// Bytes before the payload of a minimal executable: one ELF header and one
/// program header.
pub const PAYLOAD_OFFSET: usize = 120;

/// The ELF header of a minimal executable that starts at `vaddr`.
pub open spec fn min_elf_ehdr(vaddr: u64) -> Seq<u8> {
    seq![0x7fu8, 0x45, 0x4c, 0x46, 2, 1, 1, 0] + le_bytes(0, 8) + le_bytes(2, 2) + le_bytes(62, 2)
        + le_bytes(1, 4) + le_bytes(vaddr as nat, 8) + le_bytes(64, 8) + le_bytes(0, 8) + le_bytes(
        0,
        4,
    ) + le_bytes(64, 2) + le_bytes(56, 2) + le_bytes(1, 2) + le_bytes(0, 2) + le_bytes(0, 2)
        + le_bytes(0, 2)
}

/// The program header of a minimal executable: one readable and executable
/// segment that maps the payload at `vaddr`.
pub open spec fn min_elf_phdr(vaddr: u64, len: nat) -> Seq<u8> {
    le_bytes(1, 4) + le_bytes(5, 4) + le_bytes(120, 8) + le_bytes(vaddr as nat, 8) + le_bytes(
        vaddr as nat,
        8,
    ) + le_bytes(len, 8) + le_bytes(len, 8) + le_bytes(0x1000, 8)
}

/// A minimal executable.
pub open spec fn min_elf(vaddr: u64, payload: Seq<u8>) -> Seq<u8> {
    min_elf_ehdr(vaddr) + min_elf_phdr(vaddr, payload.len()) + payload
}

/// Appends `more`.
pub(crate) fn push_bytes(out: &mut Vec<u8>, more: &[u8])
    ensures
        final(out)@ == old(out)@ + more@,
{
    let mut k: usize = 0;
    proof {
        assert(out@ =~= old(out)@ + more@.take(0));
    }
    while k < more.len()
        invariant
            k <= more@.len(),
            out@ == old(out)@ + more@.take(k as int),
        decreases more@.len() - k,
    {
        out.push(more[k]);
        proof {
            assert(out@ =~= old(out)@ + more@.take(k + 1));
        }
        k += 1;
    }
    proof {
        assert(more@.take(k as int) =~= more@);
    }
}

/// A minimal 64-bit ELF without section headers: one readable and executable
/// segment at `vaddr` that holds `payload`.
pub fn build_min_elf(vaddr: u64, payload: &[u8]) -> (r: Vec<u8>)
    ensures
        r@ == min_elf(vaddr, payload@),
{
    let mut elf: Vec<u8> = Vec::new();
    elf.push(0x7f);
    elf.push(0x45);
    elf.push(0x4c);
    elf.push(0x46);
    elf.push(2);
    elf.push(1);
    elf.push(1);
    elf.push(0);
    proof {
        assert(elf@ =~= seq![0x7fu8, 0x45, 0x4c, 0x46, 2, 1, 1, 0]);
    }
    push_le(&mut elf, 0, 8);
    push_le(&mut elf, 2, 2);
    push_le(&mut elf, 62, 2);
    push_le(&mut elf, 1, 4);
    push_le(&mut elf, vaddr, 8);
    push_le(&mut elf, 64, 8);
    push_le(&mut elf, 0, 8);
    push_le(&mut elf, 0, 4);
    push_le(&mut elf, 64, 2);
    push_le(&mut elf, 56, 2);
    push_le(&mut elf, 1, 2);
    push_le(&mut elf, 0, 2);
    push_le(&mut elf, 0, 2);
    push_le(&mut elf, 0, 2);
    let ghost head = elf@;
    push_le(&mut elf, 1, 4);
    push_le(&mut elf, 5, 4);
    push_le(&mut elf, PAYLOAD_OFFSET as u64, 8);
    push_le(&mut elf, vaddr, 8);
    push_le(&mut elf, vaddr, 8);
    let len: u64 = payload.len() as u64;
    push_le(&mut elf, len, 8);
    push_le(&mut elf, len, 8);
    push_le(&mut elf, 0x1000, 8);
    proof {
        assert(head == min_elf_ehdr(vaddr));
        assert(elf@ =~= head + min_elf_phdr(vaddr, payload@.len()));
    }
    push_bytes(&mut elf, payload);
    elf
}

/// The headers take exactly the bytes before the payload, and the payload is
/// what follows.
pub proof fn law_min_elf_layout(vaddr: u64, payload: Seq<u8>)
    ensures
        min_elf(vaddr, payload).len() == PAYLOAD_OFFSET + payload.len(),
        min_elf(vaddr, payload).skip(PAYLOAD_OFFSET as int) == payload,
{
    lemma_header_len(vaddr, payload.len());
    assert(min_elf(vaddr, payload).skip(PAYLOAD_OFFSET as int) =~= payload);
}

proof fn lemma_header_len(vaddr: u64, len: nat)
    ensures
        min_elf_ehdr(vaddr).len() == 64,
        min_elf_phdr(vaddr, len).len() == 56,
{
    lemma_le_bytes_len(0, 8);
    lemma_le_bytes_len(2, 2);
    lemma_le_bytes_len(62, 2);
    lemma_le_bytes_len(1, 4);
    lemma_le_bytes_len(vaddr as nat, 8);
    lemma_le_bytes_len(64, 8);
    lemma_le_bytes_len(0, 4);
    lemma_le_bytes_len(64, 2);
    lemma_le_bytes_len(56, 2);
    lemma_le_bytes_len(1, 2);
    lemma_le_bytes_len(0, 2);
    lemma_le_bytes_len(5, 4);
    lemma_le_bytes_len(120, 8);
    lemma_le_bytes_len(len, 8);
    lemma_le_bytes_len(0x1000, 8);
}

/// The entry point of a minimal executable, read back from its header, is the
/// address of its payload.
pub proof fn law_min_elf_entry(vaddr: u64, payload: Seq<u8>)
    ensures
        le_value(min_elf(vaddr, payload).subrange(24, 32)) == vaddr,
{
    lemma_header_len(vaddr, payload.len());
    lemma_le_bytes_len(0, 8);
    lemma_le_bytes_len(2, 2);
    lemma_le_bytes_len(62, 2);
    lemma_le_bytes_len(1, 4);
    lemma_le_bytes_len(vaddr as nat, 8);
    let head = seq![0x7fu8, 0x45, 0x4c, 0x46, 2, 1, 1, 0] + le_bytes(0, 8) + le_bytes(2, 2)
        + le_bytes(62, 2) + le_bytes(1, 4);
    assert(head.len() == 24);
    assert(min_elf(vaddr, payload).subrange(24, 32) =~= le_bytes(vaddr as nat, 8));
    reveal_with_fuel(pow256, 9);
    law_le_round_trip(vaddr as nat, 8);
}

/// The generator is linear: the states that follow two states, laid over each other, are
/// those that follow them laid over each other.
pub proof fn law_xorshift_is_linear(s: u64, t: u64)
    ensures
        xorshift_next(s ^ t) == xorshift_next(s) ^ xorshift_next(t),
{
    assert(({
        let a = (s ^ t) ^ ((s ^ t) << 13u64);
        let b = a ^ (a >> 7u64);
        b ^ (b << 17u64)
    }) == ({
        let a = s ^ (s << 13u64);
        let b = a ^ (a >> 7u64);
        b ^ (b << 17u64)
    }) ^ ({
        let a = t ^ (t << 13u64);
        let b = a ^ (a >> 7u64);
        b ^ (b << 17u64)
    })) by (bit_vector);
}

/// A bit of the state spreads over eight of the next: seven places down, in place, and
/// 6, 10, 13, 17, 23 and 30 places up, as far as these lie in the word.
pub proof fn law_xorshift_spreads_bits(k: u64)
    requires
        7 <= k <= 33,
    ensures
        xorshift_next(1u64 << k) == (1u64 << ((k - 7) as u64)) | (1u64 << k) | (1u64 << ((k
            + 6) as u64)) | (1u64 << ((k + 10) as u64)) | (1u64 << ((k + 13) as u64)) | (1u64 << ((k
            + 17) as u64)) | (1u64 << ((k + 23) as u64)) | (1u64 << ((k + 30) as u64)),
{
    let x = 1u64 << k;
    assert(({
        let a = x ^ (x << 13u64);
        let b = a ^ (a >> 7u64);
        b ^ (b << 17u64)
    }) == (1u64 << ((k - 7) as u64)) | (1u64 << k) | (1u64 << ((k + 6) as u64)) | (1u64 << ((k
        + 10) as u64)) | (1u64 << ((k + 13) as u64)) | (1u64 << ((k + 17) as u64)) | (1u64 << ((k
        + 23) as u64)) | (1u64 << ((k + 30) as u64))) by (bit_vector)
        requires
            7 <= k <= 33,
            x == 1u64 << k,
    ;
}

/// The stream is made of the states that follow each other, eight bytes each, low byte
/// first; a shorter stream is the beginning of a longer one.
pub proof fn law_stream_is_made_of_states(s: u64, n: nat)
    ensures
        xorshift_bytes(s, 0) == Seq::<u8>::empty(),
        xorshift_bytes(s, (8 + n) as nat) == le_bytes(xorshift_next(s) as nat, 8) + xorshift_bytes(
            xorshift_next(s),
            n,
        ),
        n <= 8 ==> xorshift_bytes(s, n) == le_bytes(xorshift_next(s) as nat, 8).take(n as int),
{
    lemma_le_bytes_len(xorshift_next(s) as nat, 8);
    let w = le_bytes(xorshift_next(s) as nat, 8);
    if n == 0 {
        assert(w.take(8) =~= w);
        assert(w + Seq::<u8>::empty() =~= w);
        assert(w.take(0) =~= Seq::empty());
    }
}

/// Copies of code start a third of the way in and go round; compressed data goes round
/// from its first byte; random data is the stream from an odd state.
pub proof fn law_data_by_kind(seed: u64, source: Seq<u8>, n: nat, i: int)
    requires
        0 <= i < n,
        source.len() > 0,
    ensures
        data_bytes(DataKind::Code, seed, source, n).len() == n,
        data_bytes(DataKind::Code, seed, source, n)[i] == source[(source.len() as int / 3 + i) % (
        source.len() as int)],
        deflated(source).len() > 0 ==> data_bytes(DataKind::Compressed, seed, source, n)[i]
            == deflated(source)[i % (deflated(source).len() as int)],
        data_bytes(DataKind::Xorshift, seed, source, n) == xorshift_bytes(seed | 1, n),
        (seed | 1) % 2 == 1,
{
    assert((seed | 1) % 2 == 1) by (bit_vector);
}

/// Data is named by `code`, by `xorshift` or `random`, and by `compressed` or `deflate`.
pub proof fn law_kinds_by_name(s: Seq<char>)
    ensures
        kind_named("code"@) == Some(DataKind::Code),
        kind_named("xorshift"@) == Some(DataKind::Xorshift),
        kind_named("random"@) == Some(DataKind::Xorshift),
        kind_named("compressed"@) == Some(DataKind::Compressed),
        kind_named("deflate"@) == Some(DataKind::Compressed),
        kind_named(s) is None <==> s != "code"@ && s != "xorshift"@ && s != "random"@ && s
            != "compressed"@ && s != "deflate"@,
{
    reveal_strlit("code");
    reveal_strlit("xorshift");
    reveal_strlit("random");
    reveal_strlit("compressed");
    reveal_strlit("deflate");
    assert("code"@.len() == 4 && "xorshift"@.len() == 8 && "random"@.len() == 6
        && "compressed"@.len() == 10 && "deflate"@.len() == 7);
}

/// The headers of a minimal executable say what it is: for x86-64, with one segment that
/// can be read and executed, mapped from the payload's place to its address, as long as
/// the payload, and no sections.
pub proof fn law_min_elf_headers(vaddr: u64, payload: Seq<u8>)
    requires
        payload.len() <= u64::MAX,
    ensures
        ({
            let b = min_elf(vaddr, payload);
            &&& le_value(b.subrange(16, 18)) == 2
            &&& le_value(b.subrange(18, 20)) == 62
            &&& le_value(b.subrange(20, 24)) == 1
            &&& le_value(b.subrange(32, 40)) == 64
            &&& le_value(b.subrange(40, 48)) == 0
            &&& le_value(b.subrange(52, 54)) == 64
            &&& le_value(b.subrange(54, 56)) == 56
            &&& le_value(b.subrange(56, 58)) == 1
            &&& le_value(b.subrange(64, 68)) == 1
            &&& le_value(b.subrange(68, 72)) == 5
            &&& le_value(b.subrange(72, 80)) == 120
            &&& le_value(b.subrange(80, 88)) == vaddr
            &&& le_value(b.subrange(88, 96)) == vaddr
            &&& le_value(b.subrange(96, 104)) == payload.len()
            &&& le_value(b.subrange(104, 112)) == payload.len()
            &&& le_value(b.subrange(112, 120)) == 0x1000
        }),
{
    let b = min_elf(vaddr, payload);
    let n = payload.len();
    lemma_header_len(vaddr, n);
    lemma_le_bytes_len(0, 8);
    lemma_le_bytes_len(2, 2);
    lemma_le_bytes_len(62, 2);
    lemma_le_bytes_len(1, 4);
    lemma_le_bytes_len(vaddr as nat, 8);
    lemma_le_bytes_len(64, 8);
    lemma_le_bytes_len(0, 4);
    lemma_le_bytes_len(64, 2);
    lemma_le_bytes_len(56, 2);
    lemma_le_bytes_len(1, 2);
    lemma_le_bytes_len(0, 2);
    lemma_le_bytes_len(5, 4);
    lemma_le_bytes_len(120, 8);
    lemma_le_bytes_len(n, 8);
    lemma_le_bytes_len(0x1000, 8);
    reveal_with_fuel(pow256, 9);
    law_le_round_trip(2, 2);
    law_le_round_trip(62, 2);
    law_le_round_trip(1, 4);
    law_le_round_trip(64, 8);
    law_le_round_trip(0, 8);
    law_le_round_trip(64, 2);
    law_le_round_trip(56, 2);
    law_le_round_trip(1, 2);
    law_le_round_trip(5, 4);
    law_le_round_trip(120, 8);
    law_le_round_trip(vaddr as nat, 8);
    law_le_round_trip(n, 8);
    law_le_round_trip(0x1000, 8);
    assert(b.subrange(16, 18) =~= le_bytes(2, 2));
    assert(b.subrange(18, 20) =~= le_bytes(62, 2));
    assert(b.subrange(20, 24) =~= le_bytes(1, 4));
    assert(b.subrange(32, 40) =~= le_bytes(64, 8));
    assert(b.subrange(40, 48) =~= le_bytes(0, 8));
    assert(b.subrange(52, 54) =~= le_bytes(64, 2));
    assert(b.subrange(54, 56) =~= le_bytes(56, 2));
    assert(b.subrange(56, 58) =~= le_bytes(1, 2));
    assert(b.subrange(64, 68) =~= le_bytes(1, 4));
    assert(b.subrange(68, 72) =~= le_bytes(5, 4));
    assert(b.subrange(72, 80) =~= le_bytes(120, 8));
    assert(b.subrange(80, 88) =~= le_bytes(vaddr as nat, 8));
    assert(b.subrange(88, 96) =~= le_bytes(vaddr as nat, 8));
    assert(b.subrange(96, 104) =~= le_bytes(n, 8));
    assert(b.subrange(104, 112) =~= le_bytes(n, 8));
    assert(b.subrange(112, 120) =~= le_bytes(0x1000, 8));
}

/// The payload of a minimal executable stands behind its headers, and nothing behind it.
pub proof fn law_payload_follows_the_headers(vaddr: u64, payload: Seq<u8>, i: int)
    ensures
        min_elf(vaddr, payload).len() == 120 + payload.len(),
        0 <= i < payload.len() ==> min_elf(vaddr, payload)[120 + i] == payload[i],
{
    lemma_header_len(vaddr, payload.len());
}

} // verus!
