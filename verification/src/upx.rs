//! UPX-packed images: which bytes are compressed payload and hence never
//! instructions.

use vstd::prelude::*;

use crate::image::{
    elf_only, find_exec_load, first_exec_load, locate_segment, open_elf, segment_region, ElfImage,
    ElfImageView, HeaderError, FileSpan,
};
use crate::le::{le_value, read_u32};

verus! {

/// How far into the executable segment the UPX magic is searched for.
pub const MAGIC_WINDOW: usize = 0x400;

/// How much larger than its contents a block may be.
pub const EXPANSION_SLACK: u64 = 4096;

/// The walk over blocks ends once it has found more than this many.
pub const MAX_BLOCKS: usize = 256;

/// One compressed block.
#[derive(Debug, Clone, Copy, PartialEq, Eq)]
pub struct UpxBlock {
    /// Size of the contents.
    pub sz_unc: u32,
    /// Size of the compressed contents.
    pub sz_cpr: u32,
    /// Compression method.
    pub method: u8,
    /// File offsets of the first compressed byte and of the end.
    pub file_data: (usize, usize),
}

/// The parts of a packed image that can be labelled with certainty. Windows are
/// given as load addresses, the end excluded.
#[derive(Debug)]
pub struct UpxLayout {
    /// Load address of the executable segment.
    pub exec_vaddr: u64,
    /// File offsets of the executable segment.
    pub exec_file: (usize, usize),
    /// Size of the original program.
    pub p_filesize: u32,
    /// The blocks in the executable segment, in order.
    pub blocks: Vec<UpxBlock>,
    /// From the first to the last compressed byte.
    pub compressed: (u64, u64),
    /// The largest block.
    pub conservative: (u64, u64),
    /// The unpacker: from the entry point to the end of the segment.
    pub stub: (u64, u64),
    /// File offset of the magic.
    pub magic_file_off: usize,
}

/// The contents of an [`UpxLayout`].
#[verifier::ext_equal]
pub struct UpxLayoutView {
    /// Load address of the executable segment.
    pub exec_vaddr: u64,
    /// File offsets of the executable segment.
    pub exec_file: (usize, usize),
    /// Size of the original program.
    pub p_filesize: u32,
    /// The blocks.
    pub blocks: Seq<UpxBlock>,
    /// From the first to the last compressed byte.
    pub compressed: (u64, u64),
    /// The largest block.
    pub conservative: (u64, u64),
    /// The unpacker.
    pub stub: (u64, u64),
    /// File offset of the magic.
    pub magic_file_off: usize,
}

impl View for UpxLayout {
    type V = UpxLayoutView;

    open spec fn view(&self) -> UpxLayoutView {
        UpxLayoutView {
            exec_vaddr: self.exec_vaddr,
            exec_file: self.exec_file,
            p_filesize: self.p_filesize,
            blocks: self.blocks@,
            compressed: self.compressed,
            conservative: self.conservative,
            stub: self.stub,
            magic_file_off: self.magic_file_off,
        }
    }
}

/// Why an image has no UPX layout.
#[derive(Debug, Clone, Copy, PartialEq, Eq, Structural)]
pub enum UpxError {
    /// The headers say nothing usable.
    Header(HeaderError),
    /// There is no executable segment.
    NoExecSegment,
    /// The executable segment ends behind the end of the file.
    SegmentPastEnd,
    /// There is no UPX magic near the start of the segment.
    NoMagic,
    /// The file ends inside the headers behind the magic.
    Truncated,
    /// No block follows the headers.
    NoBlocks,
    /// The segment leaves the address space.
    AddressOverflow,
}

/// Whether the UPX magic stands at file offset `at`.
pub open spec fn is_magic(bytes: Seq<u8>, at: int) -> bool {
    &&& bytes[at] == 0x55
    &&& bytes[at + 1] == 0x50
    &&& bytes[at + 2] == 0x58
    &&& bytes[at + 3] == 0x21
}

/// The first magic from `at` on that ends by `end`.
pub open spec fn first_magic(bytes: Seq<u8>, at: int, end: int) -> Option<int>
    decreases end - at,
{
    if at + 4 > end {
        None
    } else if is_magic(bytes, at) {
        Some(at)
    } else {
        first_magic(bytes, at + 1, end)
    }
}

/// The number at file offset `at`.
pub open spec fn word(bytes: Seq<u8>, at: int) -> nat {
    le_value(bytes.subrange(at, at + 4))
}

/// The block whose header stands at file offset `off`.
pub open spec fn block_at(bytes: Seq<u8>, off: int) -> UpxBlock {
    UpxBlock {
        sz_unc: word(bytes, off) as u32,
        sz_cpr: word(bytes, off + 4) as u32,
        method: bytes[off + 8],
        file_data: ((off + 12) as usize, (off + 12 + word(bytes, off + 4)) as usize),
    }
}

/// Whether a block with a header at `off` is plausible: it is not empty, ends by
/// `fend` and is not much larger than its contents.
pub open spec fn is_sane(bytes: Seq<u8>, off: int, fend: int) -> bool {
    let unc = word(bytes, off);
    let cpr = word(bytes, off + 4);
    unc != 0 && cpr != 0 && off + 12 + cpr <= fend && cpr <= unc + EXPANSION_SLACK
}

/// The blocks from file offset `off` on, where `found` came before.
pub open spec fn blocks_from(bytes: Seq<u8>, off: int, fend: int, found: nat) -> Seq<UpxBlock>
    decreases fend - off,
{
    if off + 12 > fend || !is_sane(bytes, off, fend) {
        Seq::empty()
    } else {
        let b = seq![block_at(bytes, off)];
        if found + 1 > MAX_BLOCKS {
            b
        } else {
            b + blocks_from(bytes, off + 12 + word(bytes, off + 4), fend, found + 1)
        }
    }
}

/// The index of the largest of the first `n` blocks, the last one if several are.
pub open spec fn largest(blocks: Seq<UpxBlock>, n: int) -> int
    decreases n,
{
    if n <= 1 {
        0
    } else {
        let best = largest(blocks, n - 1);
        if blocks[n - 1].sz_cpr >= blocks[best].sz_cpr {
            n - 1
        } else {
            best
        }
    }
}

/// Where the search for the magic ends.
pub open spec fn scan_end(g: FileSpan) -> int {
    if g.lo + MAGIC_WINDOW < g.hi {
        g.lo + MAGIC_WINDOW
    } else {
        g.hi as int
    }
}

/// The load address of a file offset in the segment.
pub open spec fn load_addr(g: FileSpan, o: usize) -> u64 {
    (g.addr + (o - g.lo)) as u64
}

/// The layout of an image whose executable segment lies at `g`.
pub open spec fn layout_in(g: FileSpan, entry: u64, bytes: Seq<u8>) -> Result<
    UpxLayoutView,
    UpxError,
> {
    match first_magic(bytes, g.lo as int, scan_end(g)) {
        None => Err(UpxError::NoMagic),
        Some(m) => if m + 16 > bytes.len() {
            Err(UpxError::Truncated)
        } else {
            let blocks = blocks_from(bytes, m + 20, g.hi as int, 0);
            if blocks.len() == 0 {
                Err(UpxError::NoBlocks)
            } else if g.addr + (g.hi - g.lo) > u64::MAX {
                Err(UpxError::AddressOverflow)
            } else {
                let big = blocks[largest(blocks, blocks.len() as int)];
                Ok(
                    UpxLayoutView {
                        exec_vaddr: g.addr,
                        exec_file: (g.lo as usize, g.hi as usize),
                        p_filesize: word(bytes, m + 12) as u32,
                        blocks,
                        compressed: (
                            load_addr(g, blocks[0].file_data.0),
                            load_addr(g, blocks.last().file_data.1),
                        ),
                        conservative: (
                            load_addr(g, big.file_data.0),
                            load_addr(g, big.file_data.1),
                        ),
                        stub: (entry, (g.addr + (g.hi - g.lo)) as u64),
                        magic_file_off: m as usize,
                    },
                )
            }
        },
    }
}

/// The layout of an ELF image.
pub open spec fn upx_layout(i: ElfImageView, bytes: Seq<u8>) -> Result<UpxLayoutView, UpxError> {
    match first_exec_load(i.segments, 0) {
        None => Err(UpxError::NoExecSegment),
        Some(k) => match segment_region(i.segments[k], bytes.len()) {
            Err(_) => Err(UpxError::SegmentPastEnd),
            Ok(g) => layout_in(g, i.entry, bytes),
        },
    }
}

/// A result with the layout taken by its contents.
pub open spec fn result_view(r: Result<UpxLayout, UpxError>) -> Result<UpxLayoutView, UpxError> {
    match r {
        Ok(l) => Ok(l@),
        Err(e) => Err(e),
    }
}

fn find_magic(bytes: &[u8], from: usize, end: usize) -> (r: Option<usize>)
    requires
        from <= end <= bytes@.len(),
    ensures
        match r {
            Some(m) => first_magic(bytes@, from as int, end as int) == Some(m as int) && from <= m
                && m + 4 <= end,
            None => first_magic(bytes@, from as int, end as int) is None,
        },
{
    let mut at: usize = from;
    while end - at >= 4
        invariant
            from <= at <= end <= bytes@.len(),
            first_magic(bytes@, from as int, end as int) == first_magic(
                bytes@,
                at as int,
                end as int,
            ),
        decreases end - at,
    {
        if bytes[at] == 0x55 && bytes[at + 1] == 0x50 && bytes[at + 2] == 0x58 && bytes[at + 3]
            == 0x21 {
            return Some(at);
        }
        at += 1;
    }
    None
}

/// What is known of blocks that lie one behind the other.
spec fn chained(blocks: Seq<UpxBlock>, from: int, fend: int) -> bool {
    &&& forall|k: int|
        0 <= k < blocks.len() ==> {
            &&& from + 12 <= (#[trigger] blocks[k]).file_data.0 < blocks[k].file_data.1 <= fend
            &&& blocks[k].file_data.1 - blocks[k].file_data.0 == blocks[k].sz_cpr
        }
    &&& forall|j: int, k: int|
        0 <= j < k < blocks.len() ==> blocks[j].file_data.1 + 12 <= blocks[k].file_data.0
}

proof fn lemma_word_bound(bytes: Seq<u8>, at: int)
    requires
        0 <= at,
        at + 4 <= bytes.len(),
    ensures
        word(bytes, at) <= u32::MAX,
{
    let s = bytes.subrange(at, at + 4);
    reveal_with_fuel(le_value, 5);
    assert(s.drop_first().drop_first().drop_first().drop_first() =~= Seq::empty());
}

proof fn lemma_chained(bytes: Seq<u8>, off: int, fend: int, found: nat)
    requires
        0 <= off,
        fend <= bytes.len() <= usize::MAX,
    ensures
        chained(blocks_from(bytes, off, fend, found), off, fend),
    decreases fend - off,
{
    if !(off + 12 > fend || !is_sane(bytes, off, fend)) {
        let next = off + 12 + word(bytes, off + 4);
        lemma_word_bound(bytes, off);
        lemma_word_bound(bytes, off + 4);
        if found + 1 <= MAX_BLOCKS {
            lemma_chained(bytes, next, fend, found + 1);
            let tail = blocks_from(bytes, next, fend, found + 1);
            let all = blocks_from(bytes, off, fend, found);
            assert(all =~= seq![block_at(bytes, off)] + tail);
            assert forall|k: int| 0 <= k < all.len() implies {
                &&& off + 12 <= (#[trigger] all[k]).file_data.0 < all[k].file_data.1 <= fend
                &&& all[k].file_data.1 - all[k].file_data.0 == all[k].sz_cpr
            } by {
                if k > 0 {
                    assert(all[k] == tail[k - 1]);
                }
            }
            assert forall|j: int, k: int| 0 <= j < k < all.len() implies all[j].file_data.1 + 12
                <= all[k].file_data.0 by {
                assert(all[k] == tail[k - 1]);
                if j > 0 {
                    assert(all[j] == tail[j - 1]);
                }
            }
        }
    }
}

fn walk_blocks(bytes: &[u8], from: usize, fend: usize) -> (r: Vec<UpxBlock>)
    requires
        fend <= bytes@.len(),
    ensures
        r@ == blocks_from(bytes@, from as int, fend as int, 0),
{
    let n: usize = bytes.len();
    let mut blocks: Vec<UpxBlock> = Vec::new();
    let mut off: usize = from;
    proof {
        assert(blocks@ + blocks_from(bytes@, off as int, fend as int, 0) =~= blocks_from(
            bytes@,
            from as int,
            fend as int,
            0,
        ));
    }
    while off <= fend && fend - off >= 12
        invariant_except_break
            n == bytes@.len(),
            fend <= n,
            blocks@.len() <= MAX_BLOCKS,
            blocks@ + blocks_from(bytes@, off as int, fend as int, blocks@.len()) == blocks_from(
                bytes@,
                from as int,
                fend as int,
                0,
            ),
        ensures
            blocks@ == blocks_from(bytes@, from as int, fend as int, 0),
        decreases fend - off,
    {
        let ghost before = blocks@;
        let sz_unc: u32 = read_u32(bytes, off);
        let sz_cpr: u32 = read_u32(bytes, off + 4);
        let data: usize = off + 12;
        let room: usize = fend - data;
        let sane: bool = sz_unc != 0 && sz_cpr != 0 && sz_cpr as usize <= room && sz_cpr as u64
            <= sz_unc as u64 + EXPANSION_SLACK;
        if !sane {
            proof {
                assert(before + Seq::<UpxBlock>::empty() =~= before);
            }
            break;
        }
        let end: usize = data + sz_cpr as usize;
        let b: UpxBlock = UpxBlock {
            sz_unc,
            sz_cpr,
            method: bytes[off + 8],
            file_data: (data, end),
        };
        proof {
            assert(b == block_at(bytes@, off as int));
        }
        blocks.push(b);
        proof {
            assert(before + (seq![b] + blocks_from(bytes@, end as int, fend as int, blocks@.len()))
                =~= blocks@ + blocks_from(bytes@, end as int, fend as int, blocks@.len()));
            assert(before + seq![b] =~= blocks@);
        }
        off = end;
        if blocks.len() > MAX_BLOCKS {
            break;
        }
    }
    blocks
}

fn largest_block(blocks: &Vec<UpxBlock>) -> (r: usize)
    requires
        blocks@.len() > 0,
    ensures
        r == largest(blocks@, blocks@.len() as int),
        r < blocks@.len(),
{
    let mut best: usize = 0;
    let mut k: usize = 1;
    while k < blocks.len()
        invariant
            1 <= k <= blocks@.len(),
            best < k,
            best == largest(blocks@, k as int),
        decreases blocks@.len() - k,
    {
        if blocks[k].sz_cpr >= blocks[best].sz_cpr {
            best = k;
        }
        k += 1;
    }
    best
}

/// The layout of an ELF image with these headers.
pub fn layout_of(i: &ElfImage, bytes: &[u8]) -> (r: Result<UpxLayout, UpxError>)
    ensures
        result_view(r) == upx_layout(i@, bytes@),
{
    let n: usize = bytes.len();
    let g: FileSpan = match find_exec_load(&i.segments) {
        None => {
            return Err(UpxError::NoExecSegment);
        },
        Some(k) => match locate_segment(&i.segments[k], n) {
            Err(_) => {
                return Err(UpxError::SegmentPastEnd);
            },
            Ok(g) => g,
        },
    };
    let lo: usize = g.lo as usize;
    let hi: usize = g.hi as usize;
    let end: usize = if hi - lo > MAGIC_WINDOW {
        lo + MAGIC_WINDOW
    } else {
        hi
    };
    let magic: usize = match find_magic(bytes, lo, end) {
        None => {
            return Err(UpxError::NoMagic);
        },
        Some(m) => m,
    };
    if n - magic < 16 {
        return Err(UpxError::Truncated);
    }
    let p_filesize: u32 = read_u32(bytes, magic + 12);
    let blocks: Vec<UpxBlock> = if n - magic < 20 {
        Vec::new()
    } else {
        walk_blocks(bytes, magic + 20, hi)
    };
    proof {
        assert(blocks@ =~= blocks_from(bytes@, magic + 20, hi as int, 0));
        lemma_chained(bytes@, magic + 20, hi as int, 0);
        lemma_word_bound(bytes@, magic + 12);
    }
    if blocks.len() == 0 {
        return Err(UpxError::NoBlocks);
    }
    let top: u64 = match g.addr.checked_add(g.hi - g.lo) {
        None => {
            return Err(UpxError::AddressOverflow);
        },
        Some(t) => t,
    };
    let first: UpxBlock = blocks[0];
    let last: UpxBlock = blocks[blocks.len() - 1];
    let big: UpxBlock = blocks[largest_block(&blocks)];
    let compressed: (u64, u64) = (
        g.addr + (first.file_data.0 - lo) as u64,
        g.addr + (last.file_data.1 - lo) as u64,
    );
    let conservative: (u64, u64) = (
        g.addr + (big.file_data.0 - lo) as u64,
        g.addr + (big.file_data.1 - lo) as u64,
    );
    Ok(
        UpxLayout {
            exec_vaddr: g.addr,
            exec_file: (lo, hi),
            p_filesize,
            blocks,
            compressed,
            conservative,
            stub: (i.entry, top),
            magic_file_off: magic,
        },
    )
}

/// Parses a UPX-packed ELF.
pub fn parse_upx_layout(bytes: &[u8]) -> (r: Result<UpxLayout, UpxError>)
    ensures
        match elf_only(bytes@, |i: ElfImageView| Ok(upx_layout(i, bytes@))) {
            Err(e) => result_view(r) == Err::<UpxLayoutView, UpxError>(UpxError::Header(e)),
            Ok(l) => result_view(r) == l,
        },
{
    match open_elf(bytes) {
        Err(e) => Err(UpxError::Header(e)),
        Ok(i) => layout_of(&i, bytes),
    }
}

// ── Laws ───────────────────────────────────────────────────────────────────

/// Blocks lie in order, one behind the other with room for a header between
/// them, and inside the segment; each is as long as its header says.
pub proof fn law_blocks_are_disjoint(g: FileSpan, entry: u64, bytes: Seq<u8>, j: int, k: int)
    requires
        bytes.len() <= usize::MAX,
        g.lo <= g.hi <= bytes.len(),
        layout_in(g, entry, bytes) is Ok,
        0 <= j < k < layout_in(g, entry, bytes)->Ok_0.blocks.len(),
    ensures
        ({
            let b = layout_in(g, entry, bytes)->Ok_0.blocks;
            &&& g.lo <= b[j].file_data.0 < b[j].file_data.1
            &&& b[j].file_data.1 + 12 <= b[k].file_data.0 < b[k].file_data.1 <= g.hi
            &&& b[j].file_data.1 - b[j].file_data.0 == b[j].sz_cpr
        }),
{
    lemma_first_magic(bytes, g.lo as int, scan_end(g));
    let m = first_magic(bytes, g.lo as int, scan_end(g))->0;
    lemma_chained(bytes, m + 20, g.hi as int, 0);
}

proof fn lemma_first_magic(bytes: Seq<u8>, at: int, end: int)
    ensures
        first_magic(bytes, at, end) matches Some(m) ==> at <= m && m + 4 <= end && is_magic(
            bytes,
            m,
        ),
    decreases end - at,
{
    if at + 4 <= end && !is_magic(bytes, at) {
        lemma_first_magic(bytes, at + 1, end);
    }
}

proof fn lemma_largest(blocks: Seq<UpxBlock>, n: int)
    requires
        0 < n <= blocks.len(),
    ensures
        0 <= largest(blocks, n) < n,
        forall|k: int|
            0 <= k < n ==> (#[trigger] blocks[k]).sz_cpr <= blocks[largest(blocks, n)].sz_cpr,
    decreases n,
{
    if n > 1 {
        lemma_largest(blocks, n - 1);
    }
}

/// The conservative window is the largest block, and it lies inside the
/// compressed window, which lies inside the segment.
pub proof fn law_windows_nest(g: FileSpan, entry: u64, bytes: Seq<u8>)
    requires
        bytes.len() <= usize::MAX,
        g.lo <= g.hi <= bytes.len(),
        layout_in(g, entry, bytes) is Ok,
    ensures
        ({
            let l = layout_in(g, entry, bytes)->Ok_0;
            &&& g.addr <= l.compressed.0 <= l.conservative.0
            &&& l.conservative.0 < l.conservative.1
            &&& l.conservative.1 <= l.compressed.1 <= l.stub.1
            &&& forall|k: int|
                0 <= k < l.blocks.len() ==> (#[trigger] l.blocks[k]).sz_cpr <= l.conservative.1
                    - l.conservative.0
        }),
{
    lemma_first_magic(bytes, g.lo as int, scan_end(g));
    let m = first_magic(bytes, g.lo as int, scan_end(g))->0;
    lemma_chained(bytes, m + 20, g.hi as int, 0);
    let blocks = blocks_from(bytes, m + 20, g.hi as int, 0);
    lemma_largest(blocks, blocks.len() as int);
    let b = largest(blocks, blocks.len() as int);
    if b > 0 {
        assert(blocks[0].file_data.1 + 12 <= blocks[b].file_data.0);
    }
    if b < blocks.len() - 1 {
        assert(blocks[b].file_data.1 + 12 <= blocks[blocks.len() - 1].file_data.0);
    }
}

proof fn lemma_no_magic_before(bytes: Seq<u8>, at: int, end: int)
    ensures
        match first_magic(bytes, at, end) {
            Some(m) => forall|x: int| at <= x < m ==> !#[trigger] is_magic(bytes, x),
            None => forall|x: int| at <= x && x + 4 <= end ==> !#[trigger] is_magic(bytes, x),
        },
    decreases end - at,
{
    if at + 4 <= end && !is_magic(bytes, at) {
        lemma_no_magic_before(bytes, at + 1, end);
    }
}

/// The magic is `UPX!`, the first one in the first 1024 bytes of the segment; without
/// one there is no layout.
pub proof fn law_magic_comes_first(g: FileSpan, entry: u64, bytes: Seq<u8>)
    requires
        g.lo <= g.hi <= bytes.len(),
        bytes.len() <= usize::MAX,
    ensures
        (forall|x: int|
            g.lo <= x && x + 4 <= g.hi && x + 4 <= g.lo + 1024 ==> !(#[trigger] bytes[x] == 0x55
                && bytes[x + 1] == 0x50 && bytes[x + 2] == 0x58 && bytes[x + 3] == 0x21))
            <==> layout_in(g, entry, bytes) == Err::<UpxLayoutView, UpxError>(UpxError::NoMagic),
        layout_in(g, entry, bytes) matches Ok(l) ==> {
            let m = l.magic_file_off as int;
            &&& g.lo <= m && m + 4 <= g.lo + 1024 && m + 4 <= g.hi
            &&& bytes[m] == 0x55 && bytes[m + 1] == 0x50 && bytes[m + 2] == 0x58 && bytes[m + 3]
                == 0x21
            &&& forall|x: int|
                g.lo <= x < m ==> !(#[trigger] bytes[x] == 0x55 && bytes[x + 1] == 0x50 && bytes[x
                    + 2] == 0x58 && bytes[x + 3] == 0x21)
        },
{
    let end = scan_end(g);
    lemma_first_magic(bytes, g.lo as int, end);
    lemma_no_magic_before(bytes, g.lo as int, end);
    match first_magic(bytes, g.lo as int, end) {
        Some(m) => {
            assert(is_magic(bytes, m));
            assert(bytes[m] == 0x55);
            assert forall|x: int| g.lo <= x < m implies !(#[trigger] bytes[x] == 0x55 && bytes[x + 1]
                == 0x50 && bytes[x + 2] == 0x58 && bytes[x + 3] == 0x21) by {
                assert(!is_magic(bytes, x));
            }
        },
        None => {
            assert forall|x: int|
                g.lo <= x && x + 4 <= g.hi && x + 4 <= g.lo + 1024 implies !(#[trigger] bytes[x]
                == 0x55 && bytes[x + 1] == 0x50 && bytes[x + 2] == 0x58 && bytes[x + 3]
                == 0x21) by {
                assert(!is_magic(bytes, x));
            }
        },
    }
}

/// Whether a header at `off` describes a block that is taken.
pub open spec fn describes_block(bytes: Seq<u8>, off: int, fend: int) -> bool {
    let unc = le_value(bytes.subrange(off, off + 4));
    let cpr = le_value(bytes.subrange(off + 4, off + 8));
    &&& off + 12 <= fend
    &&& unc > 0
    &&& cpr > 0
    &&& off + 12 + cpr <= fend
    &&& cpr <= unc + 4096
}

proof fn lemma_walk(bytes: Seq<u8>, off: int, fend: int, found: nat)
    requires
        0 <= off,
        fend <= bytes.len() <= usize::MAX,
        found <= 256,
    ensures
        ({
            let b = blocks_from(bytes, off, fend, found);
            &&& found + b.len() <= 257
            &&& b.len() > 0 <==> describes_block(bytes, off, fend)
            &&& b.len() > 0 ==> b[0].file_data.0 == off + 12
            &&& forall|k: int|
                0 <= k < b.len() ==> {
                    let at = (#[trigger] b[k]).file_data.0 - 12;
                    &&& describes_block(bytes, at, fend)
                    &&& b[k].sz_unc == le_value(bytes.subrange(at, at + 4))
                    &&& b[k].sz_cpr == le_value(bytes.subrange(at + 4, at + 8))
                    &&& b[k].method == bytes[at + 8]
                    &&& b[k].file_data.1 == b[k].file_data.0 + b[k].sz_cpr
                }
            &&& forall|k: int|
                0 <= k < b.len() - 1 ==> b[k + 1].file_data.0 == (#[trigger] b[k]).file_data.1 + 12
            &&& b.len() > 0 && found + b.len() < 257 ==> !describes_block(
                bytes,
                b.last().file_data.1 as int,
                fend,
            )
        }),
    decreases fend - off,
{
    if !(off + 12 > fend || !is_sane(bytes, off, fend)) {
        let next = off + 12 + word(bytes, off + 4);
        lemma_word_bound(bytes, off);
        lemma_word_bound(bytes, off + 4);
        assert(bytes.subrange(off + 4, off + 8) =~= bytes.subrange(off + 4, off + 4 + 4));
        if found + 1 <= MAX_BLOCKS {
            lemma_walk(bytes, next, fend, found + 1);
            let tail = blocks_from(bytes, next, fend, found + 1);
            let all = blocks_from(bytes, off, fend, found);
            assert(all =~= seq![block_at(bytes, off)] + tail);
            assert forall|k: int| 0 <= k < all.len() implies {
                let at = (#[trigger] all[k]).file_data.0 - 12;
                &&& describes_block(bytes, at, fend)
                &&& all[k].sz_unc == le_value(bytes.subrange(at, at + 4))
                &&& all[k].sz_cpr == le_value(bytes.subrange(at + 4, at + 8))
                &&& all[k].method == bytes[at + 8]
                &&& all[k].file_data.1 == all[k].file_data.0 + all[k].sz_cpr
            } by {
                if k > 0 {
                    assert(all[k] == tail[k - 1]);
                }
            }
            assert forall|k: int| 0 <= k < all.len() - 1 implies all[k + 1].file_data.0 == (
            #[trigger] all[k]).file_data.1 + 12 by {
                assert(all[k + 1] == tail[k]);
                if k > 0 {
                    assert(all[k] == tail[k - 1]);
                }
            }
            if tail.len() > 0 {
                assert(all.last() == tail.last());
            }
        }
    } else if off + 12 <= fend {
        assert(bytes.subrange(off + 4, off + 8) =~= bytes.subrange(off + 4, off + 4 + 4));
    }
}

/// Blocks follow twenty bytes behind the magic, header by header, as long as a header
/// describes one: neither size is zero, the data ends in the segment, and it is at most
/// 4096 bytes longer than what it holds. The walk ends at the first header that does
/// not, or with the 257th block.
pub proof fn law_blocks_follow_the_magic(g: FileSpan, entry: u64, bytes: Seq<u8>, k: int)
    requires
        bytes.len() <= usize::MAX,
        g.lo <= g.hi <= bytes.len(),
    ensures
        layout_in(g, entry, bytes) matches Ok(l) ==> {
            let b = l.blocks;
            let m = l.magic_file_off as int;
            &&& 1 <= b.len() <= 257
            &&& b[0].file_data.0 == m + 32
            &&& l.p_filesize == le_value(bytes.subrange(m + 12, m + 16))
            &&& 0 <= k < b.len() ==> {
                let at = b[k].file_data.0 - 12;
                &&& describes_block(bytes, at, g.hi as int)
                &&& b[k].sz_unc == le_value(bytes.subrange(at, at + 4))
                &&& b[k].sz_cpr == le_value(bytes.subrange(at + 4, at + 8))
                &&& b[k].method == bytes[at + 8]
                &&& b[k].file_data.1 == b[k].file_data.0 + b[k].sz_cpr
            }
            &&& 0 <= k < b.len() - 1 ==> b[k + 1].file_data.0 == b[k].file_data.1 + 12
            &&& b.len() < 257 ==> !describes_block(bytes, b.last().file_data.1 as int, g.hi as int)
        },
        layout_in(g, entry, bytes) == Err::<UpxLayoutView, UpxError>(UpxError::NoBlocks) ==> exists|
            m: int,
        | g.lo <= m && !#[trigger] describes_block(bytes, m, g.hi as int),
{
    lemma_first_magic(bytes, g.lo as int, scan_end(g));
    if let Some(m) = first_magic(bytes, g.lo as int, scan_end(g)) {
        lemma_walk(bytes, m + 20, g.hi as int, 0);
        if m + 16 <= bytes.len() {
            lemma_word_bound(bytes, m + 12);
            assert(bytes.subrange(m + 12, m + 12 + 4) =~= bytes.subrange(m + 12, m + 16));
        }
        if blocks_from(bytes, m + 20, g.hi as int, 0).len() == 0 {
            assert(!describes_block(bytes, m + 20, g.hi as int));
        }
    }
}

/// The compressed window runs from the first block's data to the end of the last one's,
/// the conservative one is the largest block's, the last of several, and the stub runs
/// from the entry point to the end of the segment; all as loaded.
pub proof fn law_windows_of_a_layout(g: FileSpan, entry: u64, bytes: Seq<u8>, k: int)
    requires
        bytes.len() <= usize::MAX,
        g.lo <= g.hi <= bytes.len(),
    ensures
        layout_in(g, entry, bytes) matches Ok(l) ==> {
            let b = l.blocks;
            &&& l.exec_vaddr == g.addr && l.exec_file == (g.lo as usize, g.hi as usize)
            &&& l.compressed.0 - g.addr == b[0].file_data.0 - g.lo
            &&& l.compressed.1 - g.addr == b.last().file_data.1 - g.lo
            &&& l.stub == (entry, (g.addr + (g.hi - g.lo)) as u64)
            &&& exists|j: int|
                {
                    &&& 0 <= j < b.len()
                    &&& l.conservative.0 - g.addr == (#[trigger] b[j]).file_data.0 - g.lo
                    &&& l.conservative.1 - g.addr == b[j].file_data.1 - g.lo
                    &&& 0 <= k < b.len() ==> b[k].sz_cpr <= b[j].sz_cpr && (k > j ==> b[k].sz_cpr
                        < b[j].sz_cpr)
                }
        },
{
    lemma_first_magic(bytes, g.lo as int, scan_end(g));
    if let Some(m) = first_magic(bytes, g.lo as int, scan_end(g)) {
        lemma_chained(bytes, m + 20, g.hi as int, 0);
        let blocks = blocks_from(bytes, m + 20, g.hi as int, 0);
        if blocks.len() > 0 {
            lemma_largest(blocks, blocks.len() as int);
            lemma_last_largest(blocks, blocks.len() as int);
            let j = largest(blocks, blocks.len() as int);
            assert(blocks[j].file_data.0 <= g.hi);
            assert(blocks[0].file_data.0 <= g.hi);
            assert(blocks[blocks.len() - 1].file_data.1 <= g.hi);
        }
    }
}

proof fn lemma_last_largest(blocks: Seq<UpxBlock>, n: int)
    requires
        0 < n <= blocks.len(),
    ensures
        0 <= largest(blocks, n) < n,
        forall|k: int|
            largest(blocks, n) < k < n ==> (#[trigger] blocks[k]).sz_cpr < blocks[largest(
                blocks,
                n,
            )].sz_cpr,
    decreases n,
{
    if n > 1 {
        lemma_last_largest(blocks, n - 1);
    }
}

/// What a layout needs, in turn, once the first magic is found: the sixteen bytes that
/// begin with it, a block twenty bytes behind it, and addresses for the whole segment.
pub proof fn law_what_a_layout_needs(g: FileSpan, entry: u64, bytes: Seq<u8>, m: int)
    requires
        bytes.len() <= usize::MAX,
        g.lo <= m,
        m + 4 <= g.hi <= bytes.len(),
        m + 4 <= g.lo + 1024,
        bytes[m] == 0x55 && bytes[m + 1] == 0x50 && bytes[m + 2] == 0x58 && bytes[m + 3] == 0x21,
        forall|x: int|
            g.lo <= x < m ==> !(#[trigger] bytes[x] == 0x55 && bytes[x + 1] == 0x50 && bytes[x + 2]
                == 0x58 && bytes[x + 3] == 0x21),
    ensures
        ({
            let r = layout_in(g, entry, bytes);
            let whole = m + 16 <= bytes.len();
            let block = describes_block(bytes, m + 20, g.hi as int);
            let room = g.addr + (g.hi - g.lo) <= u64::MAX;
            &&& r == Err::<UpxLayoutView, UpxError>(UpxError::Truncated) <==> !whole
            &&& r == Err::<UpxLayoutView, UpxError>(UpxError::NoBlocks) <==> whole && !block
            &&& r == Err::<UpxLayoutView, UpxError>(UpxError::AddressOverflow) <==> whole && block
                && !room
            &&& r is Ok <==> whole && block && room
        }),
{
    let end = scan_end(g);
    lemma_first_magic(bytes, g.lo as int, end);
    lemma_no_magic_before(bytes, g.lo as int, end);
    let f = first_magic(bytes, g.lo as int, end);
    assert(is_magic(bytes, m));
    assert(f == Some(m)) by {
        match f {
            None => {
                assert(!is_magic(bytes, m));
            },
            Some(x) => {
                if x < m {
                    assert(is_magic(bytes, x));
                    assert(bytes[x] == 0x55);
                }
                if m < x {
                    assert(!is_magic(bytes, m));
                }
            },
        }
    }
    lemma_walk(bytes, m + 20, g.hi as int, 0);
}

} // verus!
