//! Ground truth of a binary: typed spans and the true instruction starts.

use std::collections::BTreeSet;

use vstd::prelude::*;

use crate::addresses::{
    address_text, format_addresses, is_listing, law_addresses_can_be_listed, lemma_listing, listing,
    sorted_items,
};
use crate::text::{hex_text, push_hex, push_text, string_of};

verus! {

/// What is true of a span.
#[derive(Debug, Clone, Copy, PartialEq, Eq, Structural)]
pub enum RegionLabel {
    /// Instructions on the intended path.
    Code,
    /// No instructions.
    Data,
    /// Not decided by the static image.
    Unknown,
}

impl RegionLabel {
    /// The tag of a label.
    pub open spec fn spec_str(self) -> Seq<char> {
        match self {
            RegionLabel::Code => "code"@,
            RegionLabel::Data => "data"@,
            RegionLabel::Unknown => "unknown"@,
        }
    }

    /// Whether instructions can start in such a span.
    pub fn is_code(self) -> (r: bool)
        ensures
            r == (self == RegionLabel::Code),
    {
        matches!(self, RegionLabel::Code)
    }

    /// The tag of a label.
    pub fn as_str(self) -> (r: &'static str)
        ensures
            r@ == self.spec_str(),
    {
        match self {
            RegionLabel::Code => "code",
            RegionLabel::Data => "data",
            RegionLabel::Unknown => "unknown",
        }
    }
}

/// The nature of a span.
#[derive(Debug, Clone, Copy, PartialEq, Eq, Structural)]
pub enum RegionKind {
    /// Ordinary code.
    RealCode,
    /// An unpacker or loader.
    StubCode,
    /// Instructions that overlap each other.
    OverlappingCode,
    /// Bytes shaped like code that never run.
    JunkDecoy,
    /// Data inside code.
    InlineData,
    /// A compressed payload.
    CompressedPayload,
    /// An encrypted payload.
    EncryptedPayload,
    /// Bytecode of a virtual machine.
    VmBytecode,
    /// Code before it rewrites itself.
    SmcPreimage,
    /// Headers.
    Header,
    /// Fill bytes.
    Padding,
}

impl RegionKind {
    /// The tag of a kind.
    pub open spec fn spec_str(self) -> Seq<char> {
        match self {
            RegionKind::RealCode => "real_code"@,
            RegionKind::StubCode => "stub_code"@,
            RegionKind::OverlappingCode => "overlapping_code"@,
            RegionKind::JunkDecoy => "junk_decoy"@,
            RegionKind::InlineData => "inline_data"@,
            RegionKind::CompressedPayload => "compressed_payload"@,
            RegionKind::EncryptedPayload => "encrypted_payload"@,
            RegionKind::VmBytecode => "vm_bytecode"@,
            RegionKind::SmcPreimage => "smc_preimage"@,
            RegionKind::Header => "header"@,
            RegionKind::Padding => "padding"@,
        }
    }

    /// The tag of a kind.
    pub fn as_str(self) -> (r: &'static str)
        ensures
            r@ == self.spec_str(),
    {
        match self {
            RegionKind::RealCode => "real_code",
            RegionKind::StubCode => "stub_code",
            RegionKind::OverlappingCode => "overlapping_code",
            RegionKind::JunkDecoy => "junk_decoy",
            RegionKind::InlineData => "inline_data",
            RegionKind::CompressedPayload => "compressed_payload",
            RegionKind::EncryptedPayload => "encrypted_payload",
            RegionKind::VmBytecode => "vm_bytecode",
            RegionKind::SmcPreimage => "smc_preimage",
            RegionKind::Header => "header",
            RegionKind::Padding => "padding",
        }
    }
}

/// A typed span, the end excluded.
#[derive(Debug, Clone)]
pub struct Region {
    /// First address.
    pub start: u64,
    /// Address just past the span.
    pub end: u64,
    /// What is true of it.
    pub label: RegionLabel,
    /// Its nature.
    pub kind: RegionKind,
    /// A note for readers.
    pub note: String,
}

impl Region {
    /// Whether address `a` lies in the span.
    pub open spec fn covers(self, a: int) -> bool {
        self.start <= a < self.end
    }
}

/// Ground truth of one binary.
#[derive(Debug)]
pub struct GroundTruth {
    /// The true instruction starts.
    pub instruction_starts: BTreeSet<u64>,
    /// The spans, in address order.
    pub regions: Vec<Region>,
    /// Why the labels are true.
    pub provenance: String,
}

/// What is wrong with ground truth.
#[derive(Debug, Clone, Copy, PartialEq, Eq, Structural)]
pub enum LabelFault {
    /// There are no spans.
    NoRegions,
    /// The span of that number is empty or inverted.
    EmptyRegion(usize),
    /// The span of that number does not start where the one before it ends.
    GapOrOverlap(usize),
    /// The last span does not end where the range does.
    WrongEnd(u64),
    /// That instruction start lies outside the range.
    StartOutside(u64),
    /// That instruction start lies in no span of code.
    StartNotInCode(u64),
}

/// The first fault of the spans from number `i` on, where the one before ended
/// at `cursor` and the range ends at `hi`.
pub open spec fn tiling_fault(r: Seq<Region>, i: int, cursor: u64, hi: u64) -> Option<LabelFault>
    decreases r.len() - i,
{
    if i >= r.len() {
        if cursor != hi {
            Some(LabelFault::WrongEnd(cursor))
        } else {
            None
        }
    } else if r[i].start >= r[i].end {
        Some(LabelFault::EmptyRegion(i as usize))
    } else if r[i].start != cursor {
        Some(LabelFault::GapOrOverlap(i as usize))
    } else {
        tiling_fault(r, i + 1, r[i].end, hi)
    }
}

/// Whether address `a` lies in a span of code.
pub open spec fn in_code(r: Seq<Region>, a: u64) -> bool {
    exists|k: int|
        0 <= k < r.len() && (#[trigger] r[k]).label == RegionLabel::Code && r[k].covers(a as int)
}

/// The first fault among the starts from number `i` on.
pub open spec fn start_fault(
    starts: Seq<u64>,
    i: int,
    r: Seq<Region>,
    lo: u64,
    hi: u64,
) -> Option<LabelFault>
    decreases starts.len() - i,
{
    if i >= starts.len() {
        None
    } else if !(lo <= starts[i] < hi) {
        Some(LabelFault::StartOutside(starts[i]))
    } else if !in_code(r, starts[i]) {
        Some(LabelFault::StartNotInCode(starts[i]))
    } else {
        start_fault(starts, i + 1, r, lo, hi)
    }
}

/// The first fault of spans and starts as the ground truth of a range.
pub open spec fn label_fault(r: Seq<Region>, starts: Set<u64>, lo: u64, hi: u64) -> Option<
    LabelFault,
> {
    if r.len() == 0 {
        Some(LabelFault::NoRegions)
    } else {
        match tiling_fault(r, 0, lo, hi) {
            Some(f) => Some(f),
            None => start_fault(listing(starts), 0, r, lo, hi),
        }
    }
}

/// One line for a span.
pub open spec fn region_row(r: Region) -> Seq<char> {
    hex_text(r.start) + seq!['\t'] + hex_text(r.end) + seq!['\t'] + r.label.spec_str() + seq!['\t']
        + r.kind.spec_str() + seq!['\t'] + r.note@ + seq!['\n']
}

/// The lines of the first `k` spans.
pub open spec fn region_rows(r: Seq<Region>, k: int) -> Seq<char>
    decreases k,
{
    if k <= 0 {
        Seq::empty()
    } else {
        region_rows(r, k - 1) + region_row(r[k - 1])
    }
}

fn find_tiling_fault(regions: &Vec<Region>, lo: u64, hi: u64) -> (r: Option<LabelFault>)
    ensures
        r == tiling_fault(regions@, 0, lo, hi),
{
    let mut cursor: u64 = lo;
    let mut i: usize = 0;
    while i < regions.len()
        invariant
            i <= regions@.len(),
            tiling_fault(regions@, 0, lo, hi) == tiling_fault(regions@, i as int, cursor, hi),
        decreases regions@.len() - i,
    {
        if regions[i].start >= regions[i].end {
            return Some(LabelFault::EmptyRegion(i));
        }
        if regions[i].start != cursor {
            return Some(LabelFault::GapOrOverlap(i));
        }
        cursor = regions[i].end;
        i += 1;
    }
    if cursor != hi {
        Some(LabelFault::WrongEnd(cursor))
    } else {
        None
    }
}

fn lies_in_code(regions: &Vec<Region>, a: u64) -> (r: bool)
    ensures
        r == in_code(regions@, a),
{
    let mut k: usize = 0;
    while k < regions.len()
        invariant
            k <= regions@.len(),
            forall|j: int|
                0 <= j < k ==> !((#[trigger] regions@[j]).label == RegionLabel::Code
                    && regions@[j].covers(a as int)),
        decreases regions@.len() - k,
    {
        if regions[k].label.is_code() && a >= regions[k].start && a < regions[k].end {
            return true;
        }
        k += 1;
    }
    false
}

impl GroundTruth {
    /// Checks that the spans tile the range from `lo` to `hi` without gap or
    /// overlap and that every instruction start lies in a span of code.
    pub fn validate(&self, lo: u64, hi: u64) -> (r: Result<(), LabelFault>)
        ensures
            r == match label_fault(self.regions@, self.instruction_starts@, lo, hi) {
                Some(f) => Err(f),
                None => Ok(()),
            },
    {
        let starts: Vec<u64> = sorted_items(&self.instruction_starts);
        proof {
            lemma_listing(starts@, self.instruction_starts@);
        }
        if self.regions.len() == 0 {
            return Err(LabelFault::NoRegions);
        }
        if let Some(f) = find_tiling_fault(&self.regions, lo, hi) {
            return Err(f);
        }
        let mut i: usize = 0;
        while i < starts.len()
            invariant
                i <= starts@.len(),
                starts@ == listing(self.instruction_starts@),
                is_listing(starts@, self.instruction_starts@),
                self.regions@.len() > 0,
                tiling_fault(self.regions@, 0, lo, hi) is None,
                start_fault(starts@, 0, self.regions@, lo, hi) == start_fault(
                    starts@,
                    i as int,
                    self.regions@,
                    lo,
                    hi,
                ),
            decreases starts@.len() - i,
        {
            let a: u64 = starts[i];
            if a < lo || a >= hi {
                return Err(LabelFault::StartOutside(a));
            }
            if !lies_in_code(&self.regions, a) {
                return Err(LabelFault::StartNotInCode(a));
            }
            i += 1;
        }
        Ok(())
    }

    /// The text form of the instruction starts: one hexadecimal address per
    /// line, in ascending order.
    pub fn gt_text(&self) -> (r: String)
        ensures
            r@ == address_text(
                listing(self.instruction_starts@),
                listing(self.instruction_starts@).len() as int,
            ),
    {
        format_addresses(&self.instruction_starts)
    }

    /// The text form of the spans: a header line, then one line per span with
    /// its fields between tabs.
    pub fn regions_text(&self) -> (r: String)
        ensures
            r@ == "# start\tend\tlabel\tkind\tnote\n"@ + region_rows(
                self.regions@,
                self.regions@.len() as int,
            ),
    {
        let mut out: Vec<char> = Vec::new();
        push_text(&mut out, "# start\tend\tlabel\tkind\tnote\n");
        let ghost head = out@;
        let mut k: usize = 0;
        proof {
            assert(head =~= "# start\tend\tlabel\tkind\tnote\n"@);
            assert(out@ =~= head + region_rows(self.regions@, 0));
        }
        while k < self.regions.len()
            invariant
                k <= self.regions@.len(),
                out@ == head + region_rows(self.regions@, k as int),
            decreases self.regions@.len() - k,
        {
            let r: &Region = &self.regions[k];
            let ghost before = out@;
            push_hex(&mut out, r.start);
            out.push('\t');
            push_hex(&mut out, r.end);
            out.push('\t');
            push_text(&mut out, r.label.as_str());
            out.push('\t');
            push_text(&mut out, r.kind.as_str());
            out.push('\t');
            push_text(&mut out, r.note.as_str());
            out.push('\n');
            proof {
                assert(out@ =~= before + region_row(*r));
                assert(out@ =~= head + region_rows(self.regions@, k + 1));
            }
            k += 1;
        }
        string_of(&out)
    }
}

// ── Laws ───────────────────────────────────────────────────────────────────

proof fn lemma_tiles(r: Seq<Region>, i: int, cursor: u64, hi: u64, a: int)
    requires
        0 <= i,
        tiling_fault(r, i, cursor, hi) is None,
        cursor <= a < hi,
    ensures
        exists|k: int| i <= k < r.len() && (#[trigger] r[k]).covers(a),
        forall|j: int, k: int|
            i <= j < r.len() && i <= k < r.len() && (#[trigger] r[j]).covers(a) && (
            #[trigger] r[k]).covers(a) ==> j == k,
    decreases r.len() - i,
{
    if i < r.len() {
        lemma_tiles_start(r, i + 1, r[i].end, hi);
        if a < r[i].end {
            assert(r[i].covers(a));
        } else {
            lemma_tiles(r, i + 1, r[i].end, hi, a);
            let k = choose|k: int| i + 1 <= k < r.len() && (#[trigger] r[k]).covers(a);
            assert(r[k].covers(a));
        }
    }
}

proof fn lemma_tiles_start(r: Seq<Region>, i: int, cursor: u64, hi: u64)
    requires
        0 <= i,
        tiling_fault(r, i, cursor, hi) is None,
    ensures
        forall|k: int| i <= k < r.len() ==> cursor <= (#[trigger] r[k]).start < r[k].end <= hi,
        cursor <= hi,
    decreases r.len() - i,
{
    if i < r.len() {
        lemma_tiles_start(r, i + 1, r[i].end, hi);
    }
}

/// Spans that pass the check tile the range: each address of it lies in exactly
/// one span.
pub proof fn law_valid_regions_tile(r: Seq<Region>, starts: Set<u64>, lo: u64, hi: u64, a: int)
    requires
        label_fault(r, starts, lo, hi) is None,
        lo <= a < hi,
    ensures
        exists|k: int| 0 <= k < r.len() && (#[trigger] r[k]).covers(a),
        forall|j: int, k: int|
            0 <= j < r.len() && 0 <= k < r.len() && (#[trigger] r[j]).covers(a) && (
            #[trigger] r[k]).covers(a) ==> j == k,
{
    lemma_tiles(r, 0, lo, hi, a);
}

proof fn lemma_start_fault(starts: Seq<u64>, i: int, r: Seq<Region>, lo: u64, hi: u64)
    requires
        0 <= i,
    ensures
        start_fault(starts, i, r, lo, hi) is None <==> forall|k: int|
            i <= k < starts.len() ==> lo <= #[trigger] starts[k] < hi && in_code(r, starts[k]),
    decreases starts.len() - i,
{
    if i < starts.len() {
        lemma_start_fault(starts, i + 1, r, lo, hi);
        if start_fault(starts, i, r, lo, hi) is Some {
            if lo <= starts[i] < hi && in_code(r, starts[i]) {
                assert(exists|k: int|
                    i + 1 <= k < starts.len() && !(lo <= #[trigger] starts[k] < hi && in_code(
                        r,
                        starts[k],
                    )));
            }
        }
    }
}

/// Starts pass the check exactly when the spans tile the range and each start
/// lies in it and in a span of code.
pub proof fn law_valid_starts_lie_in_code(
    r: Seq<Region>,
    starts: Set<u64>,
    lo: u64,
    hi: u64,
)
    requires
        r.len() > 0,
        tiling_fault(r, 0, lo, hi) is None,
    ensures
        label_fault(r, starts, lo, hi) is None <==> forall|a: u64| #[trigger]
            starts.contains(a) ==> lo <= a < hi && in_code(r, a),
{
    let v = listing(starts);
    law_addresses_can_be_listed(starts);
    lemma_start_fault(v, 0, r, lo, hi);
    if label_fault(r, starts, lo, hi) is None {
        assert forall|a: u64| #[trigger] starts.contains(a) implies lo <= a < hi && in_code(
            r,
            a,
        ) by {
            assert(v.to_set().contains(a));
            let k = choose|k: int| 0 <= k < v.len() && v[k] == a;
            assert(lo <= v[k] < hi);
        }
    } else {
        let k = choose|k: int|
            0 <= k < v.len() && !(lo <= #[trigger] v[k] < hi && in_code(r, v[k]));
        assert(v.to_set().contains(v[k]));
        assert(starts.contains(v[k]));
    }
}

/// Whether span `k` is not empty and begins where the one before it ends, the first one
/// at `lo`.
pub open spec fn joins(r: Seq<Region>, k: int, lo: u64) -> bool {
    r[k].start < r[k].end && r[k].start == (if k == 0 {
        lo
    } else {
        r[k - 1].end
    })
}

/// Where the spans before number `i` end.
spec fn end_before(r: Seq<Region>, i: int, lo: u64) -> u64 {
    if i == 0 {
        lo
    } else {
        r[i - 1].end
    }
}

proof fn lemma_tiling_fault(r: Seq<Region>, i: int, lo: u64, hi: u64)
    requires
        0 <= i <= r.len() <= usize::MAX,
    ensures
        match tiling_fault(r, i, end_before(r, i, lo), hi) {
            Some(LabelFault::EmptyRegion(k)) => i <= k < r.len() && r[k as int].start
                >= r[k as int].end,
            Some(LabelFault::GapOrOverlap(k)) => i <= k < r.len() && r[k as int].start
                != end_before(r, k as int, lo),
            Some(LabelFault::WrongEnd(e)) => e != hi && e == end_before(r, r.len() as int, lo),
            Some(_) => false,
            None => hi == end_before(r, r.len() as int, lo) && forall|k: int|
                i <= k < r.len() ==> #[trigger] joins(r, k, lo),
        },
        hi == end_before(r, r.len() as int, lo) && (forall|k: int|
            i <= k < r.len() ==> #[trigger] joins(r, k, lo)) ==> tiling_fault(
            r,
            i,
            end_before(r, i, lo),
            hi,
        ) is None,
    decreases r.len() - i,
{
    if i < r.len() {
        assert(joins(r, i, lo) <==> r[i].start < r[i].end && r[i].start == end_before(r, i, lo));
        if r[i].start < r[i].end && r[i].start == end_before(r, i, lo) {
            lemma_tiling_fault(r, i + 1, lo, hi);
        }
    }
}

/// What is wrong with spans: one is empty, one does not begin where the one before it
/// ends, or the last does not end where the range does.
pub proof fn law_faults_of_a_tiling(r: Seq<Region>, lo: u64, hi: u64)
    requires
        0 < r.len() <= usize::MAX,
    ensures
        tiling_fault(r, 0, lo, hi) is None <==> r.last().end == hi && forall|k: int|
            0 <= k < r.len() ==> #[trigger] joins(r, k, lo),
        match tiling_fault(r, 0, lo, hi) {
            Some(LabelFault::EmptyRegion(k)) => k < r.len() && r[k as int].start
                >= r[k as int].end,
            Some(LabelFault::GapOrOverlap(k)) => k < r.len() && r[k as int].start != (if k == 0 {
                lo
            } else {
                r[k - 1].end
            }),
            Some(LabelFault::WrongEnd(e)) => e == r.last().end && e != hi,
            Some(_) => false,
            None => true,
        },
{
    lemma_tiling_fault(r, 0, lo, hi);
}

proof fn lemma_start_fault_kind(starts: Seq<u64>, i: int, r: Seq<Region>, lo: u64, hi: u64)
    requires
        0 <= i <= starts.len(),
    ensures
        match start_fault(starts, i, r, lo, hi) {
            Some(LabelFault::StartOutside(a)) => starts.contains(a) && !(lo <= a < hi),
            Some(LabelFault::StartNotInCode(a)) => starts.contains(a) && lo <= a < hi && !in_code(
                r,
                a,
            ),
            Some(_) => false,
            None => true,
        },
    decreases starts.len() - i,
{
    if i < starts.len() {
        assert(starts.contains(starts[i]));
        if lo <= starts[i] < hi && in_code(r, starts[i]) {
            lemma_start_fault_kind(starts, i + 1, r, lo, hi);
        }
    }
}

/// What is wrong with starts: one lies outside the range, or in no span of code. Spans
/// come first, and there must be one.
pub proof fn law_faults_of_starts(r: Seq<Region>, starts: Set<u64>, lo: u64, hi: u64)
    ensures
        label_fault(r, starts, lo, hi) == Some(LabelFault::NoRegions) <==> r.len() == 0,
        r.len() > 0 && tiling_fault(r, 0, lo, hi) is Some ==> label_fault(r, starts, lo, hi)
            == tiling_fault(r, 0, lo, hi),
        r.len() > 0 && tiling_fault(r, 0, lo, hi) is None ==> match label_fault(r, starts, lo, hi) {
            Some(LabelFault::StartOutside(a)) => starts.contains(a) && !(lo <= a < hi),
            Some(LabelFault::StartNotInCode(a)) => starts.contains(a) && lo <= a < hi && forall|
                k: int,
            |
                0 <= k < r.len() && (#[trigger] r[k]).label == RegionLabel::Code ==> !(r[k].start
                    <= a < r[k].end),
            Some(_) => false,
            None => true,
        },
{
    law_addresses_can_be_listed(starts);
    let v = listing(starts);
    lemma_start_fault_kind(v, 0, r, lo, hi);
    assert(v.to_set() == starts);
    if let Some(LabelFault::StartOutside(a)) = start_fault(v, 0, r, lo, hi) {
        assert(v.to_set().contains(a));
    }
    if let Some(LabelFault::StartNotInCode(a)) = start_fault(v, 0, r, lo, hi) {
        assert(v.to_set().contains(a));
    }
    lemma_no_region_fault(r, 0, lo, hi);
}

proof fn lemma_no_region_fault(r: Seq<Region>, i: int, cursor: u64, hi: u64)
    requires
        0 <= i <= r.len(),
    ensures
        tiling_fault(r, i, cursor, hi) != Some(LabelFault::NoRegions),
    decreases r.len() - i,
{
    if i < r.len() && r[i].start < r[i].end && r[i].start == cursor {
        lemma_no_region_fault(r, i + 1, r[i].end, hi);
    }
}

/// The text of spans has one line for each, in order: its ends in hexadecimal, its label,
/// its kind and its note, with tabs between them.
pub proof fn law_lines_of_spans(r: Seq<Region>, x: Region)
    ensures
        region_rows(r.push(x), r.len() + 1int) == region_rows(r, r.len() as int) + hex_text(x.start)
            + seq!['\t'] + hex_text(x.end) + seq!['\t'] + x.label.spec_str() + seq!['\t']
            + x.kind.spec_str() + seq!['\t'] + x.note@ + seq!['\n'],
{
    lemma_rows_below(r, r.push(x), r.len() as int);
    assert(r.push(x)[r.len() as int] == x);
    assert(region_rows(r.push(x), r.len() + 1int) =~= region_rows(r, r.len() as int) + hex_text(
        x.start,
    ) + seq!['\t'] + hex_text(x.end) + seq!['\t'] + x.label.spec_str() + seq!['\t']
        + x.kind.spec_str() + seq!['\t'] + x.note@ + seq!['\n']);
}

proof fn lemma_rows_below(r: Seq<Region>, s: Seq<Region>, k: int)
    requires
        0 <= k <= r.len(),
        k <= s.len(),
        forall|j: int| 0 <= j < k ==> r[j] == s[j],
    ensures
        region_rows(r, k) == region_rows(s, k),
    decreases k,
{
    if k > 0 {
        lemma_rows_below(r, s, k - 1);
        assert(r[k - 1] == s[k - 1]);
    }
}

} // verus!
