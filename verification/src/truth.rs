//! Ground truth from debug information: what is certainly an instruction and
//! what may be one.

use std::collections::{BTreeSet, HashMap};

use vstd::prelude::*;
use vstd::slice::slice_subrange;

use crate::addresses::{is_listing, lemma_count_step, sorted_items};
use crate::decoder::{
    decode_run, insn_run, open_aarch64, open_arm, open_x86_64, run_views, Decoder, Isa, RunInsn,
    RunInsnView,
};
use crate::dwarf::{
    debug_section, find_lowest_advance, holds_lowest_advance, line_rows, read_entries,
    read_line_rows, section_bytes, unit_entries, Entry, LineRow,
};
use crate::image::{
    file_range, parsed_elf, parsed_symbols, read_elf, read_symbols, section_file_range,
    section_views, symbol_views, ElfImage, FileSpan, Section, SectionView, Symbol,
    SymbolView, EM_AARCH64, EM_ARM, EM_X86_64, SHF_EXECINSTR,
};
use crate::order::{comes_first, is_order, law_keys_can_be_ordered, law_order_is_unique, stable_order};
use crate::superset::{in_group, GROUP_CALL, GROUP_JUMP, GROUP_RET};
use crate::text::{
    all_digits, begins_with, chars_of, chars_start_with, digit, digit_of, digits_of, digits_value,
    format_digits, is_space, law_words_lie_between_spaces, numeral, opt_string, parse_numeral,
    push_column, push_text, spaces, split_words, str_eq, string_of, sub_chars, texts, words,
};

verus! {

broadcast use {
    vstd::std_specs::btree::group_btree_axioms,
    vstd::std_specs::hash::group_hash_axioms,
};

/// Symbol type of functions.
pub const STT_FUNC: u8 = 2;

/// Tag of entries that describe functions.
pub const DW_TAG_SUBPROGRAM: u16 = 0x2e;

/// Distance between entries of a procedure linkage table.
pub const PLT_STRIDE: u64 = 16;

// ── Where code can lie ─────────────────────────────────────────────────────

/// Whether a section holds instructions.
pub open spec fn is_exec(s: SectionView) -> bool {
    s.flags & SHF_EXECINSTR != 0
}

/// Whether no section that holds instructions leaves the address space.
pub open spec fn sections_fit(secs: Seq<SectionView>) -> bool {
    forall|k: int|
        0 <= k < secs.len() && is_exec(#[trigger] secs[k]) ==> secs[k].addr + secs[k].size
            <= u64::MAX
}

/// The addresses of the first `k` sections that hold instructions.
pub open spec fn exec_ranges(secs: Seq<SectionView>, k: int) -> Seq<(u64, u64)>
    decreases k,
{
    if k <= 0 {
        Seq::empty()
    } else if is_exec(secs[k - 1]) {
        exec_ranges(secs, k - 1).push(
            (secs[k - 1].addr, (secs[k - 1].addr + secs[k - 1].size) as u64),
        )
    } else {
        exec_ranges(secs, k - 1)
    }
}

/// The instructions of the first `k` sections in a file of `len` bytes.
pub open spec fn code_spans(secs: Seq<SectionView>, len: nat, k: int) -> Seq<FileSpan>
    decreases k,
{
    if k <= 0 {
        Seq::empty()
    } else {
        let before = code_spans(secs, len, k - 1);
        match file_range(secs[k - 1]) {
            Some((lo, hi)) => if is_exec(secs[k - 1]) && hi <= len {
                before.push(FileSpan { addr: secs[k - 1].addr, lo, hi })
            } else {
                before
            },
            None => before,
        }
    }
}

/// Whether `name` is that of a procedure linkage table.
pub open spec fn is_plt_name(name: Option<Seq<char>>) -> bool {
    name == Some(".plt"@) || name == Some(".plt.sec"@) || name == Some(".plt.got"@)
}

/// Address and size of the linkage tables among the first `k` sections.
pub open spec fn plt_spans(secs: Seq<SectionView>, k: int) -> Seq<(u64, u64)>
    decreases k,
{
    if k <= 0 {
        Seq::empty()
    } else if is_exec(secs[k - 1]) && is_plt_name(secs[k - 1].name) {
        plt_spans(secs, k - 1).push((secs[k - 1].addr, secs[k - 1].size))
    } else {
        plt_spans(secs, k - 1)
    }
}

/// The addresses of the last `.text` among the first `k` sections.
pub open spec fn text_span(secs: Seq<SectionView>, k: int) -> Option<(u64, u64)>
    decreases k,
{
    if k <= 0 {
        None
    } else if is_exec(secs[k - 1]) && secs[k - 1].name == Some(".text"@) {
        Some((secs[k - 1].addr, (secs[k - 1].addr + secs[k - 1].size) as u64))
    } else {
        text_span(secs, k - 1)
    }
}

/// Where the code of an image lies.
pub struct ExecLayout {
    /// Addresses of all sections that hold instructions.
    pub ranges: Vec<(u64, u64)>,
    /// Their bytes in the file.
    pub code: Vec<FileSpan>,
    /// Address and size of the linkage tables.
    pub plt: Vec<(u64, u64)>,
    /// Addresses of `.text`.
    pub text: Option<(u64, u64)>,
}

impl ExecLayout {
    /// The layout of the first `k` sections.
    pub open spec fn of(self, secs: Seq<SectionView>, len: nat, k: int) -> bool {
        &&& self.ranges@ == exec_ranges(secs, k)
        &&& self.code@ == code_spans(secs, len, k)
        &&& self.plt@ == plt_spans(secs, k)
        &&& self.text == text_span(secs, k)
    }
}

fn named(s: &Section, name: &str) -> (r: bool)
    ensures
        r == (s@.name == Some(name@)),
{
    match &s.name {
        Some(t) => str_eq(t.as_str(), name),
        None => false,
    }
}

/// Whether no section that holds instructions leaves the address space.
pub fn check_sections(sections: &Vec<Section>) -> (r: bool)
    ensures
        r == sections_fit(section_views(sections@)),
{
    let mut k: usize = 0;
    while k < sections.len()
        invariant
            k <= sections@.len(),
            forall|j: int|
                0 <= j < k && is_exec(#[trigger] section_views(sections@)[j]) ==> section_views(
                    sections@,
                )[j].addr + section_views(sections@)[j].size <= u64::MAX,
        decreases sections@.len() - k,
    {
        let s: &Section = &sections[k];
        proof {
            assert(section_views(sections@)[k as int] == s@);
        }
        if s.flags & SHF_EXECINSTR != 0 && s.addr.checked_add(s.size).is_none() {
            return false;
        }
        k += 1;
    }
    true
}

/// Where the code of an image lies.
pub fn exec_layout(sections: &Vec<Section>, len: usize) -> (r: ExecLayout)
    requires
        sections_fit(section_views(sections@)),
    ensures
        r.of(section_views(sections@), len as nat, sections@.len() as int),
{
    let ghost secs = section_views(sections@);
    let mut r: ExecLayout = ExecLayout {
        ranges: Vec::new(),
        code: Vec::new(),
        plt: Vec::new(),
        text: None,
    };
    let mut k: usize = 0;
    while k < sections.len()
        invariant
            k <= sections@.len(),
            secs == section_views(sections@),
            sections_fit(secs),
            r.of(secs, len as nat, k as int),
        decreases sections@.len() - k,
    {
        let s: &Section = &sections[k];
        proof {
            assert(secs[k as int] == s@);
        }
        if s.flags & SHF_EXECINSTR != 0 {
            let end: u64 = s.addr + s.size;
            r.ranges.push((s.addr, end));
            if let Some((lo, hi)) = section_file_range(s) {
                if hi <= len as u64 {
                    r.code.push(FileSpan { addr: s.addr, lo, hi });
                }
            }
            if named(s, ".text") {
                r.text = Some((s.addr, end));
            }
            if named(s, ".plt") || named(s, ".plt.sec") || named(s, ".plt.got") {
                r.plt.push((s.addr, s.size));
            }
        }
        k += 1;
    }
    r
}

/// Whether `a` lies in one of the ranges.
pub open spec fn in_ranges(ranges: Seq<(u64, u64)>, a: u64) -> bool {
    exists|k: int| 0 <= k < ranges.len() && (#[trigger] ranges[k]).0 <= a < ranges[k].1
}

/// Whether `a` lies in `.text`, or in any code where there is no `.text`.
pub open spec fn in_text(l: ExecLayout, a: u64) -> bool {
    match l.text {
        Some((lo, hi)) => lo <= a < hi,
        None => in_ranges(l.ranges@, a),
    }
}

impl ExecLayout {
    /// Whether `a` lies in a section that holds instructions.
    pub fn holds(&self, a: u64) -> (r: bool)
        ensures
            r == in_ranges(self.ranges@, a),
    {
        let mut k: usize = 0;
        while k < self.ranges.len()
            invariant
                k <= self.ranges@.len(),
                forall|j: int|
                    0 <= j < k ==> !((#[trigger] self.ranges@[j]).0 <= a < self.ranges@[j].1),
            decreases self.ranges@.len() - k,
        {
            if self.ranges[k].0 <= a && a < self.ranges[k].1 {
                return true;
            }
            k += 1;
        }
        false
    }

    /// Whether `a` lies in `.text`, or in any code where there is no `.text`.
    pub fn holds_text(&self, a: u64) -> (r: bool)
        ensures
            r == in_text(*self, a),
    {
        match self.text {
            Some((lo, hi)) => lo <= a && a < hi,
            None => self.holds(a),
        }
    }
}

// ── Anchors ────────────────────────────────────────────────────────────────

/// The functions that the symbol table names.
pub open spec fn symbol_functions(
    syms: Seq<SymbolView>,
    ranges: Seq<(u64, u64)>,
    k: int,
    a: u64,
) -> bool {
    exists|i: int|
        0 <= i < k && (#[trigger] syms[i]).kind == STT_FUNC && syms[i].value == a && a != 0
            && in_ranges(ranges, a)
}

/// The addresses that the line table names.
pub open spec fn line_addresses(
    rows: Seq<LineRow>,
    ranges: Seq<(u64, u64)>,
    k: int,
    a: u64,
) -> bool {
    exists|i: int|
        0 <= i < k && !(#[trigger] rows[i]).end_sequence && rows[i].address == a && in_ranges(
            ranges,
            a,
        )
}

/// The functions that the debug entries name.
pub open spec fn entry_functions(
    entries: Seq<Entry>,
    ranges: Seq<(u64, u64)>,
    k: int,
    a: u64,
) -> bool {
    exists|i: int|
        0 <= i < k && (#[trigger] entries[i]).tag == DW_TAG_SUBPROGRAM && entries[i].low_pc == Some(
            a,
        ) && in_ranges(ranges, a)
}

/// The functions that the symbol table names.
pub fn function_symbols(syms: &Vec<Symbol>, l: &ExecLayout) -> (r: BTreeSet<u64>)
    ensures
        forall|a: u64| #[trigger]
            r@.contains(a) <==> symbol_functions(
                symbol_views(syms@),
                l.ranges@,
                syms@.len() as int,
                a,
            ),
{
    let ghost views = symbol_views(syms@);
    let mut out: BTreeSet<u64> = BTreeSet::new();
    let mut k: usize = 0;
    while k < syms.len()
        invariant
            k <= syms@.len(),
            views == symbol_views(syms@),
            forall|a: u64| #[trigger]
                out@.contains(a) <==> symbol_functions(views, l.ranges@, k as int, a),
        decreases syms@.len() - k,
    {
        let ghost before = out@;
        proof {
            assert(views[k as int] == syms@[k as int]@);
        }
        if syms[k].kind == STT_FUNC && syms[k].value != 0 && l.holds(syms[k].value) {
            out.insert(syms[k].value);
        }
        proof {
            assert forall|a: u64| #[trigger]
                out@.contains(a) <==> symbol_functions(views, l.ranges@, k + 1, a) by {
                assert(before.contains(a) <==> symbol_functions(views, l.ranges@, k as int, a));
                if out@.contains(a) && !before.contains(a) {
                    assert(views[k as int].value == a);
                }
            }
        }
        k += 1;
    }
    out
}

/// The addresses that the line table names.
pub fn line_anchors(rows: &Vec<LineRow>, l: &ExecLayout) -> (r: BTreeSet<u64>)
    ensures
        forall|a: u64| #[trigger]
            r@.contains(a) <==> line_addresses(rows@, l.ranges@, rows@.len() as int, a),
{
    let mut out: BTreeSet<u64> = BTreeSet::new();
    let mut k: usize = 0;
    while k < rows.len()
        invariant
            k <= rows@.len(),
            forall|a: u64| #[trigger]
                out@.contains(a) <==> line_addresses(rows@, l.ranges@, k as int, a),
        decreases rows@.len() - k,
    {
        let ghost before = out@;
        if !rows[k].end_sequence && l.holds(rows[k].address) {
            out.insert(rows[k].address);
        }
        proof {
            assert forall|a: u64| #[trigger]
                out@.contains(a) <==> line_addresses(rows@, l.ranges@, k + 1, a) by {
                assert(before.contains(a) <==> line_addresses(rows@, l.ranges@, k as int, a));
                if out@.contains(a) && !before.contains(a) {
                    assert(rows@[k as int].address == a);
                }
            }
        }
        k += 1;
    }
    out
}

/// The functions that the debug entries name.
pub fn function_entries(entries: &Vec<Entry>, l: &ExecLayout) -> (r: BTreeSet<u64>)
    ensures
        forall|a: u64| #[trigger]
            r@.contains(a) <==> entry_functions(entries@, l.ranges@, entries@.len() as int, a),
{
    let mut out: BTreeSet<u64> = BTreeSet::new();
    let mut k: usize = 0;
    while k < entries.len()
        invariant
            k <= entries@.len(),
            forall|a: u64| #[trigger]
                out@.contains(a) <==> entry_functions(entries@, l.ranges@, k as int, a),
        decreases entries@.len() - k,
    {
        let ghost before = out@;
        if entries[k].tag == DW_TAG_SUBPROGRAM {
            if let Some(pc) = entries[k].low_pc {
                if l.holds(pc) {
                    out.insert(pc);
                }
            }
        }
        proof {
            assert forall|a: u64| #[trigger]
                out@.contains(a) <==> entry_functions(entries@, l.ranges@, k + 1, a) by {
                assert(before.contains(a) <==> entry_functions(entries@, l.ranges@, k as int, a));
                if out@.contains(a) && !before.contains(a) {
                    assert(entries@[k as int].low_pc == Some(a));
                }
            }
        }
        k += 1;
    }
    out
}

// ── Code and data marks ────────────────────────────────────────────────────

/// What a mapping symbol says of the bytes from its address on: whether they are
/// data. Other symbols say nothing.
pub open spec fn mapping_mark(name: Seq<char>) -> Option<bool> {
    if name == "$d"@ {
        Some(true)
    } else if name == "$x"@ || name == "$a"@ || name == "$t"@ {
        Some(false)
    } else if begins_with(name, "$d."@) {
        Some(true)
    } else if begins_with(name, "$x."@) || begins_with(name, "$a."@) || begins_with(
        name,
        "$t."@,
    ) {
        Some(false)
    } else {
        None
    }
}

/// A place where code or data starts.
#[derive(Debug, Clone, Copy, PartialEq, Eq, Structural)]
pub struct Mark {
    /// Address.
    pub addr: u64,
    /// Whether data starts there.
    pub is_data: bool,
}

/// The marks of the first `k` symbols.
pub open spec fn marks_below(syms: Seq<SymbolView>, ranges: Seq<(u64, u64)>, k: int) -> Seq<Mark>
    decreases k,
{
    if k <= 0 {
        Seq::empty()
    } else {
        let before = marks_below(syms, ranges, k - 1);
        match syms[k - 1].name {
            Some(n) => match mapping_mark(n) {
                Some(is_data) => if in_ranges(ranges, syms[k - 1].value) {
                    before.push(Mark { addr: syms[k - 1].value, is_data })
                } else {
                    before
                },
                None => before,
            },
            None => before,
        }
    }
}

/// The addresses of marks.
pub open spec fn mark_addrs(m: Seq<Mark>) -> Seq<u64> {
    m.map_values(|x: Mark| x.addr)
}

/// `m` in the order `o`.
pub open spec fn arranged_marks(m: Seq<Mark>, o: Seq<usize>) -> Seq<Mark> {
    o.map_values(|i: usize| m[i as int])
}

/// The marks by address, those at one address as they came.
pub open spec fn sorted_marks(m: Seq<Mark>) -> Seq<Mark> {
    arranged_marks(m, choose|o: Seq<usize>| is_order(mark_addrs(m), o))
}

/// The number of the first mark behind `a`, counted from `k`.
pub open spec fn first_behind(m: Seq<Mark>, a: u64, k: int) -> int
    decreases m.len() - k,
{
    if k >= m.len() || m[k].addr > a {
        k
    } else {
        first_behind(m, a, k + 1)
    }
}

/// Where the data that `a` lies in ends: at the next mark, or nowhere. Nothing
/// where `a` does not lie in data.
pub open spec fn data_end(m: Seq<Mark>, a: u64) -> Option<u64> {
    let i = first_behind(m, a, 0);
    if i == 0 || !m[i - 1].is_data {
        None
    } else if i < m.len() {
        Some(m[i].addr)
    } else {
        Some(u64::MAX)
    }
}

fn mark_of(name: &str) -> (r: Option<bool>)
    ensures
        r == mapping_mark(name@),
{
    if str_eq(name, "$d") {
        return Some(true);
    }
    if str_eq(name, "$x") || str_eq(name, "$a") || str_eq(name, "$t") {
        return Some(false);
    }
    let n: Vec<char> = chars_of(name);
    if chars_start_with(&n, &chars_of("$d.")) {
        return Some(true);
    }
    if chars_start_with(&n, &chars_of("$x.")) || chars_start_with(&n, &chars_of("$a."))
        || chars_start_with(&n, &chars_of("$t.")) {
        return Some(false);
    }
    None
}

proof fn lemma_sorted_marks(m: Seq<Mark>, o: Seq<usize>)
    requires
        is_order(mark_addrs(m), o),
    ensures
        sorted_marks(m) == arranged_marks(m, o),
        forall|i: int, j: int|
            0 <= i <= j < sorted_marks(m).len() ==> sorted_marks(m)[i].addr
                <= sorted_marks(m)[j].addr,
{
    let p = choose|p: Seq<usize>| is_order(mark_addrs(m), p);
    law_order_is_unique(mark_addrs(m), o, p);
    let r = arranged_marks(m, o);
    assert forall|i: int, j: int| 0 <= i <= j < r.len() implies r[i].addr <= r[j].addr by {
        if i < j {
            assert(comes_first(mark_addrs(m), o[i], o[j]));
            assert(mark_addrs(m)[o[i] as int] == r[i].addr);
            assert(mark_addrs(m)[o[j] as int] == r[j].addr);
        }
    }
}

/// The marks of all mapping symbols in code, by address.
pub fn mapping_marks(syms: &Vec<Symbol>, l: &ExecLayout) -> (r: Vec<Mark>)
    ensures
        r@ == sorted_marks(marks_below(symbol_views(syms@), l.ranges@, syms@.len() as int)),
        forall|i: int, j: int| 0 <= i <= j < r@.len() ==> r@[i].addr <= r@[j].addr,
{
    let ghost views = symbol_views(syms@);
    let mut marks: Vec<Mark> = Vec::new();
    let mut addrs: Vec<u64> = Vec::new();
    let mut k: usize = 0;
    while k < syms.len()
        invariant
            k <= syms@.len(),
            views == symbol_views(syms@),
            marks@ == marks_below(views, l.ranges@, k as int),
            addrs@ == mark_addrs(marks@),
        decreases syms@.len() - k,
    {
        proof {
            assert(views[k as int] == syms@[k as int]@);
        }
        if let Some(name) = &syms[k].name {
            if let Some(is_data) = mark_of(name.as_str()) {
                let addr: u64 = syms[k].value;
                if l.holds(addr) {
                    let ghost before = marks@;
                    marks.push(Mark { addr, is_data });
                    addrs.push(addr);
                    proof {
                        assert(addrs@ =~= mark_addrs(marks@));
                    }
                }
            }
        }
        k += 1;
    }
    let order: Vec<usize> = stable_order(&addrs);
    let mut out: Vec<Mark> = Vec::new();
    let mut i: usize = 0;
    while i < order.len()
        invariant
            i <= order@.len(),
            is_order(addrs@, order@),
            addrs@.len() == marks@.len(),
            out@.len() == i,
            forall|j: int| 0 <= j < i ==> #[trigger] out@[j] == marks@[order@[j] as int],
        decreases order@.len() - i,
    {
        out.push(marks[order[i]]);
        i += 1;
    }
    proof {
        assert(out@ =~= arranged_marks(marks@, order@));
        lemma_sorted_marks(marks@, order@);
    }
    out
}

proof fn lemma_first_behind(m: Seq<Mark>, a: u64, k: int, p: int)
    requires
        0 <= k <= p <= m.len(),
        forall|i: int| k <= i < p ==> (#[trigger] m[i]).addr <= a,
        p < m.len() ==> m[p].addr > a,
    ensures
        first_behind(m, a, k) == p,
    decreases p - k,
{
    if k < p {
        lemma_first_behind(m, a, k + 1, p);
    }
}

/// Where the data that `a` lies in ends.
pub fn data_region_end(m: &Vec<Mark>, a: u64) -> (r: Option<u64>)
    requires
        forall|i: int, j: int| 0 <= i <= j < m@.len() ==> m@[i].addr <= m@[j].addr,
    ensures
        r == data_end(m@, a),
{
    let mut lo: usize = 0;
    let mut hi: usize = m.len();
    while lo < hi
        invariant
            lo <= hi <= m@.len(),
            forall|i: int, j: int| 0 <= i <= j < m@.len() ==> m@[i].addr <= m@[j].addr,
            forall|i: int| 0 <= i < lo ==> (#[trigger] m@[i]).addr <= a,
            forall|i: int| hi <= i < m@.len() ==> (#[trigger] m@[i]).addr > a,
        decreases hi - lo,
    {
        let mid: usize = lo + (hi - lo) / 2;
        if m[mid].addr <= a {
            lo = mid + 1;
        } else {
            hi = mid;
        }
    }
    proof {
        lemma_first_behind(m@, a, 0, lo as int);
    }
    if lo == 0 || !m[lo - 1].is_data {
        return None;
    }
    if lo < m.len() {
        Some(m[lo].addr)
    } else {
        Some(u64::MAX)
    }
}

// ── Reading an instruction ─────────────────────────────────────────────────

/// `s` with every comma turned into a blank.
pub open spec fn spaced(s: Seq<char>) -> Seq<char> {
    s.map_values(
        |c: char|
            if c == ',' {
                ' '
            } else {
                c
            },
    )
}

/// `s` without the number signs it begins with.
pub open spec fn without_hash(s: Seq<char>) -> Seq<char>
    decreases s.len(),
{
    if s.len() > 0 && s[0] == '#' {
        without_hash(s.drop_first())
    } else {
        s
    }
}

/// Whether a word is a hexadecimal number with `0x` before it.
pub open spec fn is_hex_operand(w: Seq<char>) -> bool {
    let t = without_hash(w);
    t.len() > 2 && t[0] == '0' && t[1] == 'x' && all_digits(t.skip(2), 16)
}

/// The number that the first such word from number `k` on denotes, if it fits.
pub open spec fn first_hex_operand(ws: Seq<Seq<char>>, k: int) -> Option<u64>
    decreases ws.len() - k,
{
    if k >= ws.len() {
        None
    } else if is_hex_operand(ws[k]) {
        numeral(without_hash(ws[k]).skip(2), 16)
    } else {
        first_hex_operand(ws, k + 1)
    }
}

/// The target of a direct branch, read from its operands. Operands in memory have
/// none.
pub open spec fn operand_target(s: Seq<char>) -> Option<u64> {
    if s.contains('[') {
        None
    } else {
        first_hex_operand(words(spaced(s)), 0)
    }
}

fn strip_hash(s: &Vec<char>) -> (r: Vec<char>)
    ensures
        r@ == without_hash(s@),
{
    let n: usize = s.len();
    let mut k: usize = 0;
    proof {
        assert(s@.skip(0) =~= s@);
    }
    while k < n && s[k] == '#'
        invariant
            k <= n,
            n == s@.len(),
            without_hash(s@) == without_hash(s@.skip(k as int)),
        decreases n - k,
    {
        proof {
            assert(s@.skip(k as int).drop_first() =~= s@.skip(k + 1));
        }
        k += 1;
    }
    let r: Vec<char> = sub_chars(s, k, n);
    proof {
        assert(r@ =~= s@.skip(k as int));
    }
    r
}

fn has_only_digits(s: &Vec<char>) -> (r: bool)
    ensures
        r == all_digits(s@, 16),
{
    let mut k: usize = 0;
    while k < s.len()
        invariant
            k <= s@.len(),
            forall|j: int| 0 <= j < k ==> digit(#[trigger] s@[j], 16) is Some,
        decreases s@.len() - k,
    {
        if digit_of(s[k], 16).is_none() {
            return false;
        }
        k += 1;
    }
    true
}

/// The target of a direct branch, read from its operands.
pub fn parse_target(op_str: &str) -> (r: Option<u64>)
    ensures
        r == operand_target(op_str@),
{
    let chars: Vec<char> = chars_of(op_str);
    let mut flat: Vec<char> = Vec::new();
    let mut k: usize = 0;
    while k < chars.len()
        invariant
            k <= chars@.len(),
            chars@ == op_str@,
            flat@ == spaced(op_str@.take(k as int)),
            forall|j: int| 0 <= j < k ==> chars@[j] != '[',
        decreases chars@.len() - k,
    {
        let c: char = chars[k];
        if c == '[' {
            return None;
        }
        flat.push(
            if c == ',' {
                ' '
            } else {
                c
            },
        );
        proof {
            assert(flat@ =~= spaced(op_str@.take(k + 1)));
        }
        k += 1;
    }
    proof {
        assert(op_str@.take(k as int) =~= op_str@);
        assert(!op_str@.contains('['));
    }
    let ws: Vec<Vec<char>> = split_words(&flat);
    let mut i: usize = 0;
    while i < ws.len()
        invariant
            i <= ws@.len(),
            !op_str@.contains('['),
            texts(ws@) == words(spaced(op_str@)),
            first_hex_operand(texts(ws@), 0) == first_hex_operand(texts(ws@), i as int),
        decreases ws@.len() - i,
    {
        proof {
            assert(texts(ws@)[i as int] == ws@[i as int]@);
        }
        let t: Vec<char> = strip_hash(&ws[i]);
        if t.len() > 2 && t[0] == '0' && t[1] == 'x' {
            let h: Vec<char> = sub_chars(&t, 2, t.len());
            proof {
                assert(h@ =~= t@.skip(2));
            }
            if has_only_digits(&h) {
                return parse_numeral(&h, 16);
            }
        }
        i += 1;
    }
    None
}

/// One instruction of the linear sweep.
#[derive(Debug)]
pub struct Line {
    /// Address.
    pub addr: u64,
    /// Number of bytes.
    pub size: usize,
    /// Whether control never goes on to the next instruction.
    pub is_term: bool,
    /// Where control goes otherwise, if that is known.
    pub target: Option<u64>,
    /// Mnemonic.
    pub mnemonic: String,
    /// Operands.
    pub op_str: String,
}

/// The contents of a [`Line`].
#[verifier::ext_equal]
pub struct LineView {
    /// Address.
    pub addr: u64,
    /// Number of bytes.
    pub size: nat,
    /// Whether control never goes on to the next instruction.
    pub is_term: bool,
    /// Where control goes otherwise.
    pub target: Option<u64>,
    /// Mnemonic.
    pub mnemonic: Seq<char>,
    /// Operands.
    pub op_str: Seq<char>,
}

impl View for Line {
    type V = LineView;

    open spec fn view(&self) -> LineView {
        LineView {
            addr: self.addr,
            size: self.size as nat,
            is_term: self.is_term,
            target: self.target,
            mnemonic: self.mnemonic@,
            op_str: self.op_str@,
        }
    }
}

/// The contents of a list of lines.
pub open spec fn line_views(v: Seq<Line>) -> Seq<LineView> {
    v.map_values(|x: Line| x@)
}

/// An optional text, empty where it is missing.
pub open spec fn or_empty(s: Option<Seq<char>>) -> Seq<char> {
    match s {
        Some(t) => t,
        None => Seq::empty(),
    }
}

/// Whether a jump of that name is always taken.
pub open spec fn always_jumps(mnemonic: Seq<char>) -> bool {
    mnemonic == "jmp"@ || mnemonic == "b"@ || mnemonic == "br"@
}

/// What an instruction in `groups` does: whether it ends a block, and where it
/// goes.
pub open spec fn flow_of(groups: Seq<u8>, mnemonic: Seq<char>, op_str: Seq<char>) -> (
    bool,
    Option<u64>,
) {
    let jump = in_group(groups, GROUP_JUMP);
    (
        in_group(groups, GROUP_RET) || (jump && always_jumps(mnemonic)),
        if jump || in_group(groups, GROUP_CALL) {
            operand_target(op_str)
        } else {
            None
        },
    )
}

/// The line of an instruction; nothing where its groups are not known.
pub open spec fn line_of(i: RunInsnView) -> Option<LineView> {
    match i.groups {
        None => None,
        Some(g) => {
            let m = or_empty(i.mnemonic);
            let o = or_empty(i.op_str);
            let f = flow_of(g, m, o);
            Some(
                LineView {
                    addr: i.address,
                    size: i.len,
                    is_term: f.0,
                    target: f.1,
                    mnemonic: m,
                    op_str: o,
                },
            )
        },
    }
}

fn lists_group(groups: &Vec<u8>, group: u32) -> (r: bool)
    ensures
        r == in_group(groups@, group),
{
    let mut k: usize = 0;
    while k < groups.len()
        invariant
            k <= groups@.len(),
            forall|j: int| 0 <= j < k ==> groups@[j] != group,
        decreases groups@.len() - k,
    {
        if groups[k] as u32 == group {
            return true;
        }
        k += 1;
    }
    false
}

fn text_or_empty(s: &Option<String>) -> (r: String)
    ensures
        r@ == or_empty(opt_string(*s)),
{
    match s {
        Some(t) => t.clone(),
        None => String::new(),
    }
}

/// The line of an instruction; nothing where its groups are not known.
pub fn classify(i: &RunInsn) -> (r: Option<Line>)
    ensures
        match r {
            Some(x) => line_of(i@) == Some(x@),
            None => line_of(i@) is None,
        },
{
    let groups: &Vec<u8> = match &i.groups {
        Some(g) => g,
        None => {
            return None;
        },
    };
    let mnemonic: String = text_or_empty(&i.mnemonic);
    let op_str: String = text_or_empty(&i.op_str);
    let jump: bool = lists_group(groups, GROUP_JUMP);
    let always: bool = str_eq(mnemonic.as_str(), "jmp") || str_eq(mnemonic.as_str(), "b")
        || str_eq(mnemonic.as_str(), "br");
    let is_term: bool = lists_group(groups, GROUP_RET) || (jump && always);
    let target: Option<u64> = if jump || lists_group(groups, GROUP_CALL) {
        parse_target(op_str.as_str())
    } else {
        None
    };
    Some(Line { addr: i.address, size: i.len, is_term, target, mnemonic, op_str })
}

// ── Linear sweep ───────────────────────────────────────────────────────────

/// Whether an instruction at `a` counts: code can lie there, and no data is
/// marked there.
pub open spec fn counts_at(ranges: Seq<(u64, u64)>, marks: Seq<Mark>, a: u64) -> bool {
    in_ranges(ranges, a) && data_end(marks, a) is None
}

/// The lines of the first `k` instructions of a run that count, behind `done`;
/// nothing where one of them cannot be read.
pub open spec fn run_lines(
    run: Seq<RunInsnView>,
    ranges: Seq<(u64, u64)>,
    marks: Seq<Mark>,
    k: int,
    done: Seq<LineView>,
) -> Option<Seq<LineView>>
    decreases k,
{
    if k <= 0 {
        Some(done)
    } else {
        match run_lines(run, ranges, marks, k - 1, done) {
            None => None,
            Some(before) => if !counts_at(ranges, marks, run[k - 1].address) {
                Some(before)
            } else {
                match line_of(run[k - 1]) {
                    None => None,
                    Some(x) => Some(before.push(x)),
                }
            },
        }
    }
}

/// The offset just past an instruction of a section at `vaddr`.
pub open spec fn offset_past(i: RunInsnView, vaddr: u64) -> int {
    if i.address < vaddr {
        i.len as int
    } else {
        i.address - vaddr + i.len
    }
}

/// The larger of two numbers.
pub open spec fn larger(a: int, b: int) -> int {
    if a < b {
        b
    } else {
        a
    }
}

/// The offset at which data that ends at address `e` ends, in a section of `n`
/// bytes at `vaddr`.
pub open spec fn data_end_offset(e: u64, vaddr: u64, n: int) -> int {
    if e < vaddr {
        0
    } else if e - vaddr < n {
        e - vaddr
    } else {
        n
    }
}

/// A section to sweep: what it holds, where it lies, what is known of it.
pub struct SweepView {
    /// Instruction set.
    pub isa: Isa,
    /// The bytes.
    pub bytes: Seq<u8>,
    /// Load address.
    pub vaddr: u64,
    /// Where code can lie.
    pub ranges: Seq<(u64, u64)>,
    /// Where code and data start.
    pub marks: Seq<Mark>,
    /// How far to go on where nothing decodes.
    pub step: int,
}

impl SweepView {
    /// Number of bytes.
    pub open spec fn n(self) -> int {
        self.bytes.len() as int
    }

    /// The run of instructions that the decoder finds from offset `off` on.
    pub open spec fn run_at(self, off: int) -> Seq<RunInsnView> {
        insn_run(self.isa, self.bytes.skip(off), (self.vaddr + off) as u64)
    }
}

/// The lines of a section from offset `off` on, behind `done`. Data is skipped; of
/// a run of instructions all are taken that count; where nothing decodes the sweep
/// goes on a step.
pub open spec fn sweep_from(c: SweepView, off: int, done: Seq<LineView>) -> Option<Seq<LineView>>
    decreases larger(c.n() - off, 0),
    when c.step > 0
{
    if off >= c.n() {
        Some(done)
    } else {
        match data_end(c.marks, (c.vaddr + off) as u64) {
            Some(e) => sweep_from(
                c,
                larger(data_end_offset(e, c.vaddr, c.n()), off + c.step),
                done,
            ),
            None => {
                let run = c.run_at(off);
                if run.len() == 0 {
                    sweep_from(c, off + c.step, done)
                } else {
                    match run_lines(run, c.ranges, c.marks, run.len() as int, done) {
                        None => None,
                        Some(more) => sweep_from(
                            c,
                            larger(offset_past(run.last(), c.vaddr), off + c.step),
                            more,
                        ),
                    }
                }
            },
        }
    }
}

/// Why no ground truth could be made.
#[derive(Debug, Clone, Copy, PartialEq, Eq, Structural)]
pub enum TruthError {
    /// The headers could not be read.
    Unreadable,
    /// A section leaves the address space.
    SectionOverflow,
    /// The debug information could not be read.
    BadDebugInfo,
    /// Instructions of that machine cannot be decoded.
    Machine(u16),
    /// The decoder could not be opened.
    DecoderUnavailable,
    /// The decoder has no detail record of an instruction.
    NoDetail,
}

fn push_run(run: &Vec<RunInsn>, l: &ExecLayout, marks: &Vec<Mark>, out: &mut Vec<Line>) -> (ok:
    bool)
    requires
        forall|i: int, j: int| 0 <= i <= j < marks@.len() ==> marks@[i].addr <= marks@[j].addr,
    ensures
        ok ==> run_lines(
            run_views(run@),
            l.ranges@,
            marks@,
            run@.len() as int,
            line_views(old(out)@),
        ) == Some(line_views(final(out)@)),
        !ok ==> run_lines(
            run_views(run@),
            l.ranges@,
            marks@,
            run@.len() as int,
            line_views(old(out)@),
        ) is None,
{
    let ghost views = run_views(run@);
    let ghost start = line_views(out@);
    let mut k: usize = 0;
    while k < run.len()
        invariant
            k <= run@.len(),
            views == run_views(run@),
            start == line_views(old(out)@),
            forall|i: int, j: int| 0 <= i <= j < marks@.len() ==> marks@[i].addr <= marks@[j].addr,
            run_lines(views, l.ranges@, marks@, k as int, start) == Some(line_views(out@)),
        decreases run@.len() - k,
    {
        proof {
            assert(views[k as int] == run@[k as int]@);
        }
        if l.holds(run[k].address) && data_region_end(marks, run[k].address).is_none() {
            match classify(&run[k]) {
                Some(x) => {
                    let ghost before = line_views(out@);
                    out.push(x);
                    proof {
                        assert(line_views(out@) =~= before.push(x@));
                    }
                },
                None => {
                    proof {
                        lemma_run_lines_none(
                            views,
                            l.ranges@,
                            marks@,
                            k + 1,
                            run@.len() as int,
                            start,
                        );
                    }
                    return false;
                },
            }
        }
        k += 1;
    }
    true
}

proof fn lemma_run_lines_none(
    run: Seq<RunInsnView>,
    ranges: Seq<(u64, u64)>,
    marks: Seq<Mark>,
    k: int,
    n: int,
    done: Seq<LineView>,
)
    requires
        0 <= k <= n,
        run_lines(run, ranges, marks, k, done) is None,
    ensures
        run_lines(run, ranges, marks, n, done) is None,
    decreases n - k,
{
    if k < n {
        lemma_run_lines_none(run, ranges, marks, k + 1, n, done);
    }
}

/// Sweeps one section and appends its lines. Fails where the decoder has no detail
/// record of an instruction.
pub fn sweep_section(
    d: &Decoder,
    bytes: &[u8],
    vaddr: u64,
    l: &ExecLayout,
    marks: &Vec<Mark>,
    step: usize,
    out: &mut Vec<Line>,
) -> (ok: bool)
    requires
        0 < step <= 8,
        vaddr + bytes@.len() <= u64::MAX,
        forall|i: int, j: int| 0 <= i <= j < marks@.len() ==> marks@[i].addr <= marks@[j].addr,
    ensures
        sweep_from(
            SweepView {
                isa: d.spec_isa(),
                bytes: bytes@,
                vaddr,
                ranges: l.ranges@,
                marks: marks@,
                step: step as int,
            },
            0,
            line_views(old(out)@),
        ) == (if ok {
            Some(line_views(final(out)@))
        } else {
            None
        }),
{
    let n: usize = bytes.len();
    let ghost c = SweepView {
        isa: d.spec_isa(),
        bytes: bytes@,
        vaddr,
        ranges: l.ranges@,
        marks: marks@,
        step: step as int,
    };
    let ghost start = line_views(out@);
    let mut off: usize = 0;
    while off < n
        invariant
            n == bytes@.len(),
            0 < step <= 8,
            vaddr + n <= u64::MAX,
            start == line_views(old(out)@),
            c == (SweepView {
                isa: d.spec_isa(),
                bytes: bytes@,
                vaddr,
                ranges: l.ranges@,
                marks: marks@,
                step: step as int,
            }),
            forall|i: int, j: int| 0 <= i <= j < marks@.len() ==> marks@[i].addr <= marks@[j].addr,
            sweep_from(c, 0, start) == sweep_from(c, off as int, line_views(out@)),
        decreases n - off,
    {
        let addr: u64 = vaddr + off as u64;
        let least: usize = if step < n - off {
            off + step
        } else {
            n
        };
        let ghost o = off as int;
        match data_region_end(marks, addr) {
            Some(e) => {
                let skip: usize = if e < vaddr {
                    0
                } else if e - vaddr < n as u64 {
                    (e - vaddr) as usize
                } else {
                    n
                };
                off = if skip < least {
                    least
                } else {
                    skip
                };
                proof {
                    lemma_sweep_past_end(
                        c,
                        off as int,
                        larger(data_end_offset(e, vaddr, n as int), o + step),
                        line_views(out@),
                    );
                }
            },
            None => {
                let tail: &[u8] = slice_subrange(bytes, off, n);
                proof {
                    assert(tail@ =~= bytes@.skip(off as int));
                }
                let run: Vec<RunInsn> = decode_run(d, tail, addr);
                let ghost lines = line_views(out@);
                let ghost rv = run_views(run@);
                proof {
                    assert(c.run_at(o) == rv);
                }
                if run.len() == 0 {
                    off = least;
                    proof {
                        lemma_sweep_past_end(c, off as int, o + step, lines);
                    }
                } else {
                    let read: bool = push_run(&run, l, marks, out);
                    if !read {
                        return false;
                    }
                    let last: usize = run.len() - 1;
                    let size: usize = run[last].len;
                    let past: usize = if run[last].address < vaddr {
                        size
                    } else {
                        let rel: u64 = run[last].address - vaddr;
                        if rel < n as u64 {
                            if size < n - rel as usize {
                                rel as usize + size
                            } else {
                                n
                            }
                        } else {
                            n
                        }
                    };
                    let next: usize = if past < least {
                        least
                    } else {
                        past
                    };
                    off = if next < n {
                        next
                    } else {
                        n
                    };
                    proof {
                        assert(rv.last() == run@[last as int]@);
                        let to = larger(offset_past(rv.last(), vaddr), o + step);
                        lemma_sweep_past_end(c, off as int, to, line_views(out@));
                    }
                }
            },
        }
    }
    true
}

/// Beyond the end of a section it does not matter where a sweep stands.
proof fn lemma_sweep_past_end(c: SweepView, a: int, b: int, done: Seq<LineView>)
    requires
        c.step > 0,
        a == b || (a >= c.n() && b >= c.n()),
    ensures
        sweep_from(c, a, done) == sweep_from(c, b, done),
{
}

/// The sweep of a section of the file.
pub open spec fn span_sweep(
    isa: Isa,
    data: Seq<u8>,
    g: FileSpan,
    ranges: Seq<(u64, u64)>,
    marks: Seq<Mark>,
    step: int,
) -> SweepView {
    SweepView {
        isa,
        bytes: data.subrange(g.lo as int, g.hi as int),
        vaddr: g.addr,
        ranges,
        marks,
        step,
    }
}

/// The lines of the first `k` sections of a file; nothing where the decoder has no
/// detail record of one of their instructions.
pub open spec fn sweep_below(
    isa: Isa,
    data: Seq<u8>,
    spans: Seq<FileSpan>,
    ranges: Seq<(u64, u64)>,
    marks: Seq<Mark>,
    step: int,
    k: int,
) -> Option<Seq<LineView>>
    decreases k,
{
    if k <= 0 {
        Some(Seq::empty())
    } else {
        match sweep_below(isa, data, spans, ranges, marks, step, k - 1) {
            None => None,
            Some(done) => sweep_from(
                span_sweep(isa, data, spans[k - 1], ranges, marks, step),
                0,
                done,
            ),
        }
    }
}

/// Whether every section lies in the file and in the address space.
pub open spec fn spans_fit(spans: Seq<FileSpan>, len: nat) -> bool {
    forall|k: int|
        0 <= k < spans.len() ==> (#[trigger] spans[k]).lo <= spans[k].hi <= len && spans[k].addr + (
        spans[k].hi - spans[k].lo) <= u64::MAX
}

proof fn lemma_sweep_below_none(
    isa: Isa,
    data: Seq<u8>,
    spans: Seq<FileSpan>,
    ranges: Seq<(u64, u64)>,
    marks: Seq<Mark>,
    step: int,
    k: int,
    n: int,
)
    requires
        0 <= k <= n,
        sweep_below(isa, data, spans, ranges, marks, step, k) is None,
    ensures
        sweep_below(isa, data, spans, ranges, marks, step, n) is None,
    decreases n - k,
{
    if k < n {
        lemma_sweep_below_none(isa, data, spans, ranges, marks, step, k + 1, n);
    }
}

/// Whether no line stands in marked data.
pub open spec fn are_carved(lines: Seq<LineView>, marks: Seq<Mark>) -> bool {
    forall|i: int| 0 <= i < lines.len() ==> data_end(marks, (#[trigger] lines[i]).addr) is None
}

proof fn lemma_run_is_carved(
    run: Seq<RunInsnView>,
    ranges: Seq<(u64, u64)>,
    marks: Seq<Mark>,
    k: int,
    done: Seq<LineView>,
)
    requires
        0 <= k <= run.len(),
        are_carved(done, marks),
    ensures
        run_lines(run, ranges, marks, k, done) matches Some(v) ==> are_carved(v, marks),
    decreases k,
{
    if k > 0 {
        lemma_run_is_carved(run, ranges, marks, k - 1, done);
    }
}

proof fn lemma_sweep_is_carved(c: SweepView, off: int, done: Seq<LineView>)
    requires
        c.step > 0,
        are_carved(done, c.marks),
    ensures
        sweep_from(c, off, done) matches Some(v) ==> are_carved(v, c.marks),
    decreases larger(c.n() - off, 0),
{
    if off < c.n() {
        match data_end(c.marks, (c.vaddr + off) as u64) {
            Some(e) => {
                lemma_sweep_is_carved(
                    c,
                    larger(data_end_offset(e, c.vaddr, c.n()), off + c.step),
                    done,
                );
            },
            None => {
                let run = c.run_at(off);
                if run.len() == 0 {
                    lemma_sweep_is_carved(c, off + c.step, done);
                } else {
                    lemma_run_is_carved(run, c.ranges, c.marks, run.len() as int, done);
                    if let Some(more) = run_lines(run, c.ranges, c.marks, run.len() as int, done) {
                        lemma_sweep_is_carved(
                            c,
                            larger(offset_past(run.last(), c.vaddr), off + c.step),
                            more,
                        );
                    }
                }
            },
        }
    }
}

/// Marked data never reaches the disassembly: no line of a swept file stands in
/// it.
pub proof fn law_marked_data_is_carved_out(
    isa: Isa,
    data: Seq<u8>,
    spans: Seq<FileSpan>,
    ranges: Seq<(u64, u64)>,
    marks: Seq<Mark>,
    step: int,
    k: int,
)
    requires
        step > 0,
        0 <= k <= spans.len(),
    ensures
        sweep_below(isa, data, spans, ranges, marks, step, k) matches Some(v) ==> are_carved(
            v,
            marks,
        ),
    decreases k,
{
    if k > 0 {
        law_marked_data_is_carved_out(isa, data, spans, ranges, marks, step, k - 1);
        if let Some(done) = sweep_below(isa, data, spans, ranges, marks, step, k - 1) {
            lemma_sweep_is_carved(
                span_sweep(isa, data, spans[k - 1], ranges, marks, step),
                0,
                done,
            );
        }
    }
}

/// Sweeps all sections of a file. Nothing comes back where the decoder has no
/// detail record of an instruction.
pub fn sweep_file(
    d: &Decoder,
    data: &[u8],
    l: &ExecLayout,
    marks: &Vec<Mark>,
    step: usize,
) -> (r: Option<Vec<Line>>)
    requires
        0 < step <= 8,
        spans_fit(l.code@, data@.len()),
        forall|i: int, j: int| 0 <= i <= j < marks@.len() ==> marks@[i].addr <= marks@[j].addr,
    ensures
        sweep_below(
            d.spec_isa(),
            data@,
            l.code@,
            l.ranges@,
            marks@,
            step as int,
            l.code@.len() as int,
        ) == match r {
            Some(v) => Some(line_views(v@)),
            None => None,
        },
{
    let ghost spans = l.code@;
    let ghost isa = d.spec_isa();
    let mut out: Vec<Line> = Vec::new();
    let mut k: usize = 0;
    let n: usize = data.len();
    proof {
        assert(line_views(out@) =~= Seq::empty());
    }
    while k < l.code.len()
        invariant
            k <= l.code@.len(),
            spans == l.code@,
            isa == d.spec_isa(),
            n == data@.len(),
            0 < step <= 8,
            spans_fit(spans, data@.len()),
            forall|i: int, j: int| 0 <= i <= j < marks@.len() ==> marks@[i].addr <= marks@[j].addr,
            sweep_below(isa, data@, spans, l.ranges@, marks@, step as int, k as int) == Some(
                line_views(out@),
            ),
        decreases l.code@.len() - k,
    {
        let g: FileSpan = l.code[k];
        proof {
            assert(spans[k as int] == g);
        }
        let bytes: &[u8] = slice_subrange(data, g.lo as usize, g.hi as usize);
        let ok: bool = sweep_section(d, bytes, g.addr, l, marks, step, &mut out);
        if !ok {
            proof {
                lemma_sweep_below_none(
                    isa,
                    data@,
                    spans,
                    l.ranges@,
                    marks@,
                    step as int,
                    k + 1,
                    spans.len() as int,
                );
            }
            return None;
        }
        k += 1;
    }
    Some(out)
}

// ── Reachability ───────────────────────────────────────────────────────────

/// The number of the last line at address `a` among the first `k`.
pub open spec fn last_line(lines: Seq<LineView>, a: u64, k: int) -> Option<int>
    decreases k,
{
    if k <= 0 {
        None
    } else if lines[k - 1].addr == a {
        Some(k - 1)
    } else {
        last_line(lines, a, k - 1)
    }
}

/// The line at address `a`: the last one, if there are several.
pub open spec fn line_at(lines: Seq<LineView>, a: u64) -> Option<LineView> {
    match last_line(lines, a, lines.len() as int) {
        Some(k) => Some(lines[k]),
        None => None,
    }
}

/// Whether control goes from `a` to `b`: on to the next line, or by a direct
/// branch within `.text`.
pub open spec fn leads(lines: Seq<LineView>, l: ExecLayout, a: u64, b: u64) -> bool {
    &&& line_at(lines, b) is Some
    &&& match line_at(lines, a) {
        Some(x) => (!x.is_term && a + x.size == b) || (x.target == Some(b) && in_text(l, b)),
        None => false,
    }
}

/// A path of control flow.
pub open spec fn is_flow(lines: Seq<LineView>, l: ExecLayout, p: Seq<u64>) -> bool {
    &&& p.len() > 0
    &&& forall|i: int| 0 <= i < p.len() - 1 ==> leads(lines, l, #[trigger] p[i], p[i + 1])
}

/// A path of control flow from a seed to `a`.
pub open spec fn flows_to(
    lines: Seq<LineView>,
    l: ExecLayout,
    seeds: Set<u64>,
    a: u64,
    p: Seq<u64>,
) -> bool {
    is_flow(lines, l, p) && seeds.contains(p[0]) && p.last() == a
}

/// Whether control can reach `a` from a seed.
pub open spec fn reached(lines: Seq<LineView>, l: ExecLayout, seeds: Set<u64>, a: u64) -> bool {
    exists|p: Seq<u64>| #[trigger] flows_to(lines, l, seeds, a, p)
}

proof fn lemma_reach_step(
    lines: Seq<LineView>,
    l: ExecLayout,
    seeds: Set<u64>,
    a: u64,
    b: u64,
)
    requires
        reached(lines, l, seeds, a),
        leads(lines, l, a, b),
    ensures
        reached(lines, l, seeds, b),
{
    let p = choose|p: Seq<u64>| #[trigger] flows_to(lines, l, seeds, a, p);
    let q = p.push(b);
    assert forall|i: int| 0 <= i < q.len() - 1 implies leads(
        lines,
        l,
        #[trigger] q[i],
        q[i + 1],
    ) by {
        if i < p.len() - 1 {
            assert(q[i] == p[i] && q[i + 1] == p[i + 1]);
        } else {
            assert(q[i] == a && q[i + 1] == b);
        }
    }
    assert(q[0] == p[0]);
    assert(flows_to(lines, l, seeds, b, q));
}

proof fn lemma_closed_contains_path(
    lines: Seq<LineView>,
    l: ExecLayout,
    s: Set<u64>,
    p: Seq<u64>,
    k: int,
)
    requires
        is_flow(lines, l, p),
        s.contains(p[0]),
        forall|a: u64, b: u64| s.contains(a) && #[trigger] leads(lines, l, a, b) ==> s.contains(b),
        0 <= k < p.len(),
    ensures
        s.contains(p[k]),
    decreases k,
{
    if k > 0 {
        lemma_closed_contains_path(lines, l, s, p, k - 1);
        assert(leads(lines, l, p[k - 1], p[k - 1 + 1]));
    }
}

/// The last line at each address.
fn index_lines(lines: &Vec<Line>) -> (r: HashMap<u64, usize>)
    ensures
        forall|a: u64| #[trigger]
            r@.dom().contains(a) <==> last_line(
                line_views(lines@),
                a,
                lines@.len() as int,
            ) is Some,
        forall|a: u64| #[trigger]
            r@.dom().contains(a) ==> last_line(line_views(lines@), a, lines@.len() as int) == Some(
                r@[a] as int,
            ) && r@[a] < lines@.len(),
{
    let ghost views = line_views(lines@);
    let mut map: HashMap<u64, usize> = HashMap::new();
    let mut k: usize = 0;
    while k < lines.len()
        invariant
            k <= lines@.len(),
            views == line_views(lines@),
            forall|a: u64| #[trigger]
                map@.dom().contains(a) <==> last_line(views, a, k as int) is Some,
            forall|a: u64| #[trigger]
                map@.dom().contains(a) ==> last_line(views, a, k as int) == Some(map@[a] as int)
                    && map@[a] < k,
        decreases lines@.len() - k,
    {
        proof {
            assert(views[k as int] == lines@[k as int]@);
        }
        map.insert(lines[k].addr, k);
        k += 1;
    }
    map
}

/// The addresses that control can reach from the seeds.
pub fn close_under_flow(lines: &Vec<Line>, l: &ExecLayout, seeds: &Vec<u64>) -> (r: BTreeSet<u64>)
    ensures
        forall|a: u64| #[trigger]
            r@.contains(a) <==> reached(line_views(lines@), *l, seeds@.to_set(), a),
{
    let ghost views = line_views(lines@);
    let ghost roots = seeds@.to_set();
    let index: HashMap<u64, usize> = index_lines(lines);
    let mut found: BTreeSet<u64> = BTreeSet::new();
    let mut work: Vec<u64> = Vec::new();
    let ghost addrs = views.map_values(|x: LineView| x.addr);
    let ghost all = roots.union(addrs.to_set());
    let mut k: usize = 0;
    while k < seeds.len()
        invariant
            k <= seeds@.len(),
            work@ == seeds@.take(k as int),
        decreases seeds@.len() - k,
    {
        work.push(seeds[k]);
        proof {
            assert(work@ =~= seeds@.take(k + 1));
        }
        k += 1;
    }
    proof {
        assert(work@ =~= seeds@);
        assert(found@ =~= Set::empty());
        vstd::seq_lib::seq_to_set_is_finite(seeds@);
        vstd::seq_lib::seq_to_set_is_finite(addrs);
        assert forall|j: int| 0 <= j < work@.len() implies reached(
            views,
            *l,
            roots,
            #[trigger] work@[j],
        ) && all.contains(work@[j]) by {
            assert(flows_to(views, *l, roots, work@[j], seq![work@[j]]));
        }
        assert forall|a: u64| #[trigger] roots.contains(a) implies found@.contains(a)
            || work@.contains(a) by {}
    }
    while work.len() > 0
        invariant
            views == line_views(lines@),
            roots == seeds@.to_set(),
            addrs == views.map_values(|x: LineView| x.addr),
            all == roots.union(addrs.to_set()),
            all.finite(),
            found@.finite(),
            forall|a: u64| #[trigger]
                index@.dom().contains(a) <==> last_line(views, a, views.len() as int) is Some,
            forall|a: u64| #[trigger]
                index@.dom().contains(a) ==> last_line(views, a, views.len() as int) == Some(
                    index@[a] as int,
                ) && index@[a] < lines@.len(),
            found@.subset_of(all),
            forall|j: int|
                0 <= j < work@.len() ==> reached(views, *l, roots, #[trigger] work@[j])
                    && all.contains(work@[j]),
            forall|a: u64| #[trigger] found@.contains(a) ==> reached(views, *l, roots, a),
            forall|a: u64| #[trigger]
                roots.contains(a) ==> found@.contains(a) || work@.contains(a),
            forall|a: u64, b: u64|
                found@.contains(a) && #[trigger] leads(views, *l, a, b) ==> found@.contains(b)
                    || work@.contains(b),
        decreases all.len() - found@.len(), work@.len(),
    {
        let ghost before_work = work@;
        let ghost before = found@;
        let a: u64 = match work.pop() {
            Some(x) => x,
            None => 0,
        };
        proof {
            assert(a == before_work.last());
            assert(work@ =~= before_work.drop_last());
            assert(reached(views, *l, roots, before_work[before_work.len() - 1]));
            lemma_drop_last(before_work);
        }
        if found.insert(a) {
            proof {
                vstd::set_lib::lemma_len_subset(found@, all);
                assert(found@ =~= before.insert(a));
            }
            let mut next: Option<u64> = None;
            let mut jump: Option<u64> = None;
            if let Some(i) = index.get(&a) {
                let x: &Line = &lines[*i];
                proof {
                    assert(views[*i as int] == x@);
                    assert(line_at(views, a) == Some(x@));
                }
                if !x.is_term {
                    if let Some(b) = a.checked_add(x.size as u64) {
                        if index.contains_key(&b) {
                            next = Some(b);
                        }
                    }
                }
                if let Some(t) = x.target {
                    if l.holds_text(t) && index.contains_key(&t) {
                        jump = Some(t);
                    }
                }
            }
            proof {
                assert forall|b: u64| #[trigger] leads(views, *l, a, b) implies next == Some(b)
                    || jump == Some(b) by {
                    assert(index@.dom().contains(b) <==> last_line(views, b, views.len() as int)
                        is Some);
                    assert(index@.dom().contains(a) <==> last_line(views, a, views.len() as int)
                        is Some);
                }
                assert(next matches Some(b) ==> leads(views, *l, a, b));
                assert(jump matches Some(b) ==> leads(views, *l, a, b));
            }
            let ghost mid = work@;
            if let Some(b) = next {
                work.push(b);
                proof {
                    lemma_reach_step(views, *l, roots, a, b);
                    lemma_line_in_all(views, b, all);
                }
            }
            if let Some(b) = jump {
                work.push(b);
                proof {
                    lemma_reach_step(views, *l, roots, a, b);
                    lemma_line_in_all(views, b, all);
                }
            }
            proof {
                assert forall|x: u64| #[trigger] mid.contains(x) implies work@.contains(x) by {
                    let j = choose|j: int| 0 <= j < mid.len() && mid[j] == x;
                    assert(work@[j] == x);
                }
                if next is Some {
                    assert(work@[mid.len() as int] == next->0);
                }
                if jump is Some {
                    assert(work@[work@.len() - 1] == jump->0);
                }
                assert forall|x: u64, b: u64|
                    found@.contains(x) && #[trigger] leads(views, *l, x, b) implies found@.contains(
                    b,
                ) || work@.contains(b) by {
                    if x == a {
                        assert(next == Some(b) || jump == Some(b));
                    } else {
                        assert(before.contains(x));
                        assert(before.contains(b) || before_work.contains(b));
                    }
                }
                assert forall|x: u64| #[trigger] roots.contains(x) implies found@.contains(x)
                    || work@.contains(x) by {
                    assert(before.contains(x) || before_work.contains(x));
                }
                assert forall|j: int| 0 <= j < work@.len() implies reached(
                    views,
                    *l,
                    roots,
                    #[trigger] work@[j],
                ) && all.contains(work@[j]) by {
                    if j < mid.len() {
                        assert(work@[j] == before_work[j]);
                    }
                }
            }
        } else {
            proof {
                assert(found@ =~= before);
                assert forall|x: u64, b: u64|
                    found@.contains(x) && #[trigger] leads(views, *l, x, b) implies found@.contains(
                    b,
                ) || work@.contains(b) by {
                    assert(before.contains(b) || before_work.contains(b));
                }
                assert forall|x: u64| #[trigger] roots.contains(x) implies found@.contains(x)
                    || work@.contains(x) by {
                    assert(before.contains(x) || before_work.contains(x));
                }
                assert forall|j: int| 0 <= j < work@.len() implies reached(
                    views,
                    *l,
                    roots,
                    #[trigger] work@[j],
                ) && all.contains(work@[j]) by {
                    assert(work@[j] == before_work[j]);
                }
            }
        }
    }
    proof {
        assert forall|a: u64| #[trigger] found@.contains(a) <==> reached(views, *l, roots, a) by {
            if reached(views, *l, roots, a) {
                let p = choose|p: Seq<u64>| #[trigger] flows_to(views, *l, roots, a, p);
                assert(found@.contains(p[0]) || work@.contains(p[0]));
                assert forall|x: u64, b: u64|
                    found@.contains(x) && #[trigger] leads(views, *l, x, b) implies found@.contains(
                    b,
                ) by {
                    assert(found@.contains(b) || work@.contains(b));
                }
                lemma_closed_contains_path(views, *l, found@, p, p.len() - 1);
            }
        }
    }
    found
}

/// All entries but the last stay.
proof fn lemma_drop_last(w: Seq<u64>)
    requires
        w.len() > 0,
    ensures
        forall|x: u64| #[trigger]
            w.contains(x) ==> w.drop_last().contains(x) || x == w.last(),
{
    assert forall|x: u64| #[trigger] w.contains(x) implies w.drop_last().contains(x) || x
        == w.last() by {
        let j = choose|j: int| 0 <= j < w.len() && w[j] == x;
        if j < w.len() - 1 {
            assert(w.drop_last()[j] == x);
        }
    }
}

proof fn lemma_last_line(lines: Seq<LineView>, a: u64, k: int)
    requires
        0 <= k <= lines.len(),
    ensures
        match last_line(lines, a, k) {
            Some(i) => 0 <= i < k && lines[i].addr == a && forall|j: int|
                i < j < k ==> (#[trigger] lines[j]).addr != a,
            None => forall|j: int| 0 <= j < k ==> (#[trigger] lines[j]).addr != a,
        },
    decreases k,
{
    if k > 0 {
        lemma_last_line(lines, a, k - 1);
    }
}

proof fn lemma_line_in_all(lines: Seq<LineView>, b: u64, all: Set<u64>)
    requires
        line_at(lines, b) is Some,
        lines.map_values(|x: LineView| x.addr).to_set().subset_of(all),
    ensures
        all.contains(b),
{
    lemma_last_line(lines, b, lines.len() as int);
    let i = last_line(lines, b, lines.len() as int)->0;
    let addrs = lines.map_values(|x: LineView| x.addr);
    assert(addrs[i] == b);
    assert(addrs.to_set().contains(b));
}

// ── The sets ───────────────────────────────────────────────────────────────

/// Whether `a` is an entry of the linkage table `t`.
pub open spec fn is_plt_slot(t: (u64, u64), a: u64) -> bool {
    t.0 <= a < t.0 + t.1 && (a - t.0) % (PLT_STRIDE as int) == 0
}

/// Whether `a` is an entry of one of the first `k` linkage tables.
pub open spec fn in_plt(plt: Seq<(u64, u64)>, k: int, a: u64) -> bool {
    exists|j: int| 0 <= j < k && is_plt_slot(#[trigger] plt[j], a)
}

/// Whether no linkage table leaves the address space.
pub open spec fn plt_fits(plt: Seq<(u64, u64)>) -> bool {
    forall|j: int| 0 <= j < plt.len() ==> (#[trigger] plt[j]).0 + plt[j].1 <= u64::MAX
}

/// What is certain: the addresses of the line tables and of the functions.
pub open spec fn anchors(rows: Seq<LineRow>, entries: Seq<Entry>, l: ExecLayout) -> Set<u64> {
    Set::new(
        |a: u64|
            line_addresses(rows, l.ranges@, rows.len() as int, a) || entry_functions(
                entries,
                l.ranges@,
                entries.len() as int,
                a,
            ),
    )
}

/// The addresses of lines.
pub open spec fn line_addrs(lines: Seq<LineView>) -> Seq<u64> {
    lines.map_values(|x: LineView| x.addr)
}

/// The ground truth of one image.
#[derive(Debug)]
pub struct Computed {
    /// Addresses that are certainly instructions.
    pub insn_min: BTreeSet<u64>,
    /// Addresses that may be instructions.
    pub insn_max: BTreeSet<u64>,
    /// Addresses that are certainly functions.
    pub fn_min: BTreeSet<u64>,
    /// Addresses that may be functions.
    pub fn_max: BTreeSet<u64>,
    /// The disassembly, in the order of the sweep.
    pub lines: Vec<Line>,
    /// The numbers of the lines, in the order of their addresses.
    pub listing: Vec<usize>,
    /// How many addresses are certain but not even possible.
    pub leaks: usize,
}

impl Computed {
    /// The ground truth that follows from the disassembly and the debug
    /// information.
    pub open spec fn is_truth(
        self,
        l: ExecLayout,
        syms: Seq<SymbolView>,
        rows: Seq<LineRow>,
        entries: Seq<Entry>,
    ) -> bool {
        let lines = line_views(self.lines@);
        &&& forall|a: u64| #[trigger]
            self.insn_max@.contains(a) <==> line_at(lines, a) is Some
        &&& forall|a: u64| #[trigger]
            self.insn_min@.contains(a) <==> reached(lines, l, anchors(rows, entries, l), a)
        &&& forall|a: u64| #[trigger]
            self.fn_min@.contains(a) <==> entry_functions(
                entries,
                l.ranges@,
                entries.len() as int,
                a,
            )
        &&& forall|a: u64| #[trigger]
            self.fn_max@.contains(a) <==> self.fn_min@.contains(a) || symbol_functions(
                syms,
                l.ranges@,
                syms.len() as int,
                a,
            ) || in_plt(l.plt@, l.plt@.len() as int, a)
        &&& is_order(line_addrs(lines), self.listing@)
        &&& self.leaks == self.insn_min@.difference(self.insn_max@).len()
    }

    /// Whether everything certain is possible: only then may the truth be
    /// published.
    pub fn contained(&self) -> (r: bool)
        ensures
            r == (self.leaks == 0),
    {
        self.leaks == 0
    }
}

fn push_all(set: &mut BTreeSet<u64>, more: &Vec<u64>)
    ensures
        final(set)@ == old(set)@.union(more@.to_set()),
{
    let ghost before = set@;
    let mut k: usize = 0;
    proof {
        assert(set@ =~= before.union(more@.take(0).to_set()));
    }
    while k < more.len()
        invariant
            k <= more@.len(),
            set@ == before.union(more@.take(k as int).to_set()),
        decreases more@.len() - k,
    {
        set.insert(more[k]);
        proof {
            assert(more@.take(k + 1) =~= more@.take(k as int).push(more@[k as int]));
            assert forall|x: u64| set@.contains(x) <==> before.union(
                more@.take(k + 1).to_set(),
            ).contains(x) by {
                if more@.take(k as int).contains(x) {
                    let j = choose|j: int|
                        0 <= j < more@.take(k as int).len() && more@.take(k as int)[j] == x;
                    assert(more@.take(k + 1)[j] == x);
                }
                if x == more@[k as int] {
                    assert(more@.take(k + 1)[k as int] == x);
                }
            }
            assert(set@ =~= before.union(more@.take(k + 1).to_set()));
        }
        k += 1;
    }
    proof {
        assert(more@.take(k as int) =~= more@);
    }
}

fn push_plt(set: &mut BTreeSet<u64>, plt: &Vec<(u64, u64)>)
    requires
        plt_fits(plt@),
    ensures
        forall|a: u64| #[trigger]
            final(set)@.contains(a) <==> old(set)@.contains(a) || in_plt(
                plt@,
                plt@.len() as int,
                a,
            ),
{
    let ghost before = set@;
    let mut k: usize = 0;
    while k < plt.len()
        invariant
            k <= plt@.len(),
            plt_fits(plt@),
            forall|a: u64| #[trigger]
                set@.contains(a) <==> before.contains(a) || in_plt(plt@, k as int, a),
        decreases plt@.len() - k,
    {
        let (lo, size): (u64, u64) = plt[k];
        let ghost mid = set@;
        let mut off: u64 = 0;
        let mut more: bool = size > 0;
        proof {
            assert(plt@[k as int] == (lo, size));
        }
        while more
            invariant
                k < plt@.len(),
                plt@[k as int] == (lo, size),
                lo + size <= u64::MAX,
                off % PLT_STRIDE == 0,
                more ==> off < size,
                forall|a: u64| #[trigger]
                    set@.contains(a) <==> mid.contains(a) || (is_plt_slot(plt@[k as int], a) && (
                    a < lo + off || !more)),
            decreases
                    if more {
                        size - off
                    } else {
                        0
                    },
        {
            let ghost was = set@;
            set.insert(lo + off);
            let next: Option<u64> = off.checked_add(PLT_STRIDE);
            let ghost from = off;
            match next {
                Some(o) => {
                    off = o;
                    more = o < size;
                },
                None => {
                    more = false;
                },
            }
            proof {
                assert forall|a: u64| #[trigger]
                    set@.contains(a) <==> mid.contains(a) || (is_plt_slot(plt@[k as int], a) && (a
                        < lo + off || !more)) by {
                    assert(was.contains(a) <==> mid.contains(a) || (is_plt_slot(
                        plt@[k as int],
                        a,
                    ) && a < lo + from));
                }
            }
        }
        proof {
            assert forall|a: u64| #[trigger]
                set@.contains(a) <==> before.contains(a) || in_plt(plt@, k + 1, a) by {
                assert(mid.contains(a) <==> before.contains(a) || in_plt(plt@, k as int, a));
                if is_plt_slot(plt@[k as int], a) {
                    assert(in_plt(plt@, k + 1, a));
                }
            }
        }
        k += 1;
    }
}

fn count_outside(items: &Vec<u64>, set: &BTreeSet<u64>, Ghost(all): Ghost<Set<u64>>) -> (r: usize)
    requires
        is_listing(items@, all),
    ensures
        r == all.difference(set@).len(),
{
    let ghost out = set@.complement();
    let mut n: usize = 0;
    let mut k: usize = 0;
    proof {
        assert(items@.take(0).to_set().intersect(out) =~= Set::empty());
    }
    while k < items.len()
        invariant
            k <= items@.len(),
            is_listing(items@, all),
            n <= k,
            out == set@.complement(),
            n == items@.take(k as int).to_set().intersect(out).len(),
        decreases items@.len() - k,
    {
        let inside: bool = set.contains(&items[k]);
        proof {
            lemma_count_step(items@, out, k as int);
        }
        if !inside {
            n += 1;
        }
        k += 1;
    }
    proof {
        assert(items@.take(k as int) =~= items@);
        assert(all.intersect(out) =~= all.difference(set@));
    }
    n
}

/// The ground truth that follows from the disassembly and the debug
/// information.
pub fn truth_of_lines(
    lines: Vec<Line>,
    l: &ExecLayout,
    syms: &Vec<Symbol>,
    rows: &Vec<LineRow>,
    entries: &Vec<Entry>,
) -> (r: Computed)
    requires
        plt_fits(l.plt@),
    ensures
        r.lines == lines,
        r.is_truth(*l, symbol_views(syms@), rows@, entries@),
{
    let ghost views = line_views(lines@);
    let mut addrs: Vec<u64> = Vec::new();
    let mut k: usize = 0;
    while k < lines.len()
        invariant
            k <= lines@.len(),
            views == line_views(lines@),
            addrs@ == line_addrs(views).take(k as int),
        decreases lines@.len() - k,
    {
        addrs.push(lines[k].addr);
        proof {
            assert(views[k as int] == lines@[k as int]@);
            assert(line_addrs(views).take(k + 1) =~= line_addrs(views).take(k as int).push(
                lines@[k as int].addr,
            ));
        }
        k += 1;
    }
    proof {
        assert(addrs@ =~= line_addrs(views));
    }
    let listing: Vec<usize> = stable_order(&addrs);
    let mut insn_max: BTreeSet<u64> = BTreeSet::new();
    push_all(&mut insn_max, &addrs);
    proof {
        assert forall|a: u64| #[trigger] insn_max@.contains(a) <==> line_at(views, a) is Some by {
            lemma_last_line(views, a, views.len() as int);
            if insn_max@.contains(a) {
                let j = choose|j: int| 0 <= j < addrs@.len() && addrs@[j] == a;
                assert(views[j].addr == a);
            }
            if line_at(views, a) is Some {
                let j = last_line(views, a, views.len() as int)->0;
                assert(addrs@[j] == a);
            }
        }
    }
    let e_line: BTreeSet<u64> = line_anchors(rows, l);
    let fn_min: BTreeSet<u64> = function_entries(entries, l);
    let sym_funcs: BTreeSet<u64> = function_symbols(syms, l);
    let lines_listed: Vec<u64> = sorted_items(&e_line);
    let fn_listed: Vec<u64> = sorted_items(&fn_min);
    let sym_listed: Vec<u64> = sorted_items(&sym_funcs);
    let mut seeds: BTreeSet<u64> = BTreeSet::new();
    push_all(&mut seeds, &lines_listed);
    push_all(&mut seeds, &fn_listed);
    let seeds_listed: Vec<u64> = sorted_items(&seeds);
    let insn_min: BTreeSet<u64> = close_under_flow(&lines, l, &seeds_listed);
    let mut fn_max: BTreeSet<u64> = BTreeSet::new();
    push_all(&mut fn_max, &fn_listed);
    push_all(&mut fn_max, &sym_listed);
    push_plt(&mut fn_max, &l.plt);
    proof {
        assert(lines_listed@.to_set() =~= e_line@);
        assert(fn_listed@.to_set() =~= fn_min@);
        assert(sym_listed@.to_set() =~= sym_funcs@);
        assert(seeds_listed@.to_set() =~= seeds@);
        assert(seeds@ =~= anchors(rows@, entries@, *l)) by {
            assert forall|a: u64| seeds@.contains(a) <==> anchors(rows@, entries@, *l).contains(
                a,
            ) by {
                assert(e_line@.contains(a) <==> line_addresses(
                    rows@,
                    l.ranges@,
                    rows@.len() as int,
                    a,
                ));
                assert(fn_min@.contains(a) <==> entry_functions(
                    entries@,
                    l.ranges@,
                    entries@.len() as int,
                    a,
                ));
            }
        }
    }
    let min_listed: Vec<u64> = sorted_items(&insn_min);
    let leaks: usize = count_outside(&min_listed, &insn_max, Ghost(insn_min@));
    Computed { insn_min, insn_max, fn_min, fn_max, lines, listing, leaks }
}

/// Nothing certain lies outside what is possible exactly where no address leaks.
pub proof fn law_no_leak_is_containment(
    c: Computed,
    l: ExecLayout,
    syms: Seq<SymbolView>,
    rows: Seq<LineRow>,
    entries: Seq<Entry>,
)
    requires
        c.is_truth(l, syms, rows, entries),
        c.insn_min@.finite(),
    ensures
        c.leaks == 0 <==> c.insn_min@.subset_of(c.insn_max@),
{
    let d = c.insn_min@.difference(c.insn_max@);
    if d.len() == 0 {
        assert forall|a: u64| #[trigger] c.insn_min@.contains(a) implies c.insn_max@.contains(
            a,
        ) by {
            if !c.insn_max@.contains(a) {
                assert(d.contains(a));
            }
        }
    }
    if c.insn_min@.subset_of(c.insn_max@) {
        assert(d =~= Set::empty());
    }
}

/// Certain functions are possible functions.
pub proof fn law_functions_nest(
    c: Computed,
    l: ExecLayout,
    syms: Seq<SymbolView>,
    rows: Seq<LineRow>,
    entries: Seq<Entry>,
)
    requires
        c.is_truth(l, syms, rows, entries),
    ensures
        c.fn_min@.subset_of(c.fn_max@),
{
    assert forall|a: u64| #[trigger] c.fn_min@.contains(a) implies c.fn_max@.contains(a) by {}
}

/// The certain instructions are closed under control flow, and hold every
/// anchor.
pub proof fn law_certain_set_is_closed(
    c: Computed,
    l: ExecLayout,
    syms: Seq<SymbolView>,
    rows: Seq<LineRow>,
    entries: Seq<Entry>,
)
    requires
        c.is_truth(l, syms, rows, entries),
    ensures
        anchors(rows, entries, l).subset_of(c.insn_min@),
        forall|a: u64, b: u64|
            c.insn_min@.contains(a) && #[trigger] leads(line_views(c.lines@), l, a, b)
                ==> c.insn_min@.contains(b),
{
    let lines = line_views(c.lines@);
    let seeds = anchors(rows, entries, l);
    assert forall|a: u64| #[trigger] seeds.contains(a) implies c.insn_min@.contains(a) by {
        assert(flows_to(lines, l, seeds, a, seq![a]));
    }
    assert forall|a: u64, b: u64|
        c.insn_min@.contains(a) && #[trigger] leads(lines, l, a, b) implies c.insn_min@.contains(
        b,
    ) by {
        lemma_reach_step(lines, l, seeds, a, b);
    }
}

/// An address leaks only where it is an anchor: control flow never leads out of
/// what is possible.
pub proof fn law_only_anchors_leak(
    c: Computed,
    l: ExecLayout,
    syms: Seq<SymbolView>,
    rows: Seq<LineRow>,
    entries: Seq<Entry>,
    a: u64,
)
    requires
        c.is_truth(l, syms, rows, entries),
        c.insn_min@.contains(a),
        !c.insn_max@.contains(a),
    ensures
        anchors(rows, entries, l).contains(a),
{
    let lines = line_views(c.lines@);
    let seeds = anchors(rows, entries, l);
    let p = choose|p: Seq<u64>| #[trigger] flows_to(lines, l, seeds, a, p);
    if p.len() > 1 {
        let i = p.len() - 2;
        assert(leads(lines, l, p[i], p[i + 1]));
    }
}

// ── One image ──────────────────────────────────────────────────────────────

/// The instruction set of a machine, and the distance by which a sweep steps
/// over bytes that do not decode.
pub open spec fn machine_isa(machine: u16) -> Option<(Isa, int)> {
    if machine == EM_X86_64 {
        Some((Isa::X86_64, 1))
    } else if machine == EM_AARCH64 {
        Some((Isa::Aarch64, 4))
    } else if machine == EM_ARM {
        Some((Isa::Arm, 4))
    } else {
        None
    }
}

/// What is read of an image before any of it is decoded.
pub struct TruthInputs {
    /// Sections.
    pub sections: Seq<SectionView>,
    /// Symbols.
    pub syms: Seq<SymbolView>,
    /// Rows of the line tables.
    pub rows: Seq<LineRow>,
    /// Entries of the debug information.
    pub entries: Seq<Entry>,
    /// Instruction set.
    pub isa: Isa,
    /// Distance of a step over bytes that do not decode.
    pub step: int,
}

/// What is read of an image before any of it is decoded; or why it cannot be.
pub open spec fn truth_inputs(data: Seq<u8>) -> Result<TruthInputs, TruthError> {
    match (parsed_elf(data), parsed_symbols(data)) {
        (Some(image), Some(syms)) => if !sections_fit(image.sections) {
            Err(TruthError::SectionOverflow)
        } else if holds_lowest_advance(section_bytes(image.sections, data, ".debug_line"@, 0)) {
            Err(TruthError::BadDebugInfo)
        } else {
            match (line_rows(image, data), unit_entries(image, data)) {
                (Some(rows), Some(entries)) => match machine_isa(image.machine) {
                    Some((isa, step)) => Ok(
                        TruthInputs { sections: image.sections, syms, rows, entries, isa, step },
                    ),
                    None => Err(TruthError::Machine(image.machine)),
                },
                _ => Err(TruthError::BadDebugInfo),
            }
        },
        _ => Err(TruthError::Unreadable),
    }
}

/// The disassembly of an image; nothing where the decoder has no detail record of
/// one of its instructions.
pub open spec fn image_lines(data: Seq<u8>, i: TruthInputs) -> Option<Seq<LineView>> {
    let k = i.sections.len() as int;
    let ranges = exec_ranges(i.sections, k);
    let spans = code_spans(i.sections, data.len(), k);
    sweep_below(
        i.isa,
        data,
        spans,
        ranges,
        sorted_marks(marks_below(i.syms, ranges, i.syms.len() as int)),
        i.step,
        spans.len() as int,
    )
}

/// Whether `c` is the ground truth of an image whose executable part is laid out as
/// `l`.
pub open spec fn is_image_truth(
    c: Computed,
    data: Seq<u8>,
    i: TruthInputs,
    l: ExecLayout,
) -> bool {
    &&& l.of(i.sections, data.len(), i.sections.len() as int)
    &&& image_lines(data, i) == Some(line_views(c.lines@))
    &&& c.is_truth(l, i.syms, i.rows, i.entries)
}

/// Whether `c` is the ground truth of an image.
pub open spec fn has_truth(c: Computed, data: Seq<u8>, i: TruthInputs) -> bool {
    exists|l: ExecLayout| #[trigger] is_image_truth(c, data, i, l)
}

/// Opens a decoder for a machine, with the distance of a step over bytes that do
/// not decode; nothing for a machine that is not supported.
fn open_decoder(machine: u16) -> (r: Option<(Result<Decoder, capstone::Error>, usize)>)
    ensures
        match machine_isa(machine) {
            None => r is None,
            Some((isa, step)) => r matches Some(t) && t.1 == step && (t.0 matches Ok(d)
                ==> d.spec_isa() == isa),
        },
{
    if machine == EM_X86_64 {
        Some((open_x86_64(), 1))
    } else if machine == EM_AARCH64 {
        Some((open_aarch64(), 4))
    } else if machine == EM_ARM {
        Some((open_arm(), 4))
    } else {
        None
    }
}

proof fn lemma_spans_fit(secs: Seq<SectionView>, len: nat, k: int)
    requires
        0 <= k <= secs.len(),
        sections_fit(secs),
    ensures
        spans_fit(code_spans(secs, len, k), len),
        plt_fits(plt_spans(secs, k)),
    decreases k,
{
    if k > 0 {
        lemma_spans_fit(secs, len, k - 1);
        assert(is_exec(secs[k - 1]) ==> secs[k - 1].addr + secs[k - 1].size <= u64::MAX);
    }
}

/// The ground truth of an ELF image with what was read of it and the decoder that
/// `opened` holds. It fails where `opened` holds none, and where the decoder has no
/// detail record of an instruction.
pub fn truth_with(
    opened: Result<Decoder, capstone::Error>,
    data: &[u8],
    image: &ElfImage,
    syms: &Vec<Symbol>,
    rows: &Vec<LineRow>,
    entries: &Vec<Entry>,
    step: usize,
) -> (r: Result<Computed, TruthError>)
    requires
        sections_fit(image@.sections),
        0 < step <= 8,
    ensures
        match opened {
            Err(_) => r == Err::<Computed, TruthError>(TruthError::DecoderUnavailable),
            Ok(d) => {
                let i = TruthInputs {
                    sections: image@.sections,
                    syms: symbol_views(syms@),
                    rows: rows@,
                    entries: entries@,
                    isa: d.spec_isa(),
                    step: step as int,
                };
                match r {
                    Ok(c) => has_truth(c, data@, i),
                    Err(e) => e == TruthError::NoDetail && image_lines(data@, i) is None,
                }
            },
        },
{
    let decoder: Decoder = match opened {
        Ok(d) => d,
        Err(_) => {
            return Err(TruthError::DecoderUnavailable);
        },
    };
    let n: usize = data.len();
    let layout: ExecLayout = exec_layout(&image.sections, n);
    let marks: Vec<Mark> = mapping_marks(syms, &layout);
    let ghost i = TruthInputs {
        sections: image@.sections,
        syms: symbol_views(syms@),
        rows: rows@,
        entries: entries@,
        isa: decoder.spec_isa(),
        step: step as int,
    };
    proof {
        lemma_spans_fit(image@.sections, data@.len(), image@.sections.len() as int);
    }
    match sweep_file(&decoder, data, &layout, &marks, step) {
        None => Err(TruthError::NoDetail),
        Some(lines) => {
            let c: Computed = truth_of_lines(lines, &layout, syms, rows, entries);
            proof {
                assert(is_image_truth(c, data@, i, layout));
            }
            Ok(c)
        },
    }
}

/// The ground truth of an ELF image with debug information. Whether a decoder can
/// be opened is up to the machine.
pub fn compute(data: &[u8]) -> (r: Result<Computed, TruthError>)
    ensures
        match truth_inputs(data@) {
            Err(e) => r == Err::<Computed, TruthError>(e),
            Ok(i) => match r {
                Ok(c) => has_truth(c, data@, i),
                Err(e) => e == TruthError::DecoderUnavailable || (e == TruthError::NoDetail
                    && image_lines(data@, i) is None),
            },
        },
{
    let image: ElfImage = match read_elf(data) {
        Ok(i) => i,
        Err(_) => {
            return Err(TruthError::Unreadable);
        },
    };
    let syms: Vec<Symbol> = match read_symbols(data) {
        Ok(s) => s,
        Err(_) => {
            return Err(TruthError::Unreadable);
        },
    };
    if !check_sections(&image.sections) {
        return Err(TruthError::SectionOverflow);
    }
    if find_lowest_advance(debug_section(&image, data, ".debug_line")) {
        return Err(TruthError::BadDebugInfo);
    }
    let rows: Vec<LineRow> = match read_line_rows(&image, data) {
        Ok(v) => v,
        Err(_) => {
            return Err(TruthError::BadDebugInfo);
        },
    };
    let entries: Vec<Entry> = match read_entries(&image, data) {
        Ok(v) => v,
        Err(_) => {
            return Err(TruthError::BadDebugInfo);
        },
    };
    match open_decoder(image.machine) {
        None => Err(TruthError::Machine(image.machine)),
        Some((opened, step)) => truth_with(opened, data, &image, &syms, &rows, &entries, step),
    }
}

// ── Reports ────────────────────────────────────────────────────────────────

/// The line of the listing at number `k` of the disassembly: address, whether
/// it is certain, the text, and whether a function begins there.
pub open spec fn audit_text(c: Computed, k: int) -> Seq<char> {
    let x = c.lines@[k]@;
    let at = digits_of(x.addr as int, 16);
    spaces(10 - at.len()) + at + "  "@ + (if c.insn_min@.contains(x.addr) {
        "MIN"@
    } else {
        "NEU"@
    }) + "  "@ + (x.mnemonic + spaces(9 - x.mnemonic.len())) + "  "@ + x.op_str + (
    if c.fn_min@.contains(x.addr) {
        "  <FUNC>"@
    } else if c.fn_max@.contains(x.addr) {
        "  <crt/plt>"@
    } else {
        ""@
    })
}

impl Computed {
    /// One line of the listing.
    pub fn audit_line(&self, k: usize) -> (r: String)
        requires
            k < self.lines@.len(),
        ensures
            r@ == audit_text(*self, k as int),
    {
        let x: &Line = &self.lines[k];
        let at: Vec<char> = format_digits(x.addr, 16);
        let mnemonic: Vec<char> = chars_of(x.mnemonic.as_str());
        let mut out: Vec<char> = Vec::new();
        push_column(&mut out, &at, 10, true);
        push_text(&mut out, "  ");
        if self.insn_min.contains(&x.addr) {
            push_text(&mut out, "MIN");
        } else {
            push_text(&mut out, "NEU");
        }
        push_text(&mut out, "  ");
        push_column(&mut out, &mnemonic, 9, false);
        push_text(&mut out, "  ");
        push_text(&mut out, x.op_str.as_str());
        if self.fn_min.contains(&x.addr) {
            push_text(&mut out, "  <FUNC>");
        } else if self.fn_max.contains(&x.addr) {
            push_text(&mut out, "  <crt/plt>");
        } else {
            push_text(&mut out, "");
        }
        proof {
            assert(out@ =~= audit_text(*self, k as int));
        }
        string_of(&out)
    }

    /// How many more addresses are possible than certain.
    pub fn neutral(&self) -> (r: usize)
        ensures
            r == (if self.insn_max@.len() > self.insn_min@.len() {
                self.insn_max@.len() - self.insn_min@.len()
            } else {
                0
            }),
    {
        if self.insn_max.len() > self.insn_min.len() {
            self.insn_max.len() - self.insn_min.len()
        } else {
            0
        }
    }
}

/// Totals over a corpus.
#[derive(Debug, Clone, Copy, PartialEq, Eq, Structural)]
pub struct BatchTotals {
    /// Images whose truth was written.
    pub ok: u64,
    /// Images without truth.
    pub failed: u64,
    /// Images whose truth contradicts itself.
    pub violated: u64,
    /// Certain addresses of the written ones.
    pub sum_min: u64,
    /// Possible addresses of the written ones.
    pub sum_max: u64,
}

impl BatchTotals {
    /// No image yet.
    pub fn new() -> (r: BatchTotals)
        ensures
            r == (BatchTotals { ok: 0, failed: 0, violated: 0, sum_min: 0, sum_max: 0 }),
    {
        BatchTotals { ok: 0, failed: 0, violated: 0, sum_min: 0, sum_max: 0 }
    }

    /// Counts one image and says whether its truth is to be written: only where
    /// everything certain is possible.
    pub fn record(&mut self, outcome: &Result<Computed, TruthError>) -> (write: bool)
        requires
            old(self).ok < u64::MAX,
            old(self).failed < u64::MAX,
            old(self).violated < u64::MAX,
            outcome matches Ok(c) ==> old(self).sum_min + c.insn_min@.len() <= u64::MAX && old(
                self,
            ).sum_max + c.insn_max@.len() <= u64::MAX,
        ensures
            write == (outcome matches Ok(c) && c.leaks == 0),
            match outcome {
                Err(_) => *final(self) == (BatchTotals {
                    failed: (old(self).failed + 1) as u64,
                    ..*old(self)
                }),
                Ok(c) => if c.leaks == 0 {
                    *final(self) == (BatchTotals {
                        ok: (old(self).ok + 1) as u64,
                        sum_min: (old(self).sum_min + c.insn_min@.len()) as u64,
                        sum_max: (old(self).sum_max + c.insn_max@.len()) as u64,
                        ..*old(self)
                    })
                } else {
                    *final(self) == (BatchTotals {
                        violated: (old(self).violated + 1) as u64,
                        ..*old(self)
                    })
                },
            },
    {
        match outcome {
            Err(_) => {
                self.failed = self.failed + 1;
                false
            },
            Ok(c) => {
                if c.contained() {
                    self.ok = self.ok + 1;
                    self.sum_min = self.sum_min + c.insn_min.len() as u64;
                    self.sum_max = self.sum_max + c.insn_max.len() as u64;
                    true
                } else {
                    self.violated = self.violated + 1;
                    false
                }
            },
        }
    }
}

// ── What the truth says of the code ────────────────────────────────────────

proof fn lemma_in_group(groups: Seq<u8>, g: u8)
    ensures
        in_group(groups, g as u32) <==> groups.contains(g),
{
    if in_group(groups, g as u32) {
        let k = choose|k: int| 0 <= k < groups.len() && #[trigger] groups[k] == g as u32;
        assert(groups[k] == g);
    }
    if groups.contains(g) {
        let k = choose|k: int| 0 <= k < groups.len() && groups[k] == g;
        assert(groups[k] == g as u32);
    }
}

/// An instruction never goes on to the next one exactly where it returns (group 3), or
/// jumps (group 1) and is called `jmp`, `b` or `br`; a call (group 2) that is neither
/// goes on. Only jumps and calls have a target, which their operands name.
pub proof fn law_line_of_an_instruction(i: RunInsnView)
    ensures
        i.groups is None <==> line_of(i) is None,
        i.groups matches Some(g) ==> (line_of(i) matches Some(x) && {
            &&& x.addr == i.address
            &&& x.size == i.len
            &&& i.mnemonic matches Some(m) ==> x.mnemonic == m
            &&& i.mnemonic is None ==> x.mnemonic.len() == 0
            &&& i.op_str matches Some(o) ==> x.op_str == o
            &&& i.op_str is None ==> x.op_str.len() == 0
            &&& x.is_term <==> g.contains(3u8) || (g.contains(1u8) && (i.mnemonic == Some("jmp"@)
                || i.mnemonic == Some("b"@) || i.mnemonic == Some("br"@)))
            &&& g.contains(2u8) && !g.contains(1u8) && !g.contains(3u8) ==> !x.is_term
            &&& !g.contains(1u8) && !g.contains(2u8) ==> x.target is None
            &&& g.contains(1u8) || g.contains(2u8) ==> x.target == operand_target(x.op_str)
        }),
{
    if let Some(g) = i.groups {
        lemma_in_group(g, 1);
        lemma_in_group(g, 2);
        lemma_in_group(g, 3);
        assert("jmp"@.len() == 3 && "b"@.len() == 1 && "br"@.len() == 2) by {
            reveal_strlit("jmp");
            reveal_strlit("b");
            reveal_strlit("br");
        }
        let m = or_empty(i.mnemonic);
        assert(always_jumps(m) <==> i.mnemonic == Some("jmp"@) || i.mnemonic == Some("b"@)
            || i.mnemonic == Some("br"@));
        let x = line_of(i)->0;
        assert(x.is_term <==> g.contains(3u8) || (g.contains(1u8) && always_jumps(m)));
    }
}

proof fn lemma_line_at(lines: Seq<LineView>, a: u64)
    ensures
        match line_at(lines, a) {
            Some(x) => exists|k: int| 0 <= k < lines.len() && #[trigger] lines[k] == x && x.addr == a
                && forall|j: int| k < j < lines.len() ==> (#[trigger] lines[j]).addr != a,
            None => forall|j: int| 0 <= j < lines.len() ==> (#[trigger] lines[j]).addr != a,
        },
{
    lemma_last_line(lines, a, lines.len() as int);
}

proof fn lemma_line_at_is(lines: Seq<LineView>, k: int)
    requires
        0 <= k < lines.len(),
        forall|j: int| k < j < lines.len() ==> (#[trigger] lines[j]).addr != lines[k].addr,
    ensures
        line_at(lines, lines[k].addr) == Some(lines[k]),
{
    lemma_last_line(lines, lines[k].addr, lines.len() as int);
    let i = last_line(lines, lines[k].addr, lines.len() as int)->0;
    if i != k {
        assert(lines[k].addr == lines[k].addr);
        assert(lines[i].addr == lines[k].addr);
    }
}

/// Certain code runs on: what stands right behind a certain instruction is certain too
/// where anything decodes there, unless the instruction returns or always jumps. A call
/// comes back.
pub proof fn law_certain_code_runs_on(
    c: Computed,
    l: ExecLayout,
    syms: Seq<SymbolView>,
    rows: Seq<LineRow>,
    entries: Seq<Entry>,
    i: RunInsnView,
    g: Seq<u8>,
    k: int,
    b: u64,
)
    requires
        c.is_truth(l, syms, rows, entries),
        0 <= k < c.lines@.len(),
        i.groups == Some(g),
        line_of(i) == Some(c.lines@[k]@),
        forall|j: int| k < j < c.lines@.len() ==> (#[trigger] c.lines@[j]).addr != i.address,
        c.insn_min@.contains(i.address),
        !g.contains(3u8),
        !(g.contains(1u8) && (i.mnemonic == Some("jmp"@) || i.mnemonic == Some("b"@) || i.mnemonic
            == Some("br"@))),
        b == i.address + i.len,
        exists|j: int| 0 <= j < c.lines@.len() && (#[trigger] c.lines@[j]).addr == b,
    ensures
        c.insn_min@.contains(b),
{
    law_line_of_an_instruction(i);
    lemma_certain_step(c, l, syms, rows, entries, k, b);
}

/// The target of a certain jump or call is certain where it lies in `.text` and
/// anything decodes there.
pub proof fn law_certain_code_goes_to_its_targets(
    c: Computed,
    l: ExecLayout,
    syms: Seq<SymbolView>,
    rows: Seq<LineRow>,
    entries: Seq<Entry>,
    i: RunInsnView,
    g: Seq<u8>,
    k: int,
    b: u64,
)
    requires
        c.is_truth(l, syms, rows, entries),
        0 <= k < c.lines@.len(),
        i.groups == Some(g),
        line_of(i) == Some(c.lines@[k]@),
        forall|j: int| k < j < c.lines@.len() ==> (#[trigger] c.lines@[j]).addr != i.address,
        c.insn_min@.contains(i.address),
        g.contains(1u8) || g.contains(2u8),
        i.op_str matches Some(o) && operand_target(o) == Some(b),
        match l.text {
            Some((lo, hi)) => lo <= b < hi,
            None => exists|j: int|
                0 <= j < l.ranges@.len() && (#[trigger] l.ranges@[j]).0 <= b < l.ranges@[j].1,
        },
        exists|j: int| 0 <= j < c.lines@.len() && (#[trigger] c.lines@[j]).addr == b,
    ensures
        c.insn_min@.contains(b),
{
    law_line_of_an_instruction(i);
    lemma_certain_step(c, l, syms, rows, entries, k, b);
}

proof fn lemma_certain_step(
    c: Computed,
    l: ExecLayout,
    syms: Seq<SymbolView>,
    rows: Seq<LineRow>,
    entries: Seq<Entry>,
    k: int,
    b: u64,
)
    requires
        c.is_truth(l, syms, rows, entries),
        0 <= k < c.lines@.len(),
        forall|j: int| k < j < c.lines@.len() ==> (#[trigger] c.lines@[j]).addr != c.lines@[k].addr,
        c.insn_min@.contains(c.lines@[k].addr),
        (!c.lines@[k].is_term && c.lines@[k].addr + c.lines@[k].size == b) || (c.lines@[k].target
            == Some(b) && in_text(l, b)),
        exists|j: int| 0 <= j < c.lines@.len() && (#[trigger] c.lines@[j]).addr == b,
    ensures
        c.insn_min@.contains(b),
{
    let lines = line_views(c.lines@);
    assert forall|j: int| 0 <= j < lines.len() implies (#[trigger] lines[j]) == c.lines@[j]@ by {}
    lemma_line_at_is(lines, k);
    lemma_line_at(lines, b);
    let j = choose|j: int| 0 <= j < c.lines@.len() && (#[trigger] c.lines@[j]).addr == b;
    assert(lines[j].addr == b);
    let a = c.lines@[k].addr;
    assert(leads(lines, l, a, b));
    assert(c.insn_min@.contains(a));
    lemma_reach_step(lines, l, anchors(rows, entries, l), a, b);
}

/// Whatever is certain is named by a row of the line tables or by a function of the
/// debug information, or follows from something certain: it stands right behind it, or
/// is its target in `.text`. What so is named in code is certain.
pub proof fn law_certain_code_has_a_reason(
    c: Computed,
    l: ExecLayout,
    syms: Seq<SymbolView>,
    rows: Seq<LineRow>,
    entries: Seq<Entry>,
    a: u64,
)
    requires
        c.is_truth(l, syms, rows, entries),
    ensures
        ({
            let in_code = exists|j: int|
                0 <= j < l.ranges@.len() && (#[trigger] l.ranges@[j]).0 <= a < l.ranges@[j].1;
            let named = in_code && {
                ||| exists|j: int|
                    0 <= j < rows.len() && (#[trigger] rows[j]).address == a && !rows[j].end_sequence
                ||| exists|j: int|
                    0 <= j < entries.len() && (#[trigger] entries[j]).tag == 0x2e
                        && entries[j].low_pc == Some(a)
            };
            let in_text = match l.text {
                Some((lo, hi)) => lo <= a < hi,
                None => in_code,
            };
            let follows = exists|k: int|
                0 <= k < c.lines@.len() && c.insn_min@.contains((#[trigger] c.lines@[k]).addr) && {
                    ||| !c.lines@[k].is_term && c.lines@[k].addr + c.lines@[k].size == a
                    ||| c.lines@[k].target == Some(a) && in_text
                };
            let decodes = exists|k: int|
                0 <= k < c.lines@.len() && (#[trigger] c.lines@[k]).addr == a;
            &&& named ==> c.insn_min@.contains(a)
            &&& c.insn_min@.contains(a) ==> named || (follows && decodes)
            &&& c.insn_max@.contains(a) <==> decodes
        }),
{
    let lines = line_views(c.lines@);
    let seeds = anchors(rows, entries, l);
    assert forall|j: int| 0 <= j < lines.len() implies (#[trigger] lines[j]) == c.lines@[j]@ by {}
    if seeds.contains(a) {
        assert(is_flow(lines, l, seq![a]));
        assert(flows_to(lines, l, seeds, a, seq![a]));
    }
    if exists|j: int|
        0 <= j < rows.len() && (#[trigger] rows[j]).address == a && !rows[j].end_sequence {
        let j = choose|j: int|
            0 <= j < rows.len() && (#[trigger] rows[j]).address == a && !rows[j].end_sequence;
        assert(!rows[j].end_sequence && rows[j].address == a);
    }
    lemma_line_at(lines, a);
    if line_at(lines, a) is Some {
        let k = choose|k: int|
            0 <= k < lines.len() && #[trigger] lines[k] == line_at(lines, a)->0 && lines[k].addr
                == a;
        assert(c.lines@[k].addr == a);
    }
    if exists|k: int| 0 <= k < c.lines@.len() && (#[trigger] c.lines@[k]).addr == a {
        let k = choose|k: int| 0 <= k < c.lines@.len() && (#[trigger] c.lines@[k]).addr == a;
        assert(lines[k].addr == a);
    }
    if c.insn_min@.contains(a) && !seeds.contains(a) {
        let p = choose|p: Seq<u64>| #[trigger] flows_to(lines, l, seeds, a, p);
        assert(p.len() > 1);
        let x = p.len() - 2;
        let from = p[x];
        assert(leads(lines, l, p[x], p[x + 1]));
        let q = p.drop_last();
        assert(is_flow(lines, l, q)) by {
            assert forall|y: int| 0 <= y < q.len() - 1 implies leads(
                lines,
                l,
                #[trigger] q[y],
                q[y + 1],
            ) by {
                assert(q[y] == p[y] && q[y + 1] == p[y + 1]);
            }
        }
        assert(flows_to(lines, l, seeds, from, q));
        assert(reached(lines, l, seeds, from));
        assert(c.insn_min@.contains(from));
        lemma_line_at(lines, from);
        let k = choose|k: int|
            0 <= k < lines.len() && #[trigger] lines[k] == line_at(lines, from)->0
                && lines[k].addr == from;
        assert(c.lines@[k].addr == from);
    }
}

/// A function is certain where the debug information has one (tag 0x2e) that begins
/// there in code; it is possible also where a function symbol (type 2) names it, not at
/// zero and in code, and at every sixteenth byte of a linkage table.
pub proof fn law_functions_of_an_image(
    c: Computed,
    l: ExecLayout,
    syms: Seq<SymbolView>,
    rows: Seq<LineRow>,
    entries: Seq<Entry>,
    a: u64,
)
    requires
        c.is_truth(l, syms, rows, entries),
    ensures
        ({
            let in_code = exists|j: int|
                0 <= j < l.ranges@.len() && (#[trigger] l.ranges@[j]).0 <= a < l.ranges@[j].1;
            let described = in_code && exists|j: int|
                0 <= j < entries.len() && (#[trigger] entries[j]).tag == 0x2e && entries[j].low_pc
                    == Some(a);
            let named = in_code && a != 0 && exists|j: int|
                0 <= j < syms.len() && (#[trigger] syms[j]).kind == 2 && syms[j].value == a;
            let linked = exists|j: int, n: int|
                0 <= j < l.plt@.len() && 0 <= n && (#[trigger] l.plt@[j]).0 + #[trigger] (n * 16)
                    == a && n * 16 < l.plt@[j].1;
            &&& c.fn_min@.contains(a) <==> described
            &&& c.fn_max@.contains(a) <==> described || named || linked
        }),
{
    if in_plt(l.plt@, l.plt@.len() as int, a) {
        let j = choose|j: int| 0 <= j < l.plt@.len() && is_plt_slot(#[trigger] l.plt@[j], a);
        let n = (a - l.plt@[j].0) / 16;
        assert(l.plt@[j].0 + n * 16 == a);
    }
    if exists|j: int, n: int|
        0 <= j < l.plt@.len() && 0 <= n && (#[trigger] l.plt@[j]).0 + #[trigger] (n * 16) == a && n
            * 16 < l.plt@[j].1 {
        let (j, n): (int, int) = choose|j: int, n: int|
            0 <= j < l.plt@.len() && 0 <= n && (#[trigger] l.plt@[j]).0 + #[trigger] (n * 16) == a
                && n * 16 < l.plt@[j].1;
        assert((n * 16) % 16 == 0);
        assert(is_plt_slot(l.plt@[j], a));
    }
    if exists|j: int| 0 <= j < syms.len() && (#[trigger] syms[j]).kind == 2 && syms[j].value == a {
        let j = choose|j: int|
            0 <= j < syms.len() && (#[trigger] syms[j]).kind == 2 && syms[j].value == a;
        assert(syms[j].kind == STT_FUNC);
    }
}

// ── What operands name ─────────────────────────────────────────────────────

proof fn lemma_spaced(s: Seq<char>)
    requires
        !s.contains(','),
    ensures
        spaced(s) == s,
{
    assert forall|k: int| 0 <= k < s.len() implies spaced(s)[k] == s[k] by {
        assert(s.contains(s[k]));
    }
    assert(spaced(s) =~= s);
}

/// A direct target is written as `0x` and hexadecimal digits, alone, behind a number
/// sign, or as the second operand behind a register; another operand names no target,
/// nor does anything with an operand in memory.
pub proof fn law_direct_targets_are_read(r: Seq<char>, h: Seq<char>, a: Seq<char>, b: Seq<char>)
    requires
        h.len() > 0,
        all_digits(h, 16),
        digits_value(h, 16) <= u64::MAX,
        r.len() > 0,
        r[0] != '#' && r[0] != '0',
        forall|k: int|
            0 <= k < r.len() ==> !is_space(#[trigger] r[k]) && r[k] != ',' && r[k] != '[',
    ensures
        ({
            let v = digits_value(h, 16);
            &&& operand_target(seq!['0', 'x'] + h) matches Some(t) && t == v
            &&& operand_target(seq!['#', '0', 'x'] + h) matches Some(t) && t == v
            &&& operand_target(r + seq![',', ' ', '#', '0', 'x'] + h) matches Some(t) && t == v
            &&& operand_target(r + seq![',', ' ', '0', 'x'] + h) matches Some(t) && t == v
            &&& operand_target(r) is None
            &&& operand_target(a + seq!['['] + b) is None
        }),
{
    let x = seq!['0', 'x'] + h;
    let y = seq!['#', '0', 'x'] + h;
    let v = digits_value(h, 16);
    assert forall|k: int| 0 <= k < h.len() implies {
        &&& !is_space(#[trigger] h[k])
        &&& h[k] != ','
        &&& h[k] != '['
        &&& h[k] != '+'
    } by {
        assert(digit(h[k], 16) is Some);
    }
    assert forall|k: int| 0 <= k < x.len() implies !is_space(#[trigger] x[k]) && x[k] != ','
        && x[k] != '[' by {
        if k >= 2 {
            assert(x[k] == h[k - 2]);
        }
    }
    assert forall|k: int| 0 <= k < y.len() implies !is_space(#[trigger] y[k]) && y[k] != ','
        && y[k] != '[' by {
        if k >= 3 {
            assert(y[k] == h[k - 3]);
        }
    }
    assert(x.skip(2) =~= h);
    assert(y.drop_first() =~= x);
    assert(without_hash(x) == x);
    assert(without_hash(y) == without_hash(y.drop_first()));
    assert(numeral(h, 16) == Some(v as u64)) by {
        assert(h[0] != '+');
        lemma_value_is_natural(h);
    }
    lemma_value_is_natural(h);
    law_words_lie_between_spaces(x, ' ', x);
    law_words_lie_between_spaces(y, ' ', y);
    law_words_lie_between_spaces(r, ' ', x);
    lemma_spaced(x);
    lemma_spaced(y);
    lemma_spaced(r);
    reveal_with_fuel(first_hex_operand, 4);
    assert(without_hash(r) == r);
    assert(!is_hex_operand(r));
    lemma_second_operand(r, x);
    lemma_second_operand(r, y);
    assert(r + seq![',', ' '] + x =~= r + seq![',', ' ', '0', 'x'] + h);
    assert(r + seq![',', ' '] + y =~= r + seq![',', ' ', '#', '0', 'x'] + h);
    assert((a + seq!['['] + b)[a.len() as int] == '[');
    assert(seq![x][0] == x && seq![y][0] == y && seq![r][0] == r);
    assert(seq![r, x][0] == r && seq![r, x][1] == x);
    assert(seq![r, y][0] == r && seq![r, y][1] == y);
}

proof fn lemma_value_is_natural(h: Seq<char>)
    requires
        all_digits(h, 16),
    ensures
        digits_value(h, 16) >= 0,
    decreases h.len(),
{
    if h.len() > 0 {
        assert(digit(h[h.len() - 1], 16) is Some);
        assert(all_digits(h.drop_last(), 16)) by {
            assert forall|k: int| 0 <= k < h.drop_last().len() implies digit(
                #[trigger] h.drop_last()[k],
                16,
            ) is Some by {
                assert(h.drop_last()[k] == h[k]);
            }
        }
        lemma_value_is_natural(h.drop_last());
    }
}

proof fn lemma_second_operand(r: Seq<char>, x: Seq<char>)
    requires
        r.len() > 0,
        x.len() > 0,
        forall|k: int|
            0 <= k < r.len() ==> !is_space(#[trigger] r[k]) && r[k] != ',' && r[k] != '[',
        forall|k: int|
            0 <= k < x.len() ==> !is_space(#[trigger] x[k]) && x[k] != ',' && x[k] != '[',
    ensures
        words(spaced(r + seq![',', ' '] + x)) == seq![r, x],
        !(r + seq![',', ' '] + x).contains('['),
{
    let t = r + seq![',', ' '] + x;
    let n = r.len() as int;
    assert forall|k: int| 0 <= k < t.len() implies #[trigger] t[k] != '[' by {
        if k < n {
            assert(t[k] == r[k]);
        } else if k >= n + 2 {
            assert(t[k] == x[k - n - 2]);
        }
    }
    assert(spaced(t) =~= r + seq![' '] + (Seq::<char>::empty() + seq![' '] + x)) by {
        assert forall|k: int| 0 <= k < t.len() implies spaced(t)[k] == (r + seq![' '] + (
        Seq::<char>::empty() + seq![' '] + x))[k] by {
            if k < n {
                assert(t[k] == r[k]);
            } else if k >= n + 2 {
                assert(t[k] == x[k - n - 2]);
            }
        }
    }
    law_words_lie_between_spaces(r, ' ', Seq::<char>::empty() + seq![' '] + x);
    law_words_lie_between_spaces(Seq::<char>::empty(), ' ', x);
    law_words_lie_between_spaces(x, ' ', x);
    assert(words(spaced(t)) =~= seq![r, x]);
}

// ── Where code lies ────────────────────────────────────────────────────────

proof fn lemma_exec_ranges(secs: Seq<SectionView>, k: int, r: (u64, u64))
    requires
        0 <= k <= secs.len(),
    ensures
        exec_ranges(secs, k).contains(r) <==> exists|j: int|
            0 <= j < k && is_exec(#[trigger] secs[j]) && r == (
                secs[j].addr,
                (secs[j].addr + secs[j].size) as u64,
            ),
    decreases k,
{
    if k > 0 {
        lemma_exec_ranges(secs, k - 1, r);
        let before = exec_ranges(secs, k - 1);
        let x = (secs[k - 1].addr, (secs[k - 1].addr + secs[k - 1].size) as u64);
        if is_exec(secs[k - 1]) {
            vstd::seq_lib::lemma_seq_contains_after_push(before, x, r);
        }
    }
}

proof fn lemma_plt_spans(secs: Seq<SectionView>, k: int, r: (u64, u64))
    requires
        0 <= k <= secs.len(),
    ensures
        plt_spans(secs, k).contains(r) <==> exists|j: int|
            0 <= j < k && is_exec(#[trigger] secs[j]) && is_plt_name(secs[j].name) && r == (
                secs[j].addr,
                secs[j].size,
            ),
    decreases k,
{
    if k > 0 {
        lemma_plt_spans(secs, k - 1, r);
        let before = plt_spans(secs, k - 1);
        let x = (secs[k - 1].addr, secs[k - 1].size);
        if is_exec(secs[k - 1]) && is_plt_name(secs[k - 1].name) {
            vstd::seq_lib::lemma_seq_contains_after_push(before, x, r);
        }
    }
}

proof fn lemma_code_spans(secs: Seq<SectionView>, len: nat, k: int, r: FileSpan)
    requires
        0 <= k <= secs.len(),
    ensures
        code_spans(secs, len, k).contains(r) <==> exists|j: int|
            0 <= j < k && is_exec(#[trigger] secs[j]) && (file_range(secs[j]) matches Some(f) && f.1
                <= len && r == (FileSpan { addr: secs[j].addr, lo: f.0, hi: f.1 })),
    decreases k,
{
    if k > 0 {
        lemma_code_spans(secs, len, k - 1, r);
        let before = code_spans(secs, len, k - 1);
        if let Some(f) = file_range(secs[k - 1]) {
            if is_exec(secs[k - 1]) && f.1 <= len {
                let x = FileSpan { addr: secs[k - 1].addr, lo: f.0, hi: f.1 };
                vstd::seq_lib::lemma_seq_contains_after_push(before, x, r);
            }
        }
    }
}

proof fn lemma_text_span(secs: Seq<SectionView>, k: int)
    requires
        0 <= k <= secs.len(),
    ensures
        match text_span(secs, k) {
            Some(t) => exists|j: int|
                0 <= j < k && is_exec(#[trigger] secs[j]) && secs[j].name == Some(".text"@) && t == (
                    secs[j].addr,
                    (secs[j].addr + secs[j].size) as u64,
                ) && forall|i: int|
                    j < i < k && is_exec(#[trigger] secs[i]) ==> secs[i].name != Some(".text"@),
            None => forall|i: int|
                0 <= i < k && is_exec(#[trigger] secs[i]) ==> secs[i].name != Some(".text"@),
        },
    decreases k,
{
    if k > 0 {
        lemma_text_span(secs, k - 1);
        if is_exec(secs[k - 1]) && secs[k - 1].name == Some(".text"@) {
            assert(text_span(secs, k) == Some(
                (secs[k - 1].addr, (secs[k - 1].addr + secs[k - 1].size) as u64),
            ));
        } else if text_span(secs, k - 1) is Some {
            let t = text_span(secs, k - 1)->0;
            let j = choose|j: int|
                0 <= j < k - 1 && is_exec(#[trigger] secs[j]) && secs[j].name == Some(".text"@) && t
                    == (secs[j].addr, (secs[j].addr + secs[j].size) as u64) && forall|i: int|
                    j < i < k - 1 && is_exec(#[trigger] secs[i]) ==> secs[i].name != Some(
                        ".text"@,
                    );
            assert(is_exec(secs[j]));
        }
    }
}

/// Code lies in the sections whose flags hold bit 2, as far as these go; it is read from
/// those that take bytes of the file (type 8 takes none) and end in it. Linkage tables
/// are those of them called `.plt`, `.plt.sec` or `.plt.got`, and the text is the last
/// one called `.text`.
pub proof fn law_layout_of_sections(
    l: ExecLayout,
    secs: Seq<SectionView>,
    len: nat,
    a: u64,
    g: FileSpan,
    t: (u64, u64),
)
    requires
        l.of(secs, len, secs.len() as int),
        sections_fit(secs),
    ensures
        (exists|j: int| 0 <= j < l.ranges@.len() && (#[trigger] l.ranges@[j]).0 <= a < l.ranges@[j].1)
            <==> exists|j: int|
            0 <= j < secs.len() && (#[trigger] secs[j]).flags & 4u64 != 0 && secs[j].addr <= a
                < secs[j].addr + secs[j].size,
        l.code@.contains(g) <==> exists|j: int|
            0 <= j < secs.len() && (#[trigger] secs[j]).flags & 4u64 != 0 && secs[j].kind != 8
                && g.addr == secs[j].addr && g.lo == secs[j].offset && g.hi == (if secs[j].offset
                + secs[j].size > u64::MAX {
                u64::MAX as int
            } else {
                secs[j].offset + secs[j].size
            }) && g.hi <= len,
        l.plt@.contains(t) <==> exists|j: int|
            0 <= j < secs.len() && (#[trigger] secs[j]).flags & 4u64 != 0 && t.0 == secs[j].addr
                && t.1 == secs[j].size && (secs[j].name == Some(".plt"@) || secs[j].name == Some(
                ".plt.sec"@,
            ) || secs[j].name == Some(".plt.got"@)),
        l.text is None <==> forall|j: int|
            0 <= j < secs.len() && (#[trigger] secs[j]).flags & 4u64 != 0 ==> secs[j].name != Some(
                ".text"@,
            ),
        l.text matches Some(x) ==> exists|j: int|
            0 <= j < secs.len() && (#[trigger] secs[j]).flags & 4u64 != 0 && secs[j].name == Some(
                ".text"@,
            ) && x.0 == secs[j].addr && x.1 == secs[j].addr + secs[j].size && forall|i: int|
                j < i < secs.len() && (#[trigger] secs[i]).flags & 4u64 != 0 ==> secs[i].name
                    != Some(".text"@),
{
    let n = secs.len() as int;
    if exists|j: int|
        0 <= j < l.ranges@.len() && (#[trigger] l.ranges@[j]).0 <= a < l.ranges@[j].1 {
        let j = choose|j: int|
            0 <= j < l.ranges@.len() && (#[trigger] l.ranges@[j]).0 <= a < l.ranges@[j].1;
        lemma_exec_ranges(secs, n, l.ranges@[j]);
        assert(l.ranges@.contains(l.ranges@[j]));
        let i = choose|i: int|
            0 <= i < n && is_exec(#[trigger] secs[i]) && l.ranges@[j] == (
                secs[i].addr,
                (secs[i].addr + secs[i].size) as u64,
            );
        assert(secs[i].flags & 4u64 != 0);
    }
    if exists|j: int|
        0 <= j < secs.len() && (#[trigger] secs[j]).flags & 4u64 != 0 && secs[j].addr <= a
            < secs[j].addr + secs[j].size {
        let j = choose|j: int|
            0 <= j < secs.len() && (#[trigger] secs[j]).flags & 4u64 != 0 && secs[j].addr <= a
                < secs[j].addr + secs[j].size;
        let r = (secs[j].addr, (secs[j].addr + secs[j].size) as u64);
        assert(is_exec(secs[j]));
        lemma_exec_ranges(secs, n, r);
        let i = choose|i: int| 0 <= i < l.ranges@.len() && l.ranges@[i] == r;
        assert(l.ranges@[i].0 <= a < l.ranges@[i].1);
    }
    lemma_code_spans(secs, len, n, g);
    lemma_plt_spans(secs, n, t);
    lemma_text_span(secs, n);
    if l.code@.contains(g) {
        let j = choose|j: int|
            0 <= j < n && is_exec(#[trigger] secs[j]) && (file_range(secs[j]) matches Some(f) && f.1
                <= len && g == (FileSpan { addr: secs[j].addr, lo: f.0, hi: f.1 }));
        assert(secs[j].flags & 4u64 != 0);
    }
    if l.text is None {
        assert forall|j: int| 0 <= j < n && (#[trigger] secs[j]).flags & 4u64 != 0 implies
            secs[j].name != Some(".text"@) by {
            assert(is_exec(secs[j]));
        }
    } else {
        let x = l.text->0;
        let j = choose|j: int|
            0 <= j < n && is_exec(#[trigger] secs[j]) && secs[j].name == Some(".text"@) && x == (
                secs[j].addr,
                (secs[j].addr + secs[j].size) as u64,
            ) && forall|i: int|
                j < i < n && is_exec(#[trigger] secs[i]) ==> secs[i].name != Some(".text"@);
        assert(secs[j].flags & 4u64 != 0);
        assert forall|i: int| j < i < n && (#[trigger] secs[i]).flags & 4u64 != 0 implies
            secs[i].name != Some(".text"@) by {
            assert(is_exec(secs[i]));
        }
    }
}

// ── Where data lies ────────────────────────────────────────────────────────

/// `$d` marks data, `$x`, `$a` and `$t` mark code, each alone or followed by a full stop
/// and anything; no other name marks anything.
pub proof fn law_mapping_symbols(name: Seq<char>)
    ensures
        ({
            let marks = name.len() >= 2 && name[0] == '$' && (name.len() == 2 || name[2] == '.');
            &&& mapping_mark(name) == Some(true) <==> marks && name[1] == 'd'
            &&& mapping_mark(name) == Some(false) <==> marks && (name[1] == 'x' || name[1] == 'a'
                || name[1] == 't')
        }),
{
    reveal_strlit("$d");
    reveal_strlit("$x");
    reveal_strlit("$a");
    reveal_strlit("$t");
    reveal_strlit("$d.");
    reveal_strlit("$x.");
    reveal_strlit("$a.");
    reveal_strlit("$t.");
    if name.len() == 2 && name[0] == '$' {
        assert(name[1] == 'd' ==> name =~= "$d"@);
        assert(name[1] == 'x' ==> name =~= "$x"@);
        assert(name[1] == 'a' ==> name =~= "$a"@);
        assert(name[1] == 't' ==> name =~= "$t"@);
    }
    if name.len() > 2 {
        let t = name.take(3);
        assert(t[0] == name[0] && t[1] == name[1] && t[2] == name[2]);
        if name[0] == '$' && name[2] == '.' {
            assert(name[1] == 'd' ==> t =~= "$d."@);
            assert(name[1] == 'x' ==> t =~= "$x."@);
            assert(name[1] == 'a' ==> t =~= "$a."@);
            assert(name[1] == 't' ==> t =~= "$t."@);
        }
    }
}

proof fn lemma_marks_below(syms: Seq<SymbolView>, ranges: Seq<(u64, u64)>, k: int, mk: Mark)
    requires
        0 <= k <= syms.len(),
    ensures
        marks_below(syms, ranges, k).len() <= k,
        marks_below(syms, ranges, k).contains(mk) <==> in_ranges(ranges, mk.addr) && exists|j: int|
            0 <= j < k && (#[trigger] syms[j]).value == mk.addr && (syms[j].name matches Some(n)
                && mapping_mark(n) == Some(mk.is_data)),
    decreases k,
{
    if k > 0 {
        lemma_marks_below(syms, ranges, k - 1, mk);
        let before = marks_below(syms, ranges, k - 1);
        if let Some(n) = syms[k - 1].name {
            if let Some(is_data) = mapping_mark(n) {
                if in_ranges(ranges, syms[k - 1].value) {
                    vstd::seq_lib::lemma_seq_contains_after_push(
                        before,
                        Mark { addr: syms[k - 1].value, is_data },
                        mk,
                    );
                }
            }
        }
    }
}

/// The marks are those that the mapping symbols in code make, by address.
pub proof fn law_marks_are_those_of_the_symbols(
    syms: Seq<SymbolView>,
    ranges: Seq<(u64, u64)>,
    mk: Mark,
)
    requires
        syms.len() <= usize::MAX,
    ensures
        ({
            let m = sorted_marks(marks_below(syms, ranges, syms.len() as int));
            &&& m.contains(mk) <==> (exists|j: int|
                0 <= j < ranges.len() && (#[trigger] ranges[j]).0 <= mk.addr < ranges[j].1)
                && exists|j: int|
                0 <= j < syms.len() && (#[trigger] syms[j]).value == mk.addr && (
                syms[j].name matches Some(n) && mapping_mark(n) == Some(mk.is_data))
            &&& forall|i: int, j: int| 0 <= i <= j < m.len() ==> m[i].addr <= m[j].addr
        }),
{
    let raw = marks_below(syms, ranges, syms.len() as int);
    let m = sorted_marks(raw);
    lemma_marks_below(syms, ranges, syms.len() as int, mk);
    law_keys_can_be_ordered(mark_addrs(raw));
    let o = choose|o: Seq<usize>| is_order(mark_addrs(raw), o);
    lemma_sorted_marks(raw, o);
    if m.contains(mk) {
        let j = choose|j: int| 0 <= j < m.len() && m[j] == mk;
        assert(m[j] == raw[o[j] as int]);
    }
    if raw.contains(mk) {
        let j = choose|j: int| 0 <= j < raw.len() && raw[j] == mk;
        assert(o.contains(j as usize));
        let i = choose|i: int| 0 <= i < o.len() && o[i] == j as usize;
        assert(m[i] == mk);
    }
}

/// An address lies in data exactly where the last mark at or before it says so, and the
/// data lasts to the next mark, or to the end of the address space.
pub proof fn law_data_lasts_to_the_next_mark(m: Seq<Mark>, a: u64, k: int)
    requires
        forall|i: int, j: int| 0 <= i <= j < m.len() ==> m[i].addr <= m[j].addr,
    ensures
        m.len() == 0 || a < m[0].addr ==> data_end(m, a) is None,
        0 <= k < m.len() && m[k].addr <= a && (k == m.len() - 1 || a < m[k + 1].addr) ==> {
            &&& !m[k].is_data ==> data_end(m, a) is None
            &&& m[k].is_data && k < m.len() - 1 ==> data_end(m, a) == Some(m[k + 1].addr)
            &&& m[k].is_data && k == m.len() - 1 ==> data_end(m, a) == Some(
                0xffff_ffff_ffff_ffffu64,
            )
        },
{
    if m.len() == 0 || a < m[0].addr {
        lemma_first_behind(m, a, 0, 0);
    } else if 0 <= k < m.len() && m[k].addr <= a && (k == m.len() - 1 || a < m[k + 1].addr) {
        lemma_first_behind(m, a, 0, k + 1);
    }
}

// ── What a sweep finds ─────────────────────────────────────────────────────

/// Whether code may lie at `a`, and no mark says that data does.
spec fn may_hold_code(c: SweepView, a: u64) -> bool {
    &&& exists|j: int| 0 <= j < c.ranges.len() && (#[trigger] c.ranges[j]).0 <= a < c.ranges[j].1
    &&& data_end(c.marks, a) is None
}

/// Whether `x` is the line of an instruction of the run at offset `w` that counts.
spec fn is_found_at(c: SweepView, w: int, j: int, x: LineView) -> bool {
    &&& 0 <= j < c.run_at(w).len()
    &&& line_of(c.run_at(w)[j]) == Some(x)
    &&& may_hold_code(c, c.run_at(w)[j].address)
}

/// Whether `x` is such a line of a run at an offset from `lo` to `hi`.
spec fn is_found_from(c: SweepView, lo: int, hi: int, x: LineView) -> bool {
    exists|w: int, j: int| lo <= w <= hi && #[trigger] is_found_at(c, w, j, x)
}

proof fn lemma_run_lines(c: SweepView, w: int, k: int, done: Seq<LineView>, v: Seq<LineView>)
    requires
        0 <= k <= c.run_at(w).len(),
        run_lines(c.run_at(w), c.ranges, c.marks, k, done) == Some(v),
    ensures
        v.len() >= done.len(),
        v.take(done.len() as int) == done,
        forall|x: int| done.len() <= x < v.len() ==> is_found_from(c, w, w, #[trigger] v[x]),
        forall|j: int|
            0 <= j < k && may_hold_code(c, (#[trigger] c.run_at(w)[j]).address) ==> (line_of(
                c.run_at(w)[j],
            ) matches Some(x) && v.contains(x)),
    decreases k,
{
    let run = c.run_at(w);
    if k <= 0 {
        assert(v.take(done.len() as int) =~= done);
    } else {
        let before = run_lines(run, c.ranges, c.marks, k - 1, done)->0;
        lemma_run_lines(c, w, k - 1, done, before);
        if counts_at(c.ranges, c.marks, run[k - 1].address) {
            let y = line_of(run[k - 1])->0;
            assert(v == before.push(y));
            assert(v.take(done.len() as int) =~= before.take(done.len() as int));
            assert forall|x: int| done.len() <= x < v.len() implies is_found_from(
                c,
                w,
                w,
                #[trigger] v[x],
            ) by {
                if x < before.len() {
                    assert(v[x] == before[x]);
                } else {
                    assert(is_found_at(c, w, k - 1, v[x]));
                }
            }
            assert forall|j: int|
                0 <= j < k && may_hold_code(c, (#[trigger] c.run_at(w)[j]).address) implies (
            line_of(c.run_at(w)[j]) matches Some(x) && v.contains(x)) by {
                vstd::seq_lib::lemma_seq_contains_after_push(before, y, line_of(run[j])->0);
            }
        }
    }
}

/// Whether a stop at offset `w` deals with offset `o`: it steps over it, skips it as
/// data, or decodes past it and lists what counts.
spec fn deals_with(c: SweepView, v: Seq<LineView>, w: int, o: int) -> bool {
    let run = c.run_at(w);
    match data_end(c.marks, (c.vaddr + w) as u64) {
        Some(e) => o < w + c.step || c.vaddr + o < e,
        None => if run.len() == 0 {
            o < w + c.step
        } else {
            &&& o < w + c.step || o < (if run.last().address < c.vaddr {
                0
            } else {
                run.last().address - c.vaddr
            }) + run.last().len
            &&& forall|j: int|
                0 <= j < run.len() && may_hold_code(c, (#[trigger] run[j]).address) ==> (line_of(
                    run[j],
                ) matches Some(x) && v.contains(x))
        },
    }
}

/// Whether a stop from offset `off` on deals with offset `o`.
spec fn is_dealt_with(c: SweepView, v: Seq<LineView>, off: int, o: int) -> bool {
    exists|w: int| off <= w <= o && #[trigger] deals_with(c, v, w, o)
}

proof fn lemma_deals_on(c: SweepView, v: Seq<LineView>, u: Seq<LineView>, w: int, o: int)
    requires
        deals_with(c, u, w, o),
        forall|x: LineView| #[trigger] u.contains(x) ==> v.contains(x),
    ensures
        deals_with(c, v, w, o),
{
}

proof fn lemma_sweep(c: SweepView, off: int, done: Seq<LineView>, v: Seq<LineView>)
    requires
        c.step > 0,
        off >= 0,
        sweep_from(c, off, done) == Some(v),
    ensures
        v.len() >= done.len(),
        v.take(done.len() as int) == done,
        forall|x: int|
            done.len() <= x < v.len() ==> is_found_from(c, off, c.n() - 1, #[trigger] v[x]),
        forall|o: int| off <= o < c.n() ==> #[trigger] is_dealt_with(c, v, off, o),
    decreases larger(c.n() - off, 0),
{
    if off >= c.n() {
        assert(v.take(done.len() as int) =~= done);
    } else {
        let run = c.run_at(off);
        let stop = data_end(c.marks, (c.vaddr + off) as u64);
        let more = if stop is None && run.len() > 0 {
            run_lines(run, c.ranges, c.marks, run.len() as int, done)->0
        } else {
            done
        };
        let next = match stop {
            Some(e) => larger(data_end_offset(e, c.vaddr, c.n()), off + c.step),
            None => if run.len() == 0 {
                off + c.step
            } else {
                larger(offset_past(run.last(), c.vaddr), off + c.step)
            },
        };
        if stop is None && run.len() > 0 {
            lemma_run_lines(c, off, run.len() as int, done, more);
        } else {
            assert(more.take(done.len() as int) =~= done);
        }
        lemma_sweep(c, next, more, v);
        assert(v.take(done.len() as int) =~= v.take(more.len() as int).take(done.len() as int));
        assert forall|x: int| done.len() <= x < v.len() implies is_found_from(
            c,
            off,
            c.n() - 1,
            #[trigger] v[x],
        ) by {
            if x < more.len() {
                assert(v[x] == v.take(more.len() as int)[x]);
                assert(is_found_from(c, off, off, more[x]));
            } else {
                assert(is_found_from(c, next, c.n() - 1, v[x]));
            }
        }
        assert forall|x: LineView| #[trigger] more.contains(x) implies v.contains(x) by {
            let z = choose|z: int| 0 <= z < more.len() && more[z] == x;
            assert(v.take(more.len() as int)[z] == x);
            assert(v[z] == x);
        }
        assert forall|o: int| off <= o < c.n() implies #[trigger] is_dealt_with(c, v, off, o) by {
            if o < next {
                assert(deals_with(c, more, off, o));
                lemma_deals_on(c, v, more, off, o);
                assert(off <= off <= o && deals_with(c, v, off, o));
            } else {
                assert(is_dealt_with(c, v, next, o));
                let w = choose|w: int| next <= w <= o && #[trigger] deals_with(c, v, w, o);
                assert(off <= w <= o && deals_with(c, v, w, o));
            }
        }
    }
}

/// A sweep only adds lines behind those there are, and every line it adds is that of an
/// instruction that the decoder finds somewhere in the section, in code and outside
/// marked data.
pub proof fn law_swept_lines_are_decoded(c: SweepView, done: Seq<LineView>, v: Seq<LineView>, x: int)
    requires
        c.step > 0,
        sweep_from(c, 0, done) == Some(v),
        done.len() <= x < v.len(),
    ensures
        v.take(done.len() as int) == done,
        exists|w: int, j: int|
            0 <= w < c.bytes.len() && 0 <= j < c.run_at(w).len() && line_of(
                #[trigger] c.run_at(w)[j],
            ) == Some(v[x]),
        exists|j: int|
            0 <= j < c.ranges.len() && (#[trigger] c.ranges[j]).0 <= v[x].addr < c.ranges[j].1,
        data_end(c.marks, v[x].addr) is None,
{
    lemma_sweep(c, 0, done, v);
    assert(is_found_from(c, 0, c.n() - 1, v[x]));
    let (w, j): (int, int) = choose|w: int, j: int|
        0 <= w <= c.n() - 1 && #[trigger] is_found_at(c, w, j, v[x]);
    assert(line_of(c.run_at(w)[j]) == Some(v[x]));
    law_line_of_an_instruction(c.run_at(w)[j]);
}

/// A sweep deals with every byte of the section: from some stop at or before it, it
/// steps over the byte, skips it as data, or decodes a run past it, of which every
/// instruction in code and outside marked data is a line.
pub proof fn law_sweep_covers_the_section(
    c: SweepView,
    done: Seq<LineView>,
    v: Seq<LineView>,
    o: int,
)
    requires
        c.step > 0,
        sweep_from(c, 0, done) == Some(v),
        0 <= o < c.bytes.len(),
    ensures
        exists|w: int|
            0 <= w <= o && {
                let run = #[trigger] c.run_at(w);
                match data_end(c.marks, (c.vaddr + w) as u64) {
                    Some(e) => o < w + c.step || c.vaddr + o < e,
                    None => if run.len() == 0 {
                        o < w + c.step
                    } else {
                        &&& o < w + c.step || o < (if run.last().address < c.vaddr {
                            0
                        } else {
                            run.last().address - c.vaddr
                        }) + run.last().len
                        &&& forall|j: int|
                            0 <= j < run.len() && data_end(
                                c.marks,
                                (#[trigger] run[j]).address,
                            ) is None && (exists|r: int|
                                0 <= r < c.ranges.len() && (#[trigger] c.ranges[r]).0
                                    <= run[j].address < c.ranges[r].1) ==> (line_of(
                                run[j],
                            ) matches Some(x) && v.contains(x))
                    },
                }
            },
{
    lemma_sweep(c, 0, done, v);
    assert(is_dealt_with(c, v, 0, o));
    let w = choose|w: int| 0 <= w <= o && #[trigger] deals_with(c, v, w, o);
    let run = c.run_at(w);
    if data_end(c.marks, (c.vaddr + w) as u64) is None && run.len() > 0 {
        assert forall|j: int|
            0 <= j < run.len() && data_end(c.marks, (#[trigger] run[j]).address) is None && (
            exists|r: int|
                0 <= r < c.ranges.len() && (#[trigger] c.ranges[r]).0 <= run[j].address
                    < c.ranges[r].1) implies (line_of(run[j]) matches Some(x) && v.contains(x)) by {
            assert(may_hold_code(c, run[j].address));
        }
    }
}

/// A sweep goes on where data ends, a step further where nothing decodes, and just past
/// a run that decodes.
pub proof fn law_sweep_resumes(c: SweepView, off: int, next: int, done: Seq<LineView>)
    requires
        c.step > 0,
        0 <= off,
        off + c.step <= next <= c.bytes.len(),
    ensures
        ({
            let run = c.run_at(off);
            let stop = data_end(c.marks, (c.vaddr + off) as u64);
            &&& stop == Some((c.vaddr + next) as u64) && c.vaddr + next <= u64::MAX ==> sweep_from(
                c,
                off,
                done,
            ) == sweep_from(c, next, done)
            &&& stop is None && run.len() == 0 && next == off + c.step ==> sweep_from(c, off, done)
                == sweep_from(c, next, done)
            &&& stop is None && run.len() > 0 && run.last().address + run.last().len == c.vaddr
                + next && run.last().address >= c.vaddr ==> (sweep_from(c, off, done) matches Some(
                v,
            ) ==> exists|more: Seq<LineView>| #[trigger]
                sweep_from(c, next, more) == Some(v) && more.len() <= done.len() + run.len())
        }),
{
    let run = c.run_at(off);
    if data_end(c.marks, (c.vaddr + off) as u64) is None && run.len() > 0 {
        if let Some(more) = run_lines(run, c.ranges, c.marks, run.len() as int, done) {
            lemma_run_adds(run, c.ranges, c.marks, run.len() as int, done, more);
            if sweep_from(c, off, done) is Some && run.last().address + run.last().len == c.vaddr
                + next && run.last().address >= c.vaddr {
                assert(sweep_from(c, next, more) == sweep_from(c, off, done));
            }
        }
    }
}

proof fn lemma_run_adds(
    run: Seq<RunInsnView>,
    ranges: Seq<(u64, u64)>,
    marks: Seq<Mark>,
    k: int,
    done: Seq<LineView>,
    v: Seq<LineView>,
)
    requires
        0 <= k <= run.len(),
        run_lines(run, ranges, marks, k, done) == Some(v),
    ensures
        v.len() <= done.len() + k,
    decreases k,
{
    if k > 0 {
        lemma_run_adds(
            run,
            ranges,
            marks,
            k - 1,
            done,
            run_lines(run, ranges, marks, k - 1, done)->0,
        );
    }
}

/// The sections of a file are swept one after the other, each over its own bytes at its
/// own address, and none of their lines is lost.
pub proof fn law_every_section_is_swept(
    isa: Isa,
    data: Seq<u8>,
    spans: Seq<FileSpan>,
    ranges: Seq<(u64, u64)>,
    marks: Seq<Mark>,
    step: int,
    k: int,
    v: Seq<LineView>,
    j: int,
)
    requires
        step > 0,
        0 <= j < k <= spans.len(),
        sweep_below(isa, data, spans, ranges, marks, step, k) == Some(v),
    ensures
        ({
            let c = SweepView {
                isa,
                bytes: data.subrange(spans[j].lo as int, spans[j].hi as int),
                vaddr: spans[j].addr,
                ranges,
                marks,
                step,
            };
            exists|done: Seq<LineView>|
                {
                    &&& #[trigger] sweep_from(c, 0, done) matches Some(w)
                    &&& w.len() <= v.len()
                    &&& v.take(w.len() as int) == w
                    &&& j == 0 ==> done.len() == 0
                    &&& j == k - 1 ==> w == v
                }
        }),
    decreases k,
{
    let done = sweep_below(isa, data, spans, ranges, marks, step, k - 1)->0;
    let c = span_sweep(isa, data, spans[k - 1], ranges, marks, step);
    lemma_sweep(c, 0, done, v);
    if j == k - 1 {
        assert(v.take(v.len() as int) =~= v);
        assert(sweep_from(c, 0, done) == Some(v));
    } else {
        law_every_section_is_swept(isa, data, spans, ranges, marks, step, k - 1, done, j);
        let b = span_sweep(isa, data, spans[j], ranges, marks, step);
        let d = choose|d: Seq<LineView>|
            {
                &&& #[trigger] sweep_from(b, 0, d) matches Some(w)
                &&& w.len() <= done.len()
                &&& done.take(w.len() as int) == w
                &&& j == 0 ==> d.len() == 0
                &&& j == k - 2 ==> w == done
            };
        let w = sweep_from(b, 0, d)->0;
        assert(v.take(w.len() as int) =~= v.take(done.len() as int).take(w.len() as int));
        assert(sweep_from(b, 0, d) == Some(w));
    }
}

/// Images are disassembled for x86-64 (machine 62), which steps a byte at a time, and
/// for AArch64 (183) and ARM (40), which step four; for no other machine.
pub proof fn law_machines(machine: u16)
    ensures
        machine_isa(machine) is Some <==> machine == 62 || machine == 183 || machine == 40,
        machine_isa(machine) matches Some(x) ==> {
            &&& x.0 == Isa::X86_64 <==> machine == 62
            &&& x.0 == Isa::Aarch64 <==> machine == 183
            &&& x.0 == Isa::Arm <==> machine == 40
            &&& x.1 == (if machine == 62 {
                1int
            } else {
                4
            })
        },
{
}

/// A line of the listing begins with the address, set to the right in ten columns, and
/// says in the thirteenth to the fifteenth whether it is certain; it ends with what is
/// known of a function there.
pub proof fn law_listing_lines(c: Computed, k: int)
    requires
        digits_of(c.lines@[k]@.addr as int, 16).len() <= 10,
    ensures
        ({
            let a = c.lines@[k]@.addr;
            let at = digits_of(a as int, 16);
            let t = audit_text(c, k);
            &&& t.subrange(10 - at.len(), 10) == at
            &&& t.subrange(12, 15) == "MIN"@ <==> c.insn_min@.contains(a)
            &&& t.subrange(12, 15) == "NEU"@ <==> !c.insn_min@.contains(a)
            &&& c.fn_min@.contains(a) ==> t.skip(t.len() - 8) == "  <FUNC>"@
            &&& !c.fn_min@.contains(a) && c.fn_max@.contains(a) ==> t.skip(t.len() - 11)
                == "  <crt/plt>"@
            &&& !c.fn_min@.contains(a) && !c.fn_max@.contains(a) ==> t.skip(
                t.len() - c.lines@[k]@.op_str.len(),
            ) == c.lines@[k]@.op_str
        }),
{
    reveal_strlit("MIN");
    reveal_strlit("NEU");
    reveal_strlit("  ");
    reveal_strlit("  <FUNC>");
    reveal_strlit("  <crt/plt>");
    reveal_strlit("");
    let x = c.lines@[k]@;
    let at = digits_of(x.addr as int, 16);
    let t = audit_text(c, k);
    assert("MIN"@[0] == 'M' && "NEU"@[0] == 'N');
    assert(t.subrange(10 - at.len(), 10) =~= at);
    if c.insn_min@.contains(x.addr) {
        assert(t.subrange(12, 15) =~= "MIN"@);
    } else {
        assert(t.subrange(12, 15) =~= "NEU"@);
    }
    if c.fn_min@.contains(x.addr) {
        assert(t.skip(t.len() - 8) =~= "  <FUNC>"@);
    } else if c.fn_max@.contains(x.addr) {
        assert(t.skip(t.len() - 11) =~= "  <crt/plt>"@);
    } else {
        assert(t.skip(t.len() - x.op_str.len()) =~= x.op_str);
    }
}

} // verus!
