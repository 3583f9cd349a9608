//! Debug information: every call into gimli goes through here.

use gimli::{AttributeValue, Dwarf, EndianSlice, RunTimeEndian};
use vstd::prelude::*;
use vstd::slice::slice_subrange;

use crate::image::{
    file_range, section_file_range, ElfImage, ElfImageView, Section, SectionView,
};
use crate::text::str_eq;

verus! {

/// The error of gimli's parsers.
#[verifier::external_type_specification]
#[verifier::external_body]
pub struct ExGimliError(gimli::Error);

/// Whether a section called `name` has bytes in a file of `len` bytes.
pub open spec fn is_loaded(s: SectionView, name: Seq<char>, len: nat) -> bool {
    s.name == Some(name) && match file_range(s) {
        Some((lo, hi)) => hi <= len,
        None => false,
    }
}

/// The bytes of the first section called `name`, counted from `from`, that has
/// any in the file; none if there is no such section.
pub open spec fn section_bytes(
    sections: Seq<SectionView>,
    data: Seq<u8>,
    name: Seq<char>,
    from: int,
) -> Seq<u8>
    decreases sections.len() - from,
{
    if from >= sections.len() {
        Seq::empty()
    } else if is_loaded(sections[from], name, data.len()) {
        let r = file_range(sections[from])->0;
        data.subrange(r.0 as int, r.1 as int)
    } else {
        section_bytes(sections, data, name, from + 1)
    }
}

/// The bytes of the section called `name`.
pub fn debug_section<'a>(image: &ElfImage, data: &'a [u8], name: &str) -> (r: &'a [u8])
    ensures
        r@ == section_bytes(image@.sections, data@, name@, 0),
{
    let n: usize = data.len();
    let mut k: usize = 0;
    while k < image.sections.len()
        invariant
            k <= image.sections@.len(),
            n == data@.len(),
            section_bytes(image@.sections, data@, name@, 0) == section_bytes(
                image@.sections,
                data@,
                name@,
                k as int,
            ),
        decreases image.sections@.len() - k,
    {
        let s: &Section = &image.sections[k];
        proof {
            assert(image@.sections[k as int] == s@);
        }
        let named: bool = match &s.name {
            Some(t) => str_eq(t.as_str(), name),
            None => false,
        };
        if named {
            if let Some((lo, hi)) = section_file_range(s) {
                if hi <= n as u64 {
                    return slice_subrange(data, lo as usize, hi as usize);
                }
            }
        }
        k += 1;
    }
    let none: &'a [u8] = slice_subrange(data, 0, 0);
    proof {
        assert(none@ =~= Seq::empty());
    }
    none
}

/// A row of a line table.
#[derive(Debug, Clone, Copy, PartialEq, Eq, Structural)]
pub struct LineRow {
    /// Whether the row only ends a sequence.
    pub end_sequence: bool,
    /// The address it is about.
    pub address: u64,
}

/// An entry of the debug information.
#[derive(Debug, Clone, Copy, PartialEq, Eq, Structural)]
pub struct Entry {
    /// Tag.
    pub tag: u16,
    /// Low address, where it is given as an address.
    pub low_pc: Option<u64>,
}

/// The rows of all line tables, in the order in which gimli goes through them;
/// nothing where it fails.
pub uninterp spec fn line_rows(image: ElfImageView, data: Seq<u8>) -> Option<Seq<LineRow>>;

/// The entries of all units, in the order in which gimli goes through them;
/// nothing where it fails.
pub uninterp spec fn unit_entries(image: ElfImageView, data: Seq<u8>) -> Option<Seq<Entry>>;

/// The lowest 64-bit number, as a line program writes the operand that advances the
/// line.
pub open spec fn lowest_advance() -> Seq<u8> {
    seq![0x80u8, 0x80u8, 0x80u8, 0x80u8, 0x80u8, 0x80u8, 0x80u8, 0x80u8, 0x80u8, 0x7fu8]
}

/// Whether the lowest 64-bit number is written anywhere in `d`.
pub open spec fn holds_lowest_advance(d: Seq<u8>) -> bool {
    exists|i: int|
        0 <= i && i + 10 <= d.len() && #[trigger] d.subrange(i, i + 10) == lowest_advance()
}

/// Whether the lowest 64-bit number is written anywhere in `d`.
pub fn find_lowest_advance(d: &[u8]) -> (r: bool)
    ensures
        r == holds_lowest_advance(d@),
{
    // The length of the run of `0x80` that ends before `k`.
    let mut run: usize = 0;
    let mut k: usize = 0;
    while k < d.len()
        invariant
            run <= k <= d@.len(),
            forall|j: int| k - run <= j < k ==> d@[j] == 0x80,
            run < k ==> d@[k - run - 1] != 0x80,
            forall|i: int|
                0 <= i && i + 10 <= k ==> #[trigger] d@.subrange(i, i + 10) != lowest_advance(),
        decreases d@.len() - k,
    {
        if run >= 9 && d[k] == 0x7f {
            proof {
                assert(d@.subrange(k - 9, k - 9 + 10) =~= lowest_advance());
            }
            return true;
        }
        proof {
            assert forall|i: int| 0 <= i && i + 10 <= k + 1 implies #[trigger] d@.subrange(
                i,
                i + 10,
            ) != lowest_advance() by {
                if i + 10 == k + 1 {
                    let w = d@.subrange(i, i + 10);
                    if w == lowest_advance() {
                        assert(w[9] == d@[k as int]);
                        if run < 9 {
                            assert(w[8 - run] == d@[k - run - 1]);
                        }
                    }
                }
            }
        }
        run = if d[k] == 0x80 { run + 1 } else { 0 };
        k += 1;
    }
    false
}

/// `gimli::Dwarf::load` on the sections of the image, then `units`, `unit` and
/// `next_row` on each line program. The result depends on the image alone. Left out
/// are images whose line programs hold the lowest 64-bit number: gimli negates a
/// negative advance of the line, and that one has no negation.
#[verifier::external_body]
pub(crate) fn read_line_rows(image: &ElfImage, data: &[u8]) -> (r: Result<
    Vec<LineRow>,
    gimli::Error,
>)
    requires
        !holds_lowest_advance(section_bytes(image@.sections, data@, ".debug_line"@, 0)),
    ensures
        match r {
            Ok(v) => line_rows(image@, data@) == Some(v@),
            Err(_) => line_rows(image@, data@) is None,
        },
{
    let e = if image.little_endian { RunTimeEndian::Little } else { RunTimeEndian::Big };
    let dwarf = Dwarf::load(|id| Ok::<_, gimli::Error>(EndianSlice::new(debug_section(image, data, id.name()), e)))?;
    let (mut out, mut units) = (Vec::new(), dwarf.units());
    while let Some(header) = units.next()? {
        if let Some(program) = dwarf.unit(header)?.line_program.clone() {
            let mut rows = program.rows();
            while let Some((_, row)) = rows.next_row()? {
                out.push(LineRow { end_sequence: row.end_sequence(), address: row.address() });
            }
        }
    }
    Ok(out)
}

/// `gimli::Dwarf::load` on the sections of the image, then `units`, `unit` and
/// `next_dfs` on the entries of each, with `attr_value` for the low address. The
/// result depends on the image alone.
#[verifier::external_body]
pub(crate) fn read_entries(image: &ElfImage, data: &[u8]) -> (r: Result<Vec<Entry>, gimli::Error>)
    ensures
        match r {
            Ok(v) => unit_entries(image@, data@) == Some(v@),
            Err(_) => unit_entries(image@, data@) is None,
        },
{
    let e = if image.little_endian { RunTimeEndian::Little } else { RunTimeEndian::Big };
    let dwarf = Dwarf::load(|id| Ok::<_, gimli::Error>(EndianSlice::new(debug_section(image, data, id.name()), e)))?;
    let (mut out, mut units) = (Vec::new(), dwarf.units());
    while let Some(header) = units.next()? {
        let unit = dwarf.unit(header)?;
        let mut entries = unit.entries();
        while let Some(entry) = entries.next_dfs()? {
            let low = entry.attr_value(gimli::DW_AT_low_pc);
            let low_pc = if let Some(AttributeValue::Addr(a)) = low { Some(a) } else { None };
            out.push(Entry { tag: entry.tag().0, low_pc });
        }
    }
    Ok(out)
}

proof fn lemma_section_bytes(s: Seq<SectionView>, data: Seq<u8>, name: Seq<char>, from: int, k: int)
    requires
        0 <= from <= k < s.len(),
        is_loaded(s[k], name, data.len()),
        forall|j: int| from <= j < k ==> !is_loaded(#[trigger] s[j], name, data.len()),
    ensures
        file_range(s[k]) matches Some((lo, hi)) && section_bytes(s, data, name, from)
            == data.subrange(lo as int, hi as int),
    decreases k - from,
{
    if from < k {
        assert(!is_loaded(s[from], name, data.len()));
        lemma_section_bytes(s, data, name, from + 1, k);
    }
}

proof fn lemma_no_section(s: Seq<SectionView>, data: Seq<u8>, name: Seq<char>, from: int)
    requires
        0 <= from,
        forall|j: int| from <= j < s.len() ==> !is_loaded(#[trigger] s[j], name, data.len()),
    ensures
        section_bytes(s, data, name, from) == Seq::<u8>::empty(),
    decreases s.len() - from,
{
    if from < s.len() {
        assert(!is_loaded(s[from], name, data.len()));
        lemma_no_section(s, data, name, from + 1);
    }
}

/// The bytes of a debug section are those of the first section with its name that takes
/// part of the file and ends in it; without one there are none.
pub proof fn law_debug_sections(s: Seq<SectionView>, data: Seq<u8>, name: Seq<char>, k: int)
    ensures
        0 <= k < s.len() && s[k].name == Some(name) && s[k].kind != 8 && s[k].offset + s[k].size
            <= data.len() && data.len() < u64::MAX && (forall|j: int|
            0 <= j < k ==> (#[trigger] s[j]).name != Some(name)) ==> section_bytes(s, data, name, 0)
            == data.subrange(s[k].offset as int, s[k].offset + s[k].size),
        (forall|j: int| 0 <= j < s.len() ==> (#[trigger] s[j]).name != Some(name) || s[j].kind == 8
            || s[j].offset + s[j].size > data.len()) && data.len() < u64::MAX ==> section_bytes(
            s,
            data,
            name,
            0,
        ) == Seq::<u8>::empty(),
{
    if 0 <= k < s.len() && s[k].name == Some(name) && s[k].kind != 8 && s[k].offset + s[k].size
        <= data.len() && data.len() < u64::MAX && (forall|j: int|
        0 <= j < k ==> (#[trigger] s[j]).name != Some(name)) {
        assert forall|j: int| 0 <= j < k implies !is_loaded(#[trigger] s[j], name, data.len()) by {
            assert(s[j].name != Some(name));
        }
        lemma_section_bytes(s, data, name, 0, k);
    }
    if (forall|j: int| 0 <= j < s.len() ==> (#[trigger] s[j]).name != Some(name) || s[j].kind == 8
        || s[j].offset + s[j].size > data.len()) && data.len() < u64::MAX {
        assert forall|j: int| 0 <= j < s.len() implies !is_loaded(
            #[trigger] s[j],
            name,
            data.len(),
        ) by {
            assert(s[j].name != Some(name) || s[j].kind == 8 || s[j].offset + s[j].size
                > data.len());
        }
        lemma_no_section(s, data, name, 0);
    }
}

/// The lowest number is written as nine bytes `0x80` and one `0x7f`.
pub proof fn law_lowest_number(d: Seq<u8>, i: int)
    requires
        0 <= i,
        i + 10 <= d.len(),
    ensures
        (forall|j: int| i <= j < i + 9 ==> #[trigger] d[j] == 0x80) && d[i + 9] == 0x7f
            ==> holds_lowest_advance(d),
        (forall|j: int| 0 <= j < d.len() ==> #[trigger] d[j] != 0x7f) ==> !holds_lowest_advance(d),
        (forall|j: int| 0 <= j < d.len() && j % 9 == 0 ==> #[trigger] d[j] != 0x80)
            ==> !holds_lowest_advance(d),
{
    if (forall|j: int| i <= j < i + 9 ==> #[trigger] d[j] == 0x80) && d[i + 9] == 0x7f {
        assert(d.subrange(i, i + 10) =~= lowest_advance());
    }
    if holds_lowest_advance(d) {
        let x = choose|x: int|
            0 <= x && x + 10 <= d.len() && #[trigger] d.subrange(x, x + 10) == lowest_advance();
        let w = d.subrange(x, x + 10);
        assert(w[9] == d[x + 9] && w[9] == 0x7f);
        let y = x + (9 - x % 9) % 9;
        assert(y % 9 == 0 && x <= y < x + 9);
        assert(w[y - x] == d[y] && w[y - x] == 0x80);
    }
}

} // verus!
