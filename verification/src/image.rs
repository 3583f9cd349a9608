//! Executable images: where their code lies.
//!
//! goblin reads the headers; what it reports is carried here as plain lists.
//! Which part of an image counts as its code is decided on those lists.

use vstd::prelude::*;
use vstd::slice::slice_subrange;

use crate::le::{law_le_round_trip, le_bytes, le_value, pow256, read_u64};
use crate::synth::{law_min_elf_entry, law_min_elf_layout, min_elf, min_elf_ehdr};
use crate::text::{opt_string, str_eq};

verus! {

/// Section type of sections that take no space in the file.
pub const SHT_NOBITS: u32 = 8;

/// Section flag: holds instructions.
pub const SHF_EXECINSTR: u64 = 4;

/// Segment type of segments that are mapped into memory.
pub const PT_LOAD: u32 = 1;

/// Segment flag: may be executed.
pub const PF_X: u32 = 1;

/// Machine number of x86-64.
pub const EM_X86_64: u16 = 62;

/// Machine number of AArch64.
pub const EM_AARCH64: u16 = 183;

/// Machine number of 32-bit ARM.
pub const EM_ARM: u16 = 40;

// ── What the headers say ───────────────────────────────────────────────────

/// The error of goblin's parsers.
#[verifier::external_type_specification]
#[verifier::external_body]
pub struct ExGoblinError(goblin::error::Error);

/// The file format of an image.
#[derive(Debug, Clone, Copy, PartialEq, Eq, Structural)]
pub enum ObjectKind {
    /// ELF.
    Elf,
    /// PE.
    Pe,
    /// Anything else.
    Other,
}

/// A section of an ELF image.
#[derive(Debug, Clone)]
pub struct Section {
    /// Name, where the string table has one.
    pub name: Option<String>,
    /// Type.
    pub kind: u32,
    /// Flags.
    pub flags: u64,
    /// Load address.
    pub addr: u64,
    /// File offset.
    pub offset: u64,
    /// Number of bytes.
    pub size: u64,
}

/// The contents of a [`Section`].
#[verifier::ext_equal]
pub struct SectionView {
    /// Name.
    pub name: Option<Seq<char>>,
    /// Type.
    pub kind: u32,
    /// Flags.
    pub flags: u64,
    /// Load address.
    pub addr: u64,
    /// File offset.
    pub offset: u64,
    /// Number of bytes.
    pub size: u64,
}

impl View for Section {
    type V = SectionView;

    open spec fn view(&self) -> SectionView {
        SectionView {
            name: opt_string(self.name),
            kind: self.kind,
            flags: self.flags,
            addr: self.addr,
            offset: self.offset,
            size: self.size,
        }
    }
}

/// A segment of an ELF image.
#[derive(Debug, Clone, Copy, PartialEq, Eq, Structural)]
pub struct Segment {
    /// Type.
    pub kind: u32,
    /// Flags.
    pub flags: u32,
    /// File offset.
    pub offset: u64,
    /// Number of bytes in the file.
    pub filesz: u64,
    /// Load address.
    pub vaddr: u64,
}

/// The headers of an ELF image.
#[derive(Debug, Clone)]
pub struct ElfImage {
    /// Whether numbers are stored with the low byte first.
    pub little_endian: bool,
    /// Machine number.
    pub machine: u16,
    /// Entry point.
    pub entry: u64,
    /// Section headers, in file order.
    pub sections: Vec<Section>,
    /// Program headers, in file order.
    pub segments: Vec<Segment>,
}

/// The contents of an [`ElfImage`].
#[verifier::ext_equal]
pub struct ElfImageView {
    /// Whether numbers are stored with the low byte first.
    pub little_endian: bool,
    /// Machine number.
    pub machine: u16,
    /// Entry point.
    pub entry: u64,
    /// Section headers.
    pub sections: Seq<SectionView>,
    /// Program headers.
    pub segments: Seq<Segment>,
}

/// The contents of a list of sections.
pub open spec fn section_views(v: Seq<Section>) -> Seq<SectionView> {
    v.map_values(|s: Section| s@)
}

impl View for ElfImage {
    type V = ElfImageView;

    open spec fn view(&self) -> ElfImageView {
        ElfImageView {
            little_endian: self.little_endian,
            machine: self.machine,
            entry: self.entry,
            sections: section_views(self.sections@),
            segments: self.segments@,
        }
    }
}

/// A section of a PE image.
#[derive(Debug, Clone)]
pub struct PeSection {
    /// Name, where it is valid text.
    pub name: Option<String>,
    /// File offset.
    pub offset: u32,
    /// Number of bytes in the file.
    pub size: u32,
    /// Load address, counted from the image base.
    pub rva: u32,
}

/// The contents of a [`PeSection`].
#[verifier::ext_equal]
pub struct PeSectionView {
    /// Name.
    pub name: Option<Seq<char>>,
    /// File offset.
    pub offset: u32,
    /// Number of bytes in the file.
    pub size: u32,
    /// Load address, counted from the image base.
    pub rva: u32,
}

impl View for PeSection {
    type V = PeSectionView;

    open spec fn view(&self) -> PeSectionView {
        PeSectionView {
            name: opt_string(self.name),
            offset: self.offset,
            size: self.size,
            rva: self.rva,
        }
    }
}

/// A symbol of an ELF image.
#[derive(Debug, Clone)]
pub struct Symbol {
    /// Name, where the string table has one.
    pub name: Option<String>,
    /// Type.
    pub kind: u8,
    /// Value: the address for a function.
    pub value: u64,
}

/// The contents of a [`Symbol`].
#[verifier::ext_equal]
pub struct SymbolView {
    /// Name.
    pub name: Option<Seq<char>>,
    /// Type.
    pub kind: u8,
    /// Value.
    pub value: u64,
}

impl View for Symbol {
    type V = SymbolView;

    open spec fn view(&self) -> SymbolView {
        SymbolView { name: opt_string(self.name), kind: self.kind, value: self.value }
    }
}

/// The contents of a list of symbols.
pub open spec fn symbol_views(v: Seq<Symbol>) -> Seq<SymbolView> {
    v.map_values(|s: Symbol| s@)
}

/// The headers of a PE image.
#[derive(Debug, Clone)]
pub struct PeImage {
    /// Image base.
    pub base: u64,
    /// Section headers, in file order.
    pub sections: Vec<PeSection>,
}

/// The contents of a [`PeImage`].
#[verifier::ext_equal]
pub struct PeImageView {
    /// Image base.
    pub base: u64,
    /// Section headers.
    pub sections: Seq<PeSectionView>,
}

impl View for PeImage {
    type V = PeImageView;

    open spec fn view(&self) -> PeImageView {
        PeImageView {
            base: self.base,
            sections: self.sections@.map_values(|s: PeSection| s@),
        }
    }
}

/// What `goblin::Object::parse` takes an image to be; nothing where it fails.
pub uninterp spec fn parsed_kind(bytes: Seq<u8>) -> Option<ObjectKind>;

/// The headers that `goblin::elf::Elf::parse` finds; nothing where it fails.
pub uninterp spec fn parsed_elf(bytes: Seq<u8>) -> Option<ElfImageView>;

/// The headers that `goblin::pe::PE::parse` finds; nothing where it fails.
pub uninterp spec fn parsed_pe(bytes: Seq<u8>) -> Option<PeImageView>;

/// The symbol table that `goblin::elf::Elf::parse` finds; nothing where it fails.
pub uninterp spec fn parsed_symbols(bytes: Seq<u8>) -> Option<Seq<SymbolView>>;

/// The number in the `n` bytes at `at`, low byte first.
pub open spec fn field(bytes: Seq<u8>, at: int, n: int) -> nat {
    le_value(bytes.subrange(at, at + n))
}

/// A 64-bit little-endian ELF image without section headers whose one program
/// header follows the file header and maps a segment.
pub open spec fn is_bare_elf(bytes: Seq<u8>) -> bool {
    &&& bytes.len() >= 120
    &&& bytes.take(6) == seq![0x7fu8, 0x45, 0x4c, 0x46, 2, 1]
    &&& field(bytes, 32, 8) == 64
    &&& field(bytes, 40, 8) == 0
    &&& field(bytes, 56, 2) == 1
    &&& field(bytes, 64, 4) == PT_LOAD
}

/// The headers of a bare ELF image, at the places that the format gives them.
pub open spec fn bare_elf(bytes: Seq<u8>) -> ElfImageView {
    ElfImageView {
        little_endian: true,
        machine: field(bytes, 18, 2) as u16,
        entry: field(bytes, 24, 8) as u64,
        sections: Seq::empty(),
        segments: seq![
            Segment {
                kind: field(bytes, 64, 4) as u32,
                flags: field(bytes, 68, 4) as u32,
                offset: field(bytes, 72, 8) as u64,
                filesz: field(bytes, 96, 8) as u64,
                vaddr: field(bytes, 80, 8) as u64,
            },
        ],
    }
}

/// Whether an image begins as a Mach-O file of one architecture, of either word size
/// and in either byte order.
pub open spec fn is_thin_mach(bytes: Seq<u8>) -> bool {
    bytes.len() >= 4 && {
        ||| bytes.take(4) == seq![0xcfu8, 0xfa, 0xed, 0xfe]
        ||| bytes.take(4) == seq![0xceu8, 0xfa, 0xed, 0xfe]
        ||| bytes.take(4) == seq![0xfeu8, 0xed, 0xfa, 0xcf]
        ||| bytes.take(4) == seq![0xfeu8, 0xed, 0xfa, 0xce]
    }
}

/// `goblin::Object::parse`. The result depends on the bytes alone; only the
/// variant is looked at. A bare ELF image is taken for an ELF image. Left out are
/// Mach-O files of one architecture, in which goblin adds and subtracts addresses
/// unchecked.
#[verifier::external_body]
pub(crate) fn object_kind(bytes: &[u8]) -> (r: Result<ObjectKind, goblin::error::Error>)
    requires
        !is_thin_mach(bytes@),
    ensures
        match r {
            Ok(k) => parsed_kind(bytes@) == Some(k) && (is_bare_elf(bytes@) ==> k
                == ObjectKind::Elf),
            Err(_) => parsed_kind(bytes@) is None && !is_bare_elf(bytes@),
        },
{
    Ok(match goblin::Object::parse(bytes)? {
        goblin::Object::Elf(_) => ObjectKind::Elf,
        goblin::Object::PE(_) => ObjectKind::Pe,
        _ => ObjectKind::Other,
    })
}

/// `goblin::elf::Elf::parse`. The result depends on the bytes alone; section
/// names are looked up with `Strtab::get_at`. A bare ELF image is read, field by
/// field.
#[verifier::external_body]
pub(crate) fn read_elf(bytes: &[u8]) -> (r: Result<ElfImage, goblin::error::Error>)
    ensures
        match r {
            Ok(i) => parsed_elf(bytes@) == Some(i@) && (is_bare_elf(bytes@) ==> i@ == bare_elf(
                bytes@,
            )),
            Err(_) => parsed_elf(bytes@) is None && !is_bare_elf(bytes@),
        },
{
    let elf = goblin::elf::Elf::parse(bytes)?;
    let sections = elf.section_headers.iter().map(|s| Section {
        name: elf.shdr_strtab.get_at(s.sh_name).map(str::to_string),
        kind: s.sh_type, flags: s.sh_flags, addr: s.sh_addr, offset: s.sh_offset, size: s.sh_size,
    }).collect();
    let segments = elf.program_headers.iter().map(|p| Segment {
        kind: p.p_type, flags: p.p_flags, offset: p.p_offset, filesz: p.p_filesz, vaddr: p.p_vaddr,
    }).collect();
    let (little_endian, machine, entry) = (elf.little_endian, elf.header.e_machine, elf.header.e_entry);
    Ok(ElfImage { little_endian, machine, entry, sections, segments })
}

/// The symbol table of `goblin::elf::Elf::parse`. The result depends on the bytes
/// alone; names are looked up with `Strtab::get_at`, types taken with
/// `Sym::st_type`.
#[verifier::external_body]
pub(crate) fn read_symbols(bytes: &[u8]) -> (r: Result<Vec<Symbol>, goblin::error::Error>)
    ensures
        match r {
            Ok(v) => parsed_symbols(bytes@) == Some(symbol_views(v@)),
            Err(_) => parsed_symbols(bytes@) is None,
        },
{
    let elf = goblin::elf::Elf::parse(bytes)?;
    Ok(elf.syms.iter().map(|y| Symbol {
        name: elf.strtab.get_at(y.st_name).map(str::to_string),
        kind: y.st_type(),
        value: y.st_value,
    }).collect())
}

/// `goblin::pe::PE::parse`. The result depends on the bytes alone; section names
/// are taken with `SectionTable::name`.
#[verifier::external_body]
pub(crate) fn read_pe(bytes: &[u8]) -> (r: Result<PeImage, goblin::error::Error>)
    ensures
        match r {
            Ok(i) => parsed_pe(bytes@) == Some(i@),
            Err(_) => parsed_pe(bytes@) is None,
        },
{
    let pe = goblin::pe::PE::parse(bytes)?;
    let sections = pe.sections.iter().map(|s| PeSection {
        name: s.name().ok().map(str::to_string),
        offset: s.pointer_to_raw_data,
        size: s.size_of_raw_data,
        rva: s.virtual_address,
    }).collect();
    Ok(PeImage { base: pe.image_base, sections })
}

// ── Where the code lies ────────────────────────────────────────────────────

/// Why no code could be found in an image.
#[derive(Debug, Clone, Copy, PartialEq, Eq, Structural)]
pub enum HeaderError {
    /// The headers could not be read.
    Unreadable,
    /// The format is neither ELF nor PE.
    Unsupported,
    /// The image is not an ELF.
    NotElf,
    /// There is no `.text` section.
    TextNotFound,
    /// `.text` takes no space in the file.
    TextHasNoFileRange,
    /// `.text` ends behind the end of the file.
    TextPastEnd,
    /// The load address of `.text` leaves the address space.
    AddressOverflow,
    /// There is no `.text` section and no executable segment.
    NoCode,
    /// The end of the executable segment leaves the address space.
    SegmentOverflow,
    /// The executable segment ends behind the end of the file.
    SegmentPastEnd,
}

/// A part of a file and the address at which it is loaded.
#[derive(Debug, Clone, Copy, PartialEq, Eq, Structural)]
pub struct FileSpan {
    /// Load address of the first byte.
    pub addr: u64,
    /// File offset of the first byte.
    pub lo: u64,
    /// File offset just past the last byte.
    pub hi: u64,
}

/// The index of the first section called `name`, counted from `from`.
pub open spec fn first_named(sections: Seq<SectionView>, name: Seq<char>, from: int) -> Option<int>
    decreases sections.len() - from,
{
    if from >= sections.len() {
        None
    } else if sections[from].name == Some(name) {
        Some(from)
    } else {
        first_named(sections, name, from + 1)
    }
}

/// The part of the file that a section takes, if it takes any.
pub open spec fn file_range(s: SectionView) -> Option<(u64, u64)> {
    if s.kind == SHT_NOBITS {
        None
    } else if s.offset + s.size > u64::MAX {
        Some((s.offset, u64::MAX))
    } else {
        Some((s.offset, (s.offset + s.size) as u64))
    }
}

/// Whether a segment is mapped into memory and may be executed.
pub open spec fn is_exec_load(p: Segment) -> bool {
    p.kind == PT_LOAD && p.flags & PF_X != 0
}

/// The index of the first executable segment, counted from `from`.
pub open spec fn first_exec_load(segments: Seq<Segment>, from: int) -> Option<int>
    decreases segments.len() - from,
{
    if from >= segments.len() {
        None
    } else if is_exec_load(segments[from]) {
        Some(from)
    } else {
        first_exec_load(segments, from + 1)
    }
}

/// The place of a section's bytes in a file of `len` bytes.
pub open spec fn section_region(s: SectionView, len: nat) -> Result<FileSpan, HeaderError> {
    match file_range(s) {
        None => Err(HeaderError::TextHasNoFileRange),
        Some((lo, hi)) => if hi <= len {
            Ok(FileSpan { addr: s.addr, lo, hi })
        } else {
            Err(HeaderError::TextPastEnd)
        },
    }
}

/// The place of a segment's bytes in a file of `len` bytes.
pub open spec fn segment_region(p: Segment, len: nat) -> Result<FileSpan, HeaderError> {
    if p.offset + p.filesz > u64::MAX {
        Err(HeaderError::SegmentOverflow)
    } else if p.offset + p.filesz > len {
        Err(HeaderError::SegmentPastEnd)
    } else {
        Ok(FileSpan { addr: p.vaddr, lo: p.offset, hi: (p.offset + p.filesz) as u64 })
    }
}

/// The `.text` section of an ELF image.
pub open spec fn elf_text(i: ElfImageView, len: nat) -> Result<FileSpan, HeaderError> {
    match first_named(i.sections, ".text"@, 0) {
        Some(k) => section_region(i.sections[k], len),
        None => Err(HeaderError::TextNotFound),
    }
}

/// The code of an ELF image: its `.text` section, or its first executable
/// segment where it has no such section.
pub open spec fn elf_code(i: ElfImageView, len: nat) -> Result<FileSpan, HeaderError> {
    match first_named(i.sections, ".text"@, 0) {
        Some(k) => section_region(i.sections[k], len),
        None => match first_exec_load(i.segments, 0) {
            Some(k) => segment_region(i.segments[k], len),
            None => Err(HeaderError::NoCode),
        },
    }
}

/// The index of the first PE section called `name`, counted from `from`.
pub open spec fn first_pe_named(
    sections: Seq<PeSectionView>,
    name: Seq<char>,
    from: int,
) -> Option<int>
    decreases sections.len() - from,
{
    if from >= sections.len() {
        None
    } else if sections[from].name == Some(name) {
        Some(from)
    } else {
        first_pe_named(sections, name, from + 1)
    }
}

/// The code of a PE image: its `.text` section.
pub open spec fn pe_code(i: PeImageView, len: nat) -> Result<FileSpan, HeaderError> {
    match first_pe_named(i.sections, ".text"@, 0) {
        None => Err(HeaderError::TextNotFound),
        Some(k) => {
            let s = i.sections[k];
            if s.offset + s.size > len {
                Err(HeaderError::TextPastEnd)
            } else if i.base + s.rva > u64::MAX {
                Err(HeaderError::AddressOverflow)
            } else {
                Ok(
                    FileSpan {
                        addr: (i.base + s.rva) as u64,
                        lo: s.offset as u64,
                        hi: (s.offset + s.size) as u64,
                    },
                )
            }
        },
    }
}

/// The format of an image; nothing where its headers cannot be read.
pub open spec fn image_kind(bytes: Seq<u8>) -> Option<ObjectKind> {
    if is_thin_mach(bytes) {
        Some(ObjectKind::Other)
    } else {
        parsed_kind(bytes)
    }
}

/// The code of an image of any supported format.
pub open spec fn image_code(bytes: Seq<u8>) -> Result<FileSpan, HeaderError> {
    match image_kind(bytes) {
        None => Err(HeaderError::Unreadable),
        Some(ObjectKind::Other) => Err(HeaderError::Unsupported),
        Some(ObjectKind::Elf) => match parsed_elf(bytes) {
            None => Err(HeaderError::Unreadable),
            Some(i) => elf_code(i, bytes.len()),
        },
        Some(ObjectKind::Pe) => match parsed_pe(bytes) {
            None => Err(HeaderError::Unreadable),
            Some(i) => pe_code(i, bytes.len()),
        },
    }
}

/// What `read` makes of an ELF image; an error for any other image.
pub open spec fn elf_only<T>(
    bytes: Seq<u8>,
    read: spec_fn(ElfImageView) -> Result<T, HeaderError>,
) -> Result<T, HeaderError> {
    match image_kind(bytes) {
        None => Err(HeaderError::Unreadable),
        Some(ObjectKind::Elf) => match parsed_elf(bytes) {
            None => Err(HeaderError::Unreadable),
            Some(i) => read(i),
        },
        Some(_) => Err(HeaderError::NotElf),
    }
}

/// Whether an optional name is `name`.
fn is_named(have: &Option<String>, name: &str) -> (r: bool)
    ensures
        r == (opt_string(*have) == Some(name@)),
{
    match have {
        Some(n) => str_eq(n.as_str(), name),
        None => false,
    }
}

/// The first section called `name`.
pub fn find_section(sections: &Vec<Section>, name: &str) -> (r: Option<usize>)
    ensures
        match r {
            Some(k) => first_named(section_views(sections@), name@, 0) == Some(k as int) && k
                < sections@.len(),
            None => first_named(section_views(sections@), name@, 0) is None,
        },
{
    let mut k: usize = 0;
    while k < sections.len()
        invariant
            k <= sections@.len(),
            first_named(section_views(sections@), name@, 0) == first_named(
                section_views(sections@),
                name@,
                k as int,
            ),
        decreases sections@.len() - k,
    {
        proof {
            assert(section_views(sections@)[k as int] == sections@[k as int]@);
        }
        if is_named(&sections[k].name, name) {
            return Some(k);
        }
        k += 1;
    }
    None
}

/// The first segment that is mapped into memory and may be executed.
pub fn find_exec_load(segments: &Vec<Segment>) -> (r: Option<usize>)
    ensures
        match r {
            Some(k) => first_exec_load(segments@, 0) == Some(k as int) && k < segments@.len(),
            None => first_exec_load(segments@, 0) is None,
        },
{
    let mut k: usize = 0;
    while k < segments.len()
        invariant
            k <= segments@.len(),
            first_exec_load(segments@, 0) == first_exec_load(segments@, k as int),
        decreases segments@.len() - k,
    {
        if segments[k].kind == PT_LOAD && segments[k].flags & PF_X != 0 {
            return Some(k);
        }
        k += 1;
    }
    None
}

/// The part of the file that a section takes, if it takes any.
pub fn section_file_range(s: &Section) -> (r: Option<(u64, u64)>)
    ensures
        r == file_range(s@),
{
    if s.kind == SHT_NOBITS {
        return None;
    }
    match s.offset.checked_add(s.size) {
        Some(end) => Some((s.offset, end)),
        None => Some((s.offset, u64::MAX)),
    }
}

fn locate_section(s: &Section, len: usize) -> (r: Result<FileSpan, HeaderError>)
    ensures
        r == section_region(s@, len as nat),
{
    match section_file_range(s) {
        None => Err(HeaderError::TextHasNoFileRange),
        Some((lo, hi)) => if hi <= len as u64 {
            Ok(FileSpan { addr: s.addr, lo, hi })
        } else {
            Err(HeaderError::TextPastEnd)
        },
    }
}

/// The place of a segment's bytes in a file of `len` bytes.
pub fn locate_segment(p: &Segment, len: usize) -> (r: Result<FileSpan, HeaderError>)
    ensures
        r == segment_region(*p, len as nat),
{
    match p.offset.checked_add(p.filesz) {
        None => Err(HeaderError::SegmentOverflow),
        Some(end) => if end > len as u64 {
            Err(HeaderError::SegmentPastEnd)
        } else {
            Ok(FileSpan { addr: p.vaddr, lo: p.offset, hi: end })
        },
    }
}

/// The `.text` section of an ELF image in a file of `len` bytes.
pub fn locate_elf_text(i: &ElfImage, len: usize) -> (r: Result<FileSpan, HeaderError>)
    ensures
        r == elf_text(i@, len as nat),
{
    match find_section(&i.sections, ".text") {
        Some(k) => locate_section(&i.sections[k], len),
        None => Err(HeaderError::TextNotFound),
    }
}

/// The code of an ELF image in a file of `len` bytes.
pub fn locate_elf_code(i: &ElfImage, len: usize) -> (r: Result<FileSpan, HeaderError>)
    ensures
        r == elf_code(i@, len as nat),
{
    match find_section(&i.sections, ".text") {
        Some(k) => locate_section(&i.sections[k], len),
        None => match find_exec_load(&i.segments) {
            Some(k) => locate_segment(&i.segments[k], len),
            None => Err(HeaderError::NoCode),
        },
    }
}

/// The code of a PE image in a file of `len` bytes.
pub fn locate_pe_code(i: &PeImage, len: usize) -> (r: Result<FileSpan, HeaderError>)
    ensures
        r == pe_code(i@, len as nat),
{
    let mut k: usize = 0;
    while k < i.sections.len()
        invariant
            k <= i.sections@.len(),
            first_pe_named(i@.sections, ".text"@, 0) == first_pe_named(
                i@.sections,
                ".text"@,
                k as int,
            ),
        decreases i.sections@.len() - k,
    {
        let s: &PeSection = &i.sections[k];
        proof {
            assert(i@.sections[k as int] == s@);
        }
        if is_named(&s.name, ".text") {
            let lo: u64 = s.offset as u64;
            let hi: u64 = lo + s.size as u64;
            if hi > len as u64 {
                return Err(HeaderError::TextPastEnd);
            }
            return match i.base.checked_add(s.rva as u64) {
                Some(addr) => Ok(FileSpan { addr, lo, hi }),
                None => Err(HeaderError::AddressOverflow),
            };
        }
        k += 1;
    }
    Err(HeaderError::TextNotFound)
}

proof fn lemma_min_elf_is_bare(vaddr: u64, payload: Seq<u8>)
    requires
        payload.len() <= u64::MAX,
    ensures
        ({
            let b = min_elf(vaddr, payload);
            &&& is_bare_elf(b)
            &&& b.len() == 120 + payload.len()
            &&& b.subrange(120, b.len() as int) == payload
            &&& bare_elf(b).segments == seq![
                Segment {
                    kind: PT_LOAD,
                    flags: 5,
                    offset: 120,
                    filesz: payload.len() as u64,
                    vaddr,
                },
            ]
        }),
{
    let b = min_elf(vaddr, payload);
    let n = payload.len();
    law_min_elf_layout(vaddr, payload);
    assert(b.subrange(120, b.len() as int) =~= b.skip(120));
    reveal_with_fuel(pow256, 9);
    law_le_round_trip(0, 8);
    law_le_round_trip(2, 2);
    law_le_round_trip(62, 2);
    law_le_round_trip(1, 4);
    law_le_round_trip(vaddr as nat, 8);
    law_le_round_trip(64, 8);
    law_le_round_trip(0, 4);
    law_le_round_trip(64, 2);
    law_le_round_trip(56, 2);
    law_le_round_trip(1, 2);
    law_le_round_trip(0, 2);
    law_le_round_trip(5, 4);
    law_le_round_trip(120, 8);
    law_le_round_trip(n, 8);
    law_le_round_trip(0x1000, 8);
    assert(min_elf_ehdr(vaddr).len() == 64);
    assert(b.take(6) =~= seq![0x7fu8, 0x45, 0x4c, 0x46, 2, 1]);
    assert(b.subrange(32, 40) =~= le_bytes(64, 8));
    assert(b.subrange(40, 48) =~= le_bytes(0, 8));
    assert(b.subrange(56, 58) =~= le_bytes(1, 2));
    assert(b.subrange(64, 68) =~= le_bytes(1, 4));
    assert(b.subrange(68, 72) =~= le_bytes(5, 4));
    assert(b.subrange(72, 80) =~= le_bytes(120, 8));
    assert(b.subrange(80, 88) =~= le_bytes(vaddr as nat, 8));
    assert(b.subrange(96, 104) =~= le_bytes(n, 8));
}

/// Whether an image begins as a Mach-O file of one architecture.
fn begins_thin_mach(bytes: &[u8]) -> (r: bool)
    ensures
        r == is_thin_mach(bytes@),
{
    if bytes.len() < 4 {
        return false;
    }
    let m: (u8, u8, u8, u8) = (bytes[0], bytes[1], bytes[2], bytes[3]);
    let r: bool = (m.1 == 0xfa && m.2 == 0xed && m.3 == 0xfe && (m.0 == 0xcf || m.0 == 0xce)) || (
    m.0 == 0xfe && m.1 == 0xed && m.2 == 0xfa && (m.3 == 0xcf || m.3 == 0xce));
    proof {
        let t = bytes@.take(4);
        assert(t =~= seq![m.0, m.1, m.2, m.3]);
        assert(t[0] == m.0 && t[1] == m.1 && t[2] == m.2 && t[3] == m.3);
    }
    r
}

/// The format of an image.
fn find_kind(bytes: &[u8]) -> (r: Option<ObjectKind>)
    ensures
        r == image_kind(bytes@),
        is_bare_elf(bytes@) ==> r == Some(ObjectKind::Elf),
{
    proof {
        if is_bare_elf(bytes@) {
            assert(bytes@.take(6)[0] == bytes@.take(4)[0]);
        }
    }
    if begins_thin_mach(bytes) {
        return Some(ObjectKind::Other);
    }
    match object_kind(bytes) {
        Ok(k) => Some(k),
        Err(_) => None,
    }
}

/// The code of an executable: its load address and its bytes.
///
/// An ELF contributes its `.text` section, or its first executable segment where
/// section headers are stripped; a PE its `.text` section. What was put into a
/// minimal executable comes back.
pub fn extract_text_section(buffer: &[u8]) -> (r: Result<(u64, &[u8]), HeaderError>)
    ensures
        match image_code(buffer@) {
            Err(e) => r == Err::<(u64, &[u8]), HeaderError>(e),
            Ok(g) => r matches Ok(t) && t.0 == g.addr && t.1@ == buffer@.subrange(
                g.lo as int,
                g.hi as int,
            ),
        },
        forall|vaddr: u64, payload: Seq<u8>|
            buffer@ == #[trigger] min_elf(vaddr, payload) ==> (r matches Ok(t) && t.0 == vaddr
                && t.1@ == payload),
{
    let n: usize = buffer.len();
    let place: Result<FileSpan, HeaderError> = match find_kind(buffer) {
        None => Err(HeaderError::Unreadable),
        Some(ObjectKind::Other) => Err(HeaderError::Unsupported),
        Some(ObjectKind::Elf) => match read_elf(buffer) {
            Err(_) => Err(HeaderError::Unreadable),
            Ok(i) => locate_elf_code(&i, n),
        },
        Some(ObjectKind::Pe) => match read_pe(buffer) {
            Err(_) => Err(HeaderError::Unreadable),
            Ok(i) => locate_pe_code(&i, n),
        },
    };
    proof {
        assert forall|vaddr: u64, payload: Seq<u8>| buffer@ == #[trigger] min_elf(vaddr, payload)
            implies place matches Ok(g) && g.addr == vaddr && buffer@.subrange(
            g.lo as int,
            g.hi as int,
        ) == payload by {
            law_min_elf_layout(vaddr, payload);
            lemma_min_elf_is_bare(vaddr, payload);
            let i = bare_elf(buffer@);
            assert(first_named(i.sections, ".text"@, 0) is None);
            assert(5u32 & 1u32 != 0) by (bit_vector);
            assert(first_exec_load(i.segments, 0) == Some(0int));
        }
    }
    match place {
        Err(e) => Err(e),
        Ok(g) => Ok((g.addr, slice_subrange(buffer, g.lo as usize, g.hi as usize))),
    }
}

/// The headers of an ELF image.
pub fn open_elf(bytes: &[u8]) -> (r: Result<ElfImage, HeaderError>)
    ensures
        match r {
            Ok(i) => image_kind(bytes@) == Some(ObjectKind::Elf) && parsed_elf(bytes@) == Some(i@),
            Err(HeaderError::NotElf) => image_kind(bytes@) is Some && image_kind(bytes@) != Some(
                ObjectKind::Elf,
            ),
            Err(e) => e == HeaderError::Unreadable && (image_kind(bytes@) is None || (image_kind(
                bytes@,
            ) == Some(ObjectKind::Elf) && parsed_elf(bytes@) is None)),
        },
{
    match find_kind(bytes) {
        None => Err(HeaderError::Unreadable),
        Some(ObjectKind::Elf) => match read_elf(bytes) {
            Err(_) => Err(HeaderError::Unreadable),
            Ok(i) => Ok(i),
        },
        Some(_) => Err(HeaderError::NotElf),
    }
}

/// The `.text` section of an ELF: its load address and its bytes.
pub fn extract_text(bytes: &[u8]) -> (r: Result<(u64, &[u8]), HeaderError>)
    ensures
        match elf_only(bytes@, |i: ElfImageView| elf_text(i, bytes@.len())) {
            Err(e) => r == Err::<(u64, &[u8]), HeaderError>(e),
            Ok(g) => r matches Ok(t) && t.0 == g.addr && t.1@ == bytes@.subrange(
                g.lo as int,
                g.hi as int,
            ),
        },
{
    let n: usize = bytes.len();
    match open_elf(bytes) {
        Err(e) => Err(e),
        Ok(i) => match locate_elf_text(&i, n) {
            Err(e) => Err(e),
            Ok(g) => Ok((g.addr, slice_subrange(bytes, g.lo as usize, g.hi as usize))),
        },
    }
}

/// The entry point of an ELF.
pub fn elf_entry(bytes: &[u8]) -> (r: Result<u64, HeaderError>)
    ensures
        r == elf_only(bytes@, |i: ElfImageView| Ok(i.entry)),
{
    match open_elf(bytes) {
        Err(e) => Err(e),
        Ok(i) => Ok(i.entry),
    }
}

/// Where the entry point stands in the header of a 64-bit ELF.
pub const E_ENTRY_OFFSET: usize = 24;

/// The entry point of a little-endian 64-bit ELF, read straight from its header;
/// zero where the buffer is too short for one.
pub fn read_e_entry(bytes: &[u8]) -> (r: u64)
    ensures
        r == (if bytes@.len() < E_ENTRY_OFFSET + 8 {
            0
        } else {
            le_value(bytes@.subrange(E_ENTRY_OFFSET as int, E_ENTRY_OFFSET + 8)) as int
        }),
        bytes@.len() < 32 ==> r == 0,
        forall|vaddr: u64, payload: Seq<u8>|
            bytes@ == #[trigger] min_elf(vaddr, payload) ==> r == vaddr,
{
    proof {
        assert forall|vaddr: u64, payload: Seq<u8>| bytes@ == #[trigger] min_elf(vaddr, payload)
            implies bytes@.len() >= 32 && le_value(bytes@.subrange(24, 32)) == vaddr by {
            law_min_elf_layout(vaddr, payload);
            law_min_elf_entry(vaddr, payload);
        }
    }
    if bytes.len() < E_ENTRY_OFFSET + 8 {
        return 0;
    }
    read_u64(bytes, E_ENTRY_OFFSET)
}

// ── Laws ───────────────────────────────────────────────────────────────────

/// A region that was found lies inside the file.
pub proof fn law_code_lies_in_the_file(bytes: Seq<u8>)
    ensures
        image_code(bytes) matches Ok(g) ==> g.lo <= g.hi <= bytes.len(),
{
}

proof fn lemma_first_named(sections: Seq<SectionView>, name: Seq<char>, from: int)
    requires
        0 <= from,
    ensures
        match first_named(sections, name, from) {
            Some(k) => {
                &&& from <= k < sections.len()
                &&& sections[k].name == Some(name)
                &&& forall|j: int|
                    from <= j < k ==> (#[trigger] sections[j]).name != Some(name)
            },
            None => forall|j: int|
                from <= j < sections.len() ==> (#[trigger] sections[j]).name != Some(name),
        },
    decreases sections.len() - from,
{
    if from < sections.len() && sections[from].name != Some(name) {
        lemma_first_named(sections, name, from + 1);
    }
}

/// Section headers win: the executable segment counts only where no section is
/// called `.text`.
pub proof fn law_text_section_wins(i: ElfImageView, len: nat, k: int)
    requires
        0 <= k < i.sections.len(),
        i.sections[k].name == Some(".text"@),
        forall|j: int| 0 <= j < k ==> (#[trigger] i.sections[j]).name != Some(".text"@),
    ensures
        elf_code(i, len) == section_region(i.sections[k], len),
        elf_code(i, len) == elf_text(i, len),
{
    lemma_first_named(i.sections, ".text"@, 0);
}

proof fn lemma_first_exec(segments: Seq<Segment>, from: int)
    requires
        0 <= from,
    ensures
        match first_exec_load(segments, from) {
            Some(k) => from <= k < segments.len() && is_exec_load(segments[k]) && forall|j: int|
                from <= j < k ==> !is_exec_load(#[trigger] segments[j]),
            None => forall|j: int| from <= j < segments.len() ==> !is_exec_load(
                #[trigger] segments[j],
            ),
        },
    decreases segments.len() - from,
{
    if from < segments.len() && !is_exec_load(segments[from]) {
        lemma_first_exec(segments, from + 1);
    }
}

/// Without a section called `.text`, code is the first segment that is mapped (type 1)
/// and may be executed (flag bit 0), where it lies in the file; without either there is
/// none.
pub proof fn law_code_of_a_sectionless_image(i: ElfImageView, len: nat, k: int)
    requires
        forall|j: int| 0 <= j < i.sections.len() ==> (#[trigger] i.sections[j]).name != Some(
            ".text"@,
        ),
    ensures
        elf_text(i, len) == Err::<FileSpan, HeaderError>(HeaderError::TextNotFound),
        (forall|j: int|
            0 <= j < i.segments.len() ==> !((#[trigger] i.segments[j]).kind == 1
                && i.segments[j].flags & 1u32 != 0)) ==> elf_code(i, len) == Err::<
            FileSpan,
            HeaderError,
        >(HeaderError::NoCode),
        0 <= k < i.segments.len() && i.segments[k].kind == 1 && i.segments[k].flags & 1u32 != 0 && (
        forall|j: int|
            0 <= j < k ==> !((#[trigger] i.segments[j]).kind == 1 && i.segments[j].flags & 1u32
                != 0)) ==> {
            let p = i.segments[k];
            &&& p.offset + p.filesz <= len && p.offset + p.filesz <= u64::MAX ==> (elf_code(
                i,
                len,
            ) matches Ok(g) && g.addr == p.vaddr && g.lo == p.offset && g.hi - g.lo == p.filesz)
            &&& p.offset + p.filesz > u64::MAX ==> elf_code(i, len) == Err::<
                FileSpan,
                HeaderError,
            >(HeaderError::SegmentOverflow)
            &&& len < p.offset + p.filesz <= u64::MAX ==> elf_code(i, len) == Err::<
                FileSpan,
                HeaderError,
            >(HeaderError::SegmentPastEnd)
        },
{
    lemma_first_named(i.sections, ".text"@, 0);
    if let Some(x) = first_named(i.sections, ".text"@, 0) {
        assert(i.sections[x].name != Some(".text"@));
    }
    lemma_first_exec(i.segments, 0);
    if let Some(x) = first_exec_load(i.segments, 0) {
        assert(i.segments[x].kind == 1 && i.segments[x].flags & 1u32 != 0);
        if 0 <= k < x {
            assert(!is_exec_load(i.segments[k]));
        }
    } else if 0 <= k < i.segments.len() {
        assert(!is_exec_load(i.segments[k]));
    }
}

/// A section takes as many bytes of the file from its offset on as it is long; one of
/// type 8 takes none, and one that does not end in the file cannot be read.
pub proof fn law_bytes_of_a_section(s: SectionView, len: nat)
    ensures
        s.kind == 8 ==> section_region(s, len) == Err::<FileSpan, HeaderError>(
            HeaderError::TextHasNoFileRange,
        ),
        s.kind != 8 && s.offset + s.size <= u64::MAX ==> {
            &&& s.offset + s.size <= len ==> (section_region(s, len) matches Ok(g) && g.addr
                == s.addr && g.lo == s.offset && g.hi - g.lo == s.size)
            &&& s.offset + s.size > len ==> section_region(s, len) == Err::<FileSpan, HeaderError>(
                HeaderError::TextPastEnd,
            )
        },
{
}

proof fn lemma_first_pe(sections: Seq<PeSectionView>, name: Seq<char>, from: int)
    requires
        0 <= from,
    ensures
        match first_pe_named(sections, name, from) {
            Some(k) => from <= k < sections.len() && sections[k].name == Some(name) && forall|j: int|
                from <= j < k ==> (#[trigger] sections[j]).name != Some(name),
            None => forall|j: int| from <= j < sections.len() ==> (#[trigger] sections[j]).name
                != Some(name),
        },
    decreases sections.len() - from,
{
    if from < sections.len() && sections[from].name != Some(name) {
        lemma_first_pe(sections, name, from + 1);
    }
}

/// The code of a PE image is its first section called `.text`: its bytes in the file,
/// loaded at the base and the section's own offset.
pub proof fn law_code_of_a_pe(i: PeImageView, len: nat, k: int)
    ensures
        (forall|j: int|
            0 <= j < i.sections.len() ==> (#[trigger] i.sections[j]).name != Some(".text"@)) ==> pe_code(
            i,
            len,
        ) == Err::<FileSpan, HeaderError>(HeaderError::TextNotFound),
        0 <= k < i.sections.len() && i.sections[k].name == Some(".text"@) && (forall|j: int|
            0 <= j < k ==> (#[trigger] i.sections[j]).name != Some(".text"@)) ==> {
            let s = i.sections[k];
            &&& s.offset + s.size > len ==> pe_code(i, len) == Err::<FileSpan, HeaderError>(
                HeaderError::TextPastEnd,
            )
            &&& s.offset + s.size <= len && i.base + s.rva > u64::MAX ==> pe_code(i, len) == Err::<
                FileSpan,
                HeaderError,
            >(HeaderError::AddressOverflow)
            &&& s.offset + s.size <= len && i.base + s.rva <= u64::MAX ==> (pe_code(
                i,
                len,
            ) matches Ok(g) && g.addr == i.base + s.rva && g.lo == s.offset && g.hi - g.lo
                == s.size)
        },
{
    lemma_first_pe(i.sections, ".text"@, 0);
    if let Some(x) = first_pe_named(i.sections, ".text"@, 0) {
        if 0 <= k < x {
            assert(i.sections[k].name != Some(".text"@));
        }
        if x < k && k < i.sections.len() {
            assert(i.sections[x].name == Some(".text"@));
        }
    }
}

/// Only ELF and PE images have code; what does not parse is unreadable, and what is
/// neither is not supported. Where an ELF image is asked for, any other is refused.
pub proof fn law_formats(bytes: Seq<u8>)
    ensures
        image_kind(bytes) is None ==> image_code(bytes) == Err::<FileSpan, HeaderError>(
            HeaderError::Unreadable,
        ),
        image_kind(bytes) == Some(ObjectKind::Other) ==> image_code(bytes) == Err::<
            FileSpan,
            HeaderError,
        >(HeaderError::Unsupported),
        image_kind(bytes) == Some(ObjectKind::Elf) ==> (parsed_elf(bytes) matches Some(i)
            ==> image_code(bytes) == elf_code(i, bytes.len())),
        image_kind(bytes) == Some(ObjectKind::Pe) ==> (parsed_pe(bytes) matches Some(i)
            ==> image_code(bytes) == pe_code(i, bytes.len())),
        image_kind(bytes) == Some(ObjectKind::Pe) || image_kind(bytes) == Some(ObjectKind::Other)
            ==> elf_only(bytes, |i: ElfImageView| Ok::<u64, HeaderError>(i.entry)) == Err::<
            u64,
            HeaderError,
        >(HeaderError::NotElf),
{
}

/// A thin Mach-O image begins with FE ED FA and CE or CF, or with these bytes turned
/// around.
pub proof fn law_thin_mach_magic(b: Seq<u8>)
    ensures
        is_thin_mach(b) <==> b.len() >= 4 && {
            ||| b[0] == 0xfe && b[1] == 0xed && b[2] == 0xfa && (b[3] == 0xce || b[3] == 0xcf)
            ||| (b[0] == 0xce || b[0] == 0xcf) && b[1] == 0xfa && b[2] == 0xed && b[3] == 0xfe
        },
        is_thin_mach(b) ==> image_kind(b) == Some(ObjectKind::Other),
{
    if b.len() >= 4 {
        let t = b.take(4);
        assert(t[0] == b[0] && t[1] == b[1] && t[2] == b[2] && t[3] == b[3]);
        assert(t == seq![0xcfu8, 0xfa, 0xed, 0xfe] <==> b[0] == 0xcf && b[1] == 0xfa && b[2] == 0xed
            && b[3] == 0xfe) by {
            if b[0] == 0xcf && b[1] == 0xfa && b[2] == 0xed && b[3] == 0xfe {
                assert(t =~= seq![0xcfu8, 0xfa, 0xed, 0xfe]);
            }
        }
        assert(t == seq![0xceu8, 0xfa, 0xed, 0xfe] <==> b[0] == 0xce && b[1] == 0xfa && b[2] == 0xed
            && b[3] == 0xfe) by {
            if b[0] == 0xce && b[1] == 0xfa && b[2] == 0xed && b[3] == 0xfe {
                assert(t =~= seq![0xceu8, 0xfa, 0xed, 0xfe]);
            }
        }
        assert(t == seq![0xfeu8, 0xed, 0xfa, 0xcf] <==> b[0] == 0xfe && b[1] == 0xed && b[2] == 0xfa
            && b[3] == 0xcf) by {
            if b[0] == 0xfe && b[1] == 0xed && b[2] == 0xfa && b[3] == 0xcf {
                assert(t =~= seq![0xfeu8, 0xed, 0xfa, 0xcf]);
            }
        }
        assert(t == seq![0xfeu8, 0xed, 0xfa, 0xce] <==> b[0] == 0xfe && b[1] == 0xed && b[2] == 0xfa
            && b[3] == 0xce) by {
            if b[0] == 0xfe && b[1] == 0xed && b[2] == 0xfa && b[3] == 0xce {
                assert(t =~= seq![0xfeu8, 0xed, 0xfa, 0xce]);
            }
        }
    }
}

} // verus!
