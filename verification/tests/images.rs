use probdisasm::bench::map_entry;
use probdisasm::dwarf::find_lowest_advance;
use probdisasm::forge::{forge_file, ForgeError};
use probdisasm::image::{
    elf_entry, extract_text, extract_text_section, open_elf, read_e_entry, HeaderError,
};
use probdisasm::synth::{build_min_elf, DataKind};
use probdisasm::truth::{compute, truth_with, BatchTotals, TruthError};

struct Part {
    name: &'static str,
    kind: u32,
    flags: u64,
    addr: u64,
    link: u32,
    info: u32,
    entsize: u64,
    data: Vec<u8>,
}

fn part(name: &'static str, kind: u32, data: Vec<u8>) -> Part {
    Part { name, kind, flags: 0, addr: 0, link: 0, info: 0, entsize: 0, data }
}

fn push(out: &mut Vec<u8>, x: u64, n: usize) {
    out.extend_from_slice(&x.to_le_bytes()[..n]);
}

fn build_elf(machine: u16, entry: u64, parts: &[Part]) -> Vec<u8> {
    let mut names = vec![0u8];
    let mut name_at = Vec::new();
    for p in parts {
        name_at.push(names.len());
        names.extend_from_slice(p.name.as_bytes());
        names.push(0);
    }
    let names_name = names.len();
    names.extend_from_slice(b".shstrtab\0");

    let mut body = Vec::new();
    let mut at = Vec::new();
    for p in parts {
        at.push(64 + body.len());
        body.extend_from_slice(&p.data);
    }
    let names_at = 64 + body.len();
    body.extend_from_slice(&names);
    let table_at = 64 + body.len();

    let mut out = vec![0x7f, b'E', b'L', b'F', 2, 1, 1, 0];
    push(&mut out, 0, 8);
    push(&mut out, 2, 2);
    push(&mut out, machine as u64, 2);
    push(&mut out, 1, 4);
    push(&mut out, entry, 8);
    push(&mut out, 0, 8);
    push(&mut out, table_at as u64, 8);
    push(&mut out, 0, 4);
    push(&mut out, 64, 2);
    push(&mut out, 56, 2);
    push(&mut out, 0, 2);
    push(&mut out, 64, 2);
    push(&mut out, parts.len() as u64 + 2, 2);
    push(&mut out, parts.len() as u64 + 1, 2);
    out.extend_from_slice(&body);
    out.extend_from_slice(&[0u8; 64]);
    for (i, p) in parts.iter().enumerate() {
        push(&mut out, name_at[i] as u64, 4);
        push(&mut out, p.kind as u64, 4);
        push(&mut out, p.flags, 8);
        push(&mut out, p.addr, 8);
        push(&mut out, at[i] as u64, 8);
        push(&mut out, p.data.len() as u64, 8);
        push(&mut out, p.link as u64, 4);
        push(&mut out, p.info as u64, 4);
        push(&mut out, 1, 8);
        push(&mut out, p.entsize, 8);
    }
    push(&mut out, names_name as u64, 4);
    push(&mut out, 3, 4);
    push(&mut out, 0, 8);
    push(&mut out, 0, 8);
    push(&mut out, names_at as u64, 8);
    push(&mut out, names.len() as u64, 8);
    push(&mut out, 0, 8);
    push(&mut out, 1, 8);
    push(&mut out, 0, 8);
    out
}

const CODE: [u8; 8] = [0x55, 0x48, 0x89, 0xe5, 0x5d, 0xc3, 0x90, 0x90];

fn text(addr: u64, code: &[u8]) -> Part {
    let mut p = part(".text", 1, code.to_vec());
    p.flags = 6;
    p.addr = addr;
    p
}

fn symbols(list: &[(&str, u8, u64)]) -> (Vec<u8>, Vec<u8>) {
    let mut strings = vec![0u8];
    let mut table = vec![0u8; 24];
    for (name, info, value) in list {
        push(&mut table, strings.len() as u64, 4);
        table.push(*info);
        table.push(0);
        push(&mut table, 1, 2);
        push(&mut table, *value, 8);
        push(&mut table, 0, 8);
        strings.extend_from_slice(name.as_bytes());
        strings.push(0);
    }
    (table, strings)
}

fn debug_abbrev() -> Vec<u8> {
    vec![
        1, 0x11, 1, 0x11, 0x01, 0x10, 0x17, 0, 0, 2, 0x2e, 0, 0x11, 0x01, 0, 0, 0,
    ]
}

fn debug_info(low: u64, function: u64) -> Vec<u8> {
    let mut unit = Vec::new();
    push(&mut unit, 4, 2);
    push(&mut unit, 0, 4);
    unit.push(8);
    unit.push(1);
    push(&mut unit, low, 8);
    push(&mut unit, 0, 4);
    unit.push(2);
    push(&mut unit, function, 8);
    unit.push(0);
    let mut out = Vec::new();
    push(&mut out, unit.len() as u64, 4);
    out.extend_from_slice(&unit);
    out
}

fn debug_line(start: u64) -> Vec<u8> {
    let head = [
        1u8, 1, 0xfb, 14, 13, 0, 1, 1, 1, 1, 0, 0, 0, 1, 0, 0, 1, 0, 0,
    ];
    let mut program = vec![0, 9, 2];
    push(&mut program, start, 8);
    program.push(1);
    program.extend_from_slice(&[2, 1, 1]);
    program.extend_from_slice(&[2, 5, 0, 1, 1]);
    let mut unit = Vec::new();
    push(&mut unit, 2, 2);
    push(&mut unit, head.len() as u64, 4);
    unit.extend_from_slice(&head);
    unit.extend_from_slice(&program);
    let mut out = Vec::new();
    push(&mut out, unit.len() as u64, 4);
    out.extend_from_slice(&unit);
    out
}

fn described(machine: u16, code: &[u8], syms: &[(&str, u8, u64)], info: Vec<u8>) -> Vec<u8> {
    let (table, strings) = symbols(syms);
    let mut symtab = part(".symtab", 2, table);
    symtab.link = 3;
    symtab.info = 1;
    symtab.entsize = 24;
    build_elf(
        machine,
        0x401000,
        &[
            text(0x401000, code),
            symtab,
            part(".strtab", 3, strings),
            part(".debug_abbrev", 1, debug_abbrev()),
            part(".debug_info", 1, info),
            part(".debug_line", 1, debug_line(0x401000)),
        ],
    )
}

#[test]
fn test_extract_text_section_not_found() {
    let buffer = &[0u8; 64];
    let result = extract_text_section(buffer);
    assert!(result.is_err());
}

#[test]
fn text_section_of_an_elf() {
    let elf = build_elf(62, 0x401002, &[text(0x401000, &CODE)]);
    let (addr, code) = extract_text_section(&elf).unwrap();
    assert_eq!((addr, code), (0x401000, &CODE[..]));
    let (addr, code) = extract_text(&elf).unwrap();
    assert_eq!((addr, code), (0x401000, &CODE[..]));
    assert_eq!(elf_entry(&elf), Ok(0x401002));
    assert_eq!(read_e_entry(&elf), 0x401002);
    assert_eq!(open_elf(&elf).unwrap().sections.len(), 3);
}

#[test]
fn executable_segment_stands_in_for_stripped_sections() {
    let elf = build_min_elf(0x10000, &CODE);
    let (addr, code) = extract_text_section(&elf).unwrap();
    assert_eq!((addr, code), (0x10000, &CODE[..]));
    assert_eq!(extract_text(&elf).unwrap_err(), HeaderError::TextNotFound);
    assert_eq!(elf_entry(&elf), Ok(0x10000));
}

fn build_pe(section: &[u8; 8]) -> Vec<u8> {
    let mut out = vec![0u8; 0x200];
    out[0] = b'M';
    out[1] = b'Z';
    out[0x3c] = 0x40;
    let mut pe = b"PE\0\0".to_vec();
    push(&mut pe, 0x8664, 2);
    push(&mut pe, 1, 2);
    push(&mut pe, 0, 4);
    push(&mut pe, 0, 4);
    push(&mut pe, 0, 4);
    push(&mut pe, 240, 2);
    push(&mut pe, 0x22, 2);
    push(&mut pe, 0x20b, 2);
    push(&mut pe, 0, 2);
    push(&mut pe, 0x200, 4);
    push(&mut pe, 0, 4);
    push(&mut pe, 0, 4);
    push(&mut pe, 0x1000, 4);
    push(&mut pe, 0x1000, 4);
    push(&mut pe, 0x1_4000_0000, 8);
    push(&mut pe, 0x1000, 4);
    push(&mut pe, 0x200, 4);
    for _ in 0..6 {
        push(&mut pe, 0, 2);
    }
    push(&mut pe, 0, 4);
    push(&mut pe, 0x2000, 4);
    push(&mut pe, 0x200, 4);
    push(&mut pe, 0, 4);
    push(&mut pe, 3, 2);
    push(&mut pe, 0, 2);
    for _ in 0..4 {
        push(&mut pe, 0x1000, 8);
    }
    push(&mut pe, 0, 4);
    push(&mut pe, 16, 4);
    for _ in 0..16 {
        push(&mut pe, 0, 8);
    }
    pe.extend_from_slice(section);
    push(&mut pe, 8, 4);
    push(&mut pe, 0x1000, 4);
    push(&mut pe, 8, 4);
    push(&mut pe, 0x200, 4);
    push(&mut pe, 0, 8);
    push(&mut pe, 0, 4);
    push(&mut pe, 0x6000_0020, 4);
    out[0x40..0x40 + pe.len()].copy_from_slice(&pe);
    out.extend_from_slice(&CODE);
    out
}

#[test]
fn text_section_of_a_pe() {
    let pe = build_pe(b".text\0\0\0");
    let (addr, code) = extract_text_section(&pe).unwrap();
    assert_eq!((addr, code), (0x1_4000_1000, &CODE[..]));
    assert_eq!(extract_text(&pe).unwrap_err(), HeaderError::NotElf);
}

#[test]
fn a_pe_without_text_has_no_code() {
    let pe = build_pe(b".code\0\0\0");
    assert_eq!(extract_text_section(&pe).unwrap_err(), HeaderError::TextNotFound);
}

#[test]
fn an_archive_is_not_supported() {
    let mut ar = b"!<arch>\n".to_vec();
    ar.extend_from_slice(b"/               0           0     0     0       4         `\n");
    ar.extend_from_slice(&[0, 0, 0, 0]);
    assert!(extract_text_section(&ar).is_err());
}

#[test]
fn a_mach_file_is_not_supported() {
    for magic in [0xfeed_facfu32, 0xfeed_face] {
        for start in [magic.to_be_bytes(), magic.to_le_bytes()] {
            let mut b = start.to_vec();
            assert_eq!(extract_text_section(&b).unwrap_err(), HeaderError::Unsupported);
            b.resize(64, 0);
            assert_eq!(extract_text_section(&b).unwrap_err(), HeaderError::Unsupported);
            assert_eq!(elf_entry(&b), Err(HeaderError::NotElf));
            assert_eq!(open_elf(&b).unwrap_err(), HeaderError::NotElf);
            assert_eq!(extract_text_section(&b[..3]).unwrap_err(), HeaderError::Unreadable);
        }
    }
}

#[test]
fn the_lowest_advance_is_found_anywhere() {
    let mut b = vec![0x80u8; 9];
    assert!(!find_lowest_advance(&b));
    b.push(0x7f);
    assert!(find_lowest_advance(&b));
    assert!(!find_lowest_advance(&b[1..]));
    b.insert(0, 0x80);
    b.push(3);
    assert!(find_lowest_advance(&b));
    b[5] = 0x81;
    assert!(!find_lowest_advance(&b));
    assert!(!find_lowest_advance(&[]));
}

#[test]
fn short_files_have_no_entry() {
    assert_eq!(read_e_entry(&[0u8; 31]), 0);
    let mut b = vec![0u8; 32];
    b[24] = 7;
    assert_eq!(read_e_entry(&b), 7);
    assert_eq!(map_entry(7, 0x1000, 16), 0x1000);
    assert_eq!(map_entry(0x100f, 0x1000, 16), 0x100f);
    assert_eq!(map_entry(0x1010, 0x1000, 16), 0x1000);
}

#[test]
fn ground_truth_of_a_small_function() {
    let elf = described(62, &CODE, &[("main", 2, 0x401000)], debug_info(0x401000, 0x401000));
    let c = compute(&elf).unwrap();
    let list = |s: &std::collections::BTreeSet<u64>| s.iter().copied().collect::<Vec<_>>();
    assert_eq!(list(&c.insn_min), vec![0x401000, 0x401001, 0x401004, 0x401005]);
    assert_eq!(
        list(&c.insn_max),
        vec![0x401000, 0x401001, 0x401004, 0x401005, 0x401006, 0x401007]
    );
    assert_eq!(list(&c.fn_min), vec![0x401000]);
    assert!(c.fn_max.contains(&0x401000));
    assert_eq!(c.leaks, 0);
    assert!(c.contained());
    assert_eq!(c.neutral(), 2);
    assert_eq!(c.listing.len(), 6);
    assert_eq!(c.audit_line(0), "    401000  MIN  push       rbp  <FUNC>");
    assert_eq!(c.audit_line(5), "    401007  NEU  nop        ");

    let mut totals = BatchTotals::new();
    assert!(totals.record(&Ok(c)));
    assert!(!totals.record(&Err(TruthError::Unreadable)));
    assert_eq!(
        totals,
        BatchTotals { ok: 1, failed: 1, violated: 0, sum_min: 4, sum_max: 6 }
    );
}

#[test]
fn line_rows_anchor_instructions_without_symbols() {
    let elf = described(62, &CODE, &[], debug_info(0x401000, 0x500000));
    let c = compute(&elf).unwrap();
    assert!(c.insn_min.contains(&0x401001));
    assert!(c.fn_min.is_empty());
}

#[test]
fn a_function_inside_an_instruction_leaks() {
    let elf = described(62, &CODE, &[], debug_info(0x401000, 0x401002));
    let c = compute(&elf).unwrap();
    assert!(!c.contained());
    assert_eq!(c.leaks, 1);
    let mut totals = BatchTotals::new();
    assert!(!totals.record(&Ok(c)));
    assert_eq!(totals.violated, 1);
}

#[test]
fn ground_truth_of_aarch64() {
    let code = [0x1f, 0x20, 0x03, 0xd5, 0xc0, 0x03, 0x5f, 0xd6];
    let elf = described(183, &code, &[("f", 2, 0x401000)], debug_info(0x401000, 0x401000));
    let c = compute(&elf).unwrap();
    assert_eq!(c.lines.len(), 2);
    assert_eq!(c.lines[0].mnemonic, "nop");
    assert_eq!(c.lines[1].mnemonic, "ret");
    assert!(c.lines[1].is_term);
}

#[test]
fn ground_truth_of_arm_leaves_marked_data_out() {
    let code = [0x1e, 0xff, 0x2f, 0xe1, 0x1e, 0xff, 0x2f, 0xe1];
    let elf = described(
        40,
        &code,
        &[("$a", 0, 0x401000), ("$d", 0, 0x401004)],
        debug_info(0x401000, 0x401000),
    );
    let c = compute(&elf).unwrap();
    assert_eq!(c.lines.len(), 1);
    assert_eq!(c.lines[0].mnemonic, "bx");
}

#[test]
fn ground_truth_errors() {
    assert_eq!(compute(&[0u8; 64]).unwrap_err(), TruthError::Unreadable);
    let mips = described(8, &CODE, &[], debug_info(0x401000, 0x401000));
    assert_eq!(compute(&mips).unwrap_err(), TruthError::Machine(8));
    let mut broken = debug_info(0x401000, 0x401000);
    broken[0] = 0x7f;
    let bad = described(62, &CODE, &[], broken);
    assert_eq!(compute(&bad).unwrap_err(), TruthError::BadDebugInfo);
    let mut line = debug_line(0x401000);
    line.extend_from_slice(&[0x80; 9]);
    let trailing = |line: Vec<u8>| {
        build_elf(62, 0x401000, &[text(0x401000, &CODE), part(".debug_line", 1, line)])
    };
    assert!(compute(&trailing(line.clone())).is_ok());
    line.push(0x7f);
    assert_eq!(compute(&trailing(line)).unwrap_err(), TruthError::BadDebugInfo);
    let wild = build_elf(62, 0, &[text(u64::MAX - 1, &CODE)]);
    assert_eq!(compute(&wild).unwrap_err(), TruthError::SectionOverflow);
}

#[test]
fn forged_executable_keeps_the_code() {
    let elf = build_elf(62, 0x401000, &[text(0x401000, &CODE)]);
    let f = forge_file(&elf, DataKind::Code, 1, 4).unwrap();
    assert_eq!((f.vaddr, f.code_end, f.decoy_end), (0x401000, 0x401008, 0x40100c));
    let (addr, payload) = extract_text_section(&f.elf).unwrap();
    assert_eq!(addr, 0x401000);
    assert_eq!(&payload[..8], &CODE[..]);
    assert_eq!(&payload[8..], &[CODE[2], CODE[3], CODE[4], CODE[5]]);
    assert_eq!(
        f.regions,
        "# region\tlabel\tvaddr_start\tvaddr_end\tkind\n\
         code\tpositive\t0x401000\t0x401008\treal\n\
         decoy\tnegative\t0x401008\t0x40100c\tCode\n"
    );
}

#[test]
fn nothing_is_forged_past_the_address_space() {
    let elf = build_elf(62, 0, &[text(0x401000, &CODE)]);
    assert_eq!(
        forge_file(&elf, DataKind::Xorshift, 1, usize::MAX).unwrap_err(),
        ForgeError::TooLong
    );
    assert_eq!(
        forge_file(&[0u8; 64], DataKind::Xorshift, 1, 4).unwrap_err(),
        ForgeError::Header(HeaderError::NotElf)
    );
}

#[test]
fn a_minimal_executable_reads_back() {
    for (vaddr, n) in [(0u64, 1usize), (0x401000, 7), (u64::MAX, 3), (0x10, 0)] {
        let payload: Vec<u8> = (0..n).map(|i| i as u8 ^ 0x5a).collect();
        let elf = build_min_elf(vaddr, &payload);
        assert_eq!(extract_text_section(&elf).ok(), Some((vaddr, &payload[..])));
    }
}

#[test]
fn no_decoder_means_no_truth() {
    let elf = build_min_elf(0x1000, &[0x90]);
    let image = open_elf(&elf).unwrap();
    let none = Err(capstone::Error::OutOfMemory);
    let r = truth_with(none, &elf, &image, &Vec::new(), &Vec::new(), &Vec::new(), 1);
    assert_eq!(r.unwrap_err(), TruthError::DecoderUnavailable);
}
