use flate2::read::DeflateDecoder;
use probdisasm::adversary::{
    append, append_labelled, clean_offsets, desync, fires, interleave, nop_sled, packed_body,
    read_gt_vaddrs, set_of, xorshift,
};
use probdisasm::forge::{forge, forge_file, ForgeError};
use probdisasm::image::{extract_text_section, HeaderError};
use probdisasm::synth::{build_min_elf, make_data, parse_kind, xorshift_step, xorshift_stream, DataKind};
use probdisasm::upx::{parse_upx_layout, UpxError};
use std::collections::BTreeSet;
use std::io::Read;

fn set(v: &[u64]) -> BTreeSet<u64> {
    v.iter().copied().collect()
}

/// An ELF whose only code is a `.text` section.
fn text_elf(vaddr: u64, code: &[u8]) -> Vec<u8> {
    let names = b"\0.text\0.shstrtab\0";
    let table = 64 + code.len() + names.len();
    let mut out = vec![0x7f, b'E', b'L', b'F', 2, 1, 1, 0, 0, 0, 0, 0, 0, 0, 0, 0];
    let put = |out: &mut Vec<u8>, x: u64, n: usize| out.extend_from_slice(&x.to_le_bytes()[..n]);
    put(&mut out, 2, 2);
    put(&mut out, 62, 2);
    put(&mut out, 1, 4);
    put(&mut out, vaddr, 8);
    put(&mut out, 0, 8);
    put(&mut out, table as u64, 8);
    put(&mut out, 0, 4);
    put(&mut out, 64, 2);
    put(&mut out, 56, 2);
    put(&mut out, 0, 2);
    put(&mut out, 64, 2);
    put(&mut out, 3, 2);
    put(&mut out, 2, 2);
    out.extend_from_slice(code);
    out.extend_from_slice(names);
    out.extend_from_slice(&[0u8; 64]);
    for (name, kind, flags, addr, at, len) in [
        (1, 1, 6, vaddr, 64, code.len()),
        (7, 3, 0, 0, 64 + code.len(), names.len()),
    ] {
        put(&mut out, name, 4);
        put(&mut out, kind, 4);
        put(&mut out, flags, 8);
        put(&mut out, addr, 8);
        put(&mut out, at as u64, 8);
        put(&mut out, len as u64, 8);
        put(&mut out, 0, 8);
        put(&mut out, 1, 8);
        put(&mut out, 0, 8);
    }
    out
}

#[test]
fn address_lists_are_sorted_and_checked() {
    assert_eq!(read_gt_vaddrs("0x20\n\n 10 \n"), Ok(vec![0x10, 0x20]));
    assert_eq!(read_gt_vaddrs("10\nzz\n"), Err(1));
    assert_eq!(clean_offsets(&vec![0x0f, 0x10, 0x14, 0x18], 0x10, 8), vec![0, 4]);
    assert_eq!(set_of(&vec![3, 1, 3]), set(&[1, 3]));
}

#[test]
fn appended_bytes_carry_no_starts() {
    let c = append(&[0x90, 0xc3], &set(&[0, 1]), &[1, 2, 3]);
    assert_eq!(c.payload, vec![0x90, 0xc3, 1, 2, 3]);
    assert_eq!(c.starts, set(&[0, 1]));
    assert_eq!((c.added, c.added_starts), (3, 0));
    let l = append_labelled(&[0x90, 0xc3], &set(&[0, 1]), &[0x90, 0x90], &vec![0, 1]);
    assert_eq!(l.starts, set(&[0, 1, 2, 3]));
    assert_eq!((l.added, l.added_starts), (2, 2));
}

#[test]
fn desync_puts_a_prefix_before_each_chosen_start() {
    let code = [0x90, 0x91, 0x92, 0x93];
    let c = desync(&code, &set(&[0, 1, 2, 3]), 2);
    assert_eq!(c.added, 2);
    assert_eq!(c.payload.len(), 6);
    assert_eq!(c.starts.len(), 4);
    let kept: Vec<u8> = c.starts.iter().map(|&a| c.payload[a as usize]).collect();
    assert_eq!(kept, code.to_vec());
    let none = desync(&code, &set(&[0, 1, 2, 3]), 50);
    assert_eq!((none.payload.clone(), none.added), (code.to_vec(), 0));
}

#[test]
fn regions_are_filled_as_described() {
    assert_eq!(nop_sled(3), vec![0x90; 3]);
    let rnd = vec![1, 2, 3, 4];
    assert_eq!(interleave(&rnd, &[11, 12, 13, 14], 2), vec![1, 3, 11, 12]);
    assert_eq!(xorshift(0, 4).len(), 4);
    assert_eq!(xorshift(0, 4), xorshift(1, 4));
    assert_eq!(xorshift_stream(7, 9).len(), 9);
    assert_ne!(xorshift_step(1), 1);
    assert_eq!(fires(true, true), "S_glob+S_spat");
    assert_eq!(fires(true, false), "S_glob");
    assert_eq!(fires(false, true), "S_spat");
    assert_eq!(fires(false, false), "none");
}

#[test]
fn compressed_data_inflates_to_its_source() {
    let donor: Vec<u8> = xorshift_stream(5, 64);
    let body = packed_body(&donor);
    assert_eq!(body.len(), donor.len());
    let mut out = vec![0u8; 16];
    DeflateDecoder::new(&body[..]).read_exact(&mut out).unwrap();
    assert_eq!(out, donor[..16].to_vec());

    let d = make_data(DataKind::Compressed, 3, &donor, 40);
    assert_eq!(d.len(), 40);
    assert_ne!(d, donor[..40].to_vec());
    assert_eq!(make_data(DataKind::Xorshift, 3, &donor, 40), xorshift_stream(3, 40));
    assert_eq!(make_data(DataKind::Code, 3, &donor, 100).len(), 100);
    assert_eq!(parse_kind("random"), Some(DataKind::Xorshift));
    for kind in [DataKind::Xorshift, DataKind::Compressed, DataKind::Code] {
        assert_eq!(make_data(kind, 3, &[], 40), make_data(DataKind::Xorshift, 3, &donor, 40));
    }
    assert_eq!(parse_kind("deflate"), Some(DataKind::Compressed));
    assert_eq!(parse_kind("odd"), None);
}

#[test]
fn forged_images_keep_the_code() {
    let f = forge(0x401000, &[0x90, 0xc3], DataKind::Xorshift, 1, 6);
    assert_eq!((f.code_end, f.decoy_end), (0x401002, 0x401008));
    let (vaddr, text) = extract_text_section(&f.elf).unwrap();
    assert_eq!((vaddr, &text[..2], text.len()), (0x401000, &[0x90, 0xc3][..], 8));
    assert_eq!(
        f.regions,
        "# region\tlabel\tvaddr_start\tvaddr_end\tkind\n\
         code\tpositive\t0x401000\t0x401002\treal\n\
         decoy\tnegative\t0x401002\t0x401008\tXorshift\n"
    );
    let elf = text_elf(0x401000, &[0x90]);
    assert_eq!(
        forge_file(&elf, DataKind::Code, 1, usize::MAX).err(),
        Some(ForgeError::TooLong)
    );
    assert!(matches!(
        forge_file(&[0u8; 8], DataKind::Code, 1, 8).err(),
        Some(ForgeError::Header(HeaderError::NotElf | HeaderError::Unreadable))
    ));
}

fn packed(blocks: &[(u32, u32)], tail: usize) -> Vec<u8> {
    let mut p = vec![0u8; 8];
    p.extend_from_slice(b"UPX!");
    p.extend_from_slice(&[0u8; 8]);
    p.extend_from_slice(&4096u32.to_le_bytes());
    p.extend_from_slice(&[0u8; 4]);
    for (unc, cpr) in blocks {
        p.extend_from_slice(&unc.to_le_bytes());
        p.extend_from_slice(&cpr.to_le_bytes());
        p.extend_from_slice(&[8, 0, 0, 0]);
        p.extend(std::iter::repeat(0xaa).take(*cpr as usize));
    }
    p.extend(std::iter::repeat(0u8).take(tail));
    build_min_elf(0x400000, &p)
}

#[test]
fn packed_blocks_are_located() {
    let l = parse_upx_layout(&packed(&[(100, 10), (200, 30)], 16)).unwrap();
    assert_eq!(l.p_filesize, 4096);
    assert_eq!(l.blocks.len(), 2);
    assert_eq!((l.blocks[1].sz_unc, l.blocks[1].sz_cpr, l.blocks[1].method), (200, 30, 8));
    assert_eq!(l.magic_file_off, l.exec_file.0 + 8);
    let first = l.exec_vaddr + 8 + 20 + 12;
    assert_eq!(l.compressed, (first, first + 10 + 12 + 30));
    assert_eq!(l.conservative, (first + 10 + 12, first + 10 + 12 + 30));
    assert_eq!(l.stub.1, l.exec_vaddr + (l.exec_file.1 - l.exec_file.0) as u64);
    assert!(l.compressed.0 <= l.conservative.0 && l.conservative.1 <= l.compressed.1);
}

#[test]
fn unpacked_images_are_told_apart() {
    assert_eq!(parse_upx_layout(&packed(&[], 16)).err(), Some(UpxError::NoBlocks));
    assert_eq!(
        parse_upx_layout(&build_min_elf(0x400000, &[0x90; 64])).err(),
        Some(UpxError::NoMagic)
    );
    assert_eq!(
        parse_upx_layout(&build_min_elf(0x400000, b"UPX!")).err(),
        Some(UpxError::Truncated)
    );
    assert!(matches!(parse_upx_layout(&[0u8; 4]).err(), Some(UpxError::Header(_))));
}
