use probdisasm::cli::ArgFault;
use probdisasm::gauntlet::{
    check_artifact, parse_desync_log, parse_generate_args, standard_registry, starts_in,
    tool_candidates, ArtifactFault, Availability, Bucket, CodeInData, DesyncCc, GenConfig, GenError,
    Generator, Headerless, ParamValue, Registry, RunContext, Seed,
};
use probdisasm::hashing::{fnv1a, fnv1a_hex, splitmix64};
use probdisasm::image::HeaderError;
use probdisasm::labels::{GroundTruth, LabelFault, Region, RegionKind, RegionLabel};
use probdisasm::synth::build_min_elf;
use std::collections::BTreeSet;

fn strings(v: &[&str]) -> Vec<String> {
    v.iter().map(|s| s.to_string()).collect()
}

fn run(tool: Option<&str>) -> RunContext {
    RunContext { version: "1.2.3".to_string(), now: 77, tool: tool.map(|t| t.to_string()) }
}

/// An ELF whose only code is a `.text` section.
fn text_elf(vaddr: u64, code: &[u8]) -> Vec<u8> {
    let names = b"\0.text\0.shstrtab\0";
    let table = 64 + code.len() + names.len();
    let mut out = vec![0x7f, b'E', b'L', b'F', 2, 1, 1, 0, 0, 0, 0, 0, 0, 0, 0, 0];
    let put = |out: &mut Vec<u8>, x: u64, n: usize| out.extend_from_slice(&x.to_le_bytes()[..n]);
    put(&mut out, 2, 2);
    put(&mut out, 62, 2);
    put(&mut out, 1, 4);
    put(&mut out, vaddr, 8);
    put(&mut out, 0, 8);
    put(&mut out, table as u64, 8);
    put(&mut out, 0, 4);
    put(&mut out, 64, 2);
    put(&mut out, 56, 2);
    put(&mut out, 0, 2);
    put(&mut out, 64, 2);
    put(&mut out, 3, 2);
    put(&mut out, 2, 2);
    out.extend_from_slice(code);
    out.extend_from_slice(names);
    out.extend_from_slice(&[0u8; 64]);
    for (name, kind, flags, addr, at, len) in [
        (1, 1, 6, vaddr, 64, code.len()),
        (7, 3, 0, 0, 64 + code.len(), names.len()),
    ] {
        put(&mut out, name, 4);
        put(&mut out, kind, 4);
        put(&mut out, flags, 8);
        put(&mut out, addr, 8);
        put(&mut out, at as u64, 8);
        put(&mut out, len as u64, 8);
        put(&mut out, 0, 8);
        put(&mut out, 1, 8);
        put(&mut out, 0, 8);
    }
    out
}

fn seed(bytes: Vec<u8>) -> Seed {
    Seed::from_contents(
        Some("prog".to_string()),
        "/tmp/prog".to_string(),
        bytes,
        "401000\n401001\n500000\n",
    )
}

fn region(start: u64, end: u64, label: RegionLabel) -> Region {
    Region { start, end, label, kind: RegionKind::RealCode, note: String::new() }
}

fn truth(starts: &[u64], regions: Vec<Region>) -> GroundTruth {
    GroundTruth {
        instruction_starts: starts.iter().copied().collect(),
        regions,
        provenance: String::new(),
    }
}

#[test]
fn desync_log_parses_hex_lines() {
    let log = "0x401000\n401004\n# comment\n0x40100a\n";
    let got = parse_desync_log(log);
    assert_eq!(got.len(), 3);
    assert!(got.contains(&0x401000) && got.contains(&0x401004) && got.contains(&0x40100a));
}

#[test]
fn hashes_are_the_published_ones() {
    assert_eq!(fnv1a(b""), 0xcbf2_9ce4_8422_2325);
    assert_eq!(fnv1a(b"a"), 0xaf63_dc4c_8601_ec8c);
    assert_eq!(fnv1a_hex(b"foobar"), "fnv1a64:85944171f73967e8");
    assert_eq!(splitmix64(0), 0xe220_a839_7b1d_cdaf);
}

#[test]
fn decoy_is_appended_as_data() {
    let code = vec![0x90, 0xc3];
    let s = seed(text_elf(0x401000, &code));
    let cfg = GenConfig { seed_rng: 1, region_bytes: 5 };
    let a = CodeInData.generate(&s, &cfg, &run(None)).unwrap();
    assert_eq!(a.out_name, "prog__native-code-in-data");
    let starts: Vec<u64> = a.gt.instruction_starts.iter().copied().collect();
    assert_eq!(starts, vec![0x401000, 0x401001]);
    assert_eq!(a.gt.regions.len(), 2);
    assert_eq!((a.gt.regions[0].start, a.gt.regions[0].end), (0x401000, 0x401002));
    assert_eq!((a.gt.regions[1].start, a.gt.regions[1].end), (0x401002, 0x401007));
    assert_eq!(a.gt.regions[1].label, RegionLabel::Data);
    assert_eq!(a.gt.regions[1].kind, RegionKind::JunkDecoy);
    assert_eq!(a.gt.validate(0x401000, 0x401007), Ok(()));
    assert_eq!(a.binary.len(), 120 + 7);
    assert_eq!(&a.binary[120..122], &code[..]);
    assert_eq!(a.manifest.bucket, "A:layout-encoding");
    assert_eq!(a.manifest.created_unix, 77);
    assert_eq!(a.manifest.generator_version, "1.2.3");
    assert_eq!(a.manifest.binary_hash, fnv1a_hex(&a.binary));
    assert_eq!(a.manifest.seed.content_hash, fnv1a_hex(&s.bytes));
    assert!(a
        .manifest
        .params
        .iter()
        .any(|(k, v)| k == "region_bytes" && matches!(v, ParamValue::Number(5))));

    let none = GenConfig { seed_rng: 1, region_bytes: 0 };
    assert_eq!(
        CodeInData.generate(&s, &none, &run(None)).err(),
        Some(GenError::Labels(LabelFault::EmptyRegion(1)))
    );
    let huge = GenConfig { seed_rng: 1, region_bytes: usize::MAX };
    assert_eq!(CodeInData.generate(&s, &huge, &run(None)).err(), Some(GenError::TooLarge));
    let broken = seed(vec![1, 2, 3]);
    assert!(matches!(
        CodeInData.generate(&broken, &cfg, &run(None)).err(),
        Some(GenError::Seed(HeaderError::NotElf) | GenError::Seed(HeaderError::Unreadable))
    ));
}

#[test]
fn headerless_keeps_code_and_starts() {
    let code = vec![0x90, 0xc3];
    let s = seed(text_elf(0x401000, &code));
    let cfg = GenConfig { seed_rng: 1, region_bytes: 5 };
    let a = Headerless.generate(&s, &cfg, &run(None)).unwrap();
    assert_eq!(a.binary, build_min_elf(0x401000, &code));
    assert_eq!(a.gt.regions.len(), 1);
    assert_eq!(a.gt.instruction_starts.len(), 2);
    assert_eq!(a.out_name, "prog__native-headerless");
}

#[test]
fn artifacts_reproduce_and_check_out() {
    let s = seed(text_elf(0x401000, &[0x90, 0xc3]));
    let cfg = GenConfig { seed_rng: 1, region_bytes: 5 };
    let later = RunContext { version: "2.0.0".to_string(), now: 99, tool: None };
    for g in standard_registry().generators() {
        if !g.availability(&None).is_available() {
            continue;
        }
        let a = g.generate(&s, &cfg, &run(None)).unwrap();
        let b = g.generate(&s, &cfg, &later).unwrap();
        assert_eq!(a.binary, b.binary);
        assert_eq!(a.out_name, b.out_name);
        assert_eq!(a.gt.instruction_starts, b.gt.instruction_starts);
        assert_eq!(a.manifest.binary_hash, b.manifest.binary_hash);
        let end = 0x401000 + (a.binary.len() as u64 - 120);
        assert_eq!(a.gt.validate(0x401000, end), Ok(()));
        let hash = a.manifest.binary_hash.clone();
        assert_eq!(check_artifact(&Some(a.binary), true, true, &hash), vec![]);
        let again = Seed::from_contents(None, String::new(), vec![], &a.gt.gt_text());
        assert_eq!(again.gt, a.gt.instruction_starts);
        assert_eq!(again.name, "seed");
    }
    assert_eq!(Registry::<CodeInData>::default().generators().len(), 0);
}

#[test]
fn tool_and_source_are_asked_for_in_turn() {
    let s = seed(Vec::new());
    let cfg = GenConfig { seed_rng: 1, region_bytes: 5 };
    assert_eq!(DesyncCc.generate(&s, &cfg, &run(None)).err(), Some(GenError::ToolMissing));
    assert_eq!(
        DesyncCc.generate(&s, &cfg, &run(Some("/bin/x"))).err(),
        Some(GenError::SourceMissing)
    );
    let s = s.with_source("a.c".to_string());
    assert_eq!(DesyncCc.generate(&s, &cfg, &run(Some("/bin/x"))).err(), Some(GenError::NotWired));
    assert!(!DesyncCc.availability(&None).is_available());
    assert!(DesyncCc.availability(&Some("/bin/x".to_string())).is_available());
    assert!(matches!(CodeInData.availability(&None), Availability::Available));
}

#[test]
fn registry_finds_generators_by_name() {
    let r = standard_registry();
    assert_eq!(r.generators().len(), 3);
    assert_eq!(r.position("desync-cc"), Some(2));
    assert!(r.get("native-headerless").is_some());
    assert_eq!(r.get("native-headerless").unwrap().bucket(), Bucket::LayoutEncoding);
    assert!(r.get("nothing").is_none());
    assert_eq!(r.choose_generators(&Vec::new()), Ok(vec![0, 1, 2]));
    assert_eq!(r.choose_generators(&strings(&["desync-cc", "native-code-in-data"])), Ok(vec![2, 0]));
    assert_eq!(r.choose_generators(&strings(&["desync-cc", "nothing"])), Err(1));
}

#[test]
fn tools_are_looked_up_in_order() {
    let v = tool_candidates(&Some("/opt/x".to_string()), &Some("/a::/b".to_string()), "tool");
    assert_eq!(v, strings(&["/opt/x", "/a/tool", "/b/tool"]));
    assert_eq!(tool_candidates(&Some(String::new()), &None, "tool"), Vec::<String>::new());
}

#[test]
fn artifacts_are_checked_for_every_part() {
    let hash = fnv1a_hex(&[1, 2]);
    assert_eq!(check_artifact(&Some(vec![1, 2]), true, true, &hash), vec![]);
    assert_eq!(
        check_artifact(&Some(vec![1, 3]), true, false, &hash),
        vec![ArtifactFault::NoRegions, ArtifactFault::WrongHash]
    );
    assert_eq!(
        check_artifact(&None, false, true, &hash),
        vec![ArtifactFault::NoBinary, ArtifactFault::NoStarts]
    );
}

#[test]
fn labels_must_tile_and_hold_every_start() {
    let code = RegionLabel::Code;
    let data = RegionLabel::Data;
    let good = vec![region(0, 4, code), region(4, 6, data)];
    assert_eq!(truth(&[0, 3], good.clone()).validate(0, 6), Ok(()));
    assert_eq!(truth(&[], vec![]).validate(0, 6), Err(LabelFault::NoRegions));
    assert_eq!(
        truth(&[], vec![region(0, 0, code)]).validate(0, 6),
        Err(LabelFault::EmptyRegion(0))
    );
    assert_eq!(
        truth(&[], vec![region(0, 4, code), region(5, 6, data)]).validate(0, 6),
        Err(LabelFault::GapOrOverlap(1))
    );
    assert_eq!(truth(&[], good.clone()).validate(0, 7), Err(LabelFault::WrongEnd(6)));
    assert_eq!(truth(&[9], good.clone()).validate(0, 6), Err(LabelFault::StartOutside(9)));
    assert_eq!(truth(&[5], good.clone()).validate(0, 6), Err(LabelFault::StartNotInCode(5)));
}

#[test]
fn label_files_have_the_written_form() {
    let mut g = truth(&[0x401001, 0x401000], vec![region(0x401000, 0x401010, RegionLabel::Code)]);
    g.regions[0].note = "hand made".to_string();
    assert_eq!(g.gt_text(), "401000\n401001\n");
    assert_eq!(
        g.regions_text(),
        "# start\tend\tlabel\tkind\tnote\n0x401000\t0x401010\tcode\treal_code\thand made\n"
    );
}

#[test]
fn starts_outside_the_window_are_dropped() {
    let got = starts_in(&seed(Vec::new()), 0x401000, 0x401001);
    assert_eq!(got, [0x401000].into_iter().collect::<BTreeSet<u64>>());
}

#[test]
fn generate_arguments_are_read() {
    let a = parse_generate_args(&strings(&[
        "--seed-elf", "e", "--seed-gt", "g", "--out", "o", "--gen", "x", "--gen", "y",
        "--region-bytes", "12",
    ]))
    .unwrap();
    assert_eq!((a.seed_elf.as_str(), a.seed_gt.as_str(), a.out.as_str()), ("e", "g", "o"));
    assert_eq!(a.wanted, strings(&["x", "y"]));
    assert_eq!(a.cfg.region_bytes, 12);
    assert_eq!(a.cfg.seed_rng, GenConfig::default().seed_rng);
    assert_eq!(
        parse_generate_args(&strings(&["--seed-elf"])).err(),
        Some(ArgFault::MissingValue(0))
    );
    assert_eq!(parse_generate_args(&strings(&["stray"])).err(), Some(ArgFault::Unexpected(0)));
    assert_eq!(
        parse_generate_args(&strings(&["--region-bytes", "x"])).err(),
        Some(ArgFault::BadValue(1))
    );
    assert_eq!(
        parse_generate_args(&strings(&["--seed-elf", "e"])).err(),
        Some(ArgFault::Required(1))
    );
}

#[test]
fn joined_logs_list_the_union() {
    let (a, b) = ("0x10\r\n20", "zz\n0x30\n20\r");
    let union: BTreeSet<u64> = parse_desync_log(a).union(&parse_desync_log(b)).copied().collect();
    assert_eq!(union, [0x10, 0x20, 0x30].into_iter().collect::<BTreeSet<u64>>());
    assert_eq!(parse_desync_log(&format!("{a}\n{b}")), union);
    assert_eq!(parse_desync_log(&format!("{b}\n{a}")), union);
    assert_eq!(parse_desync_log(&format!("\n{a}")), parse_desync_log(a));
}

#[test]
fn splitmix_keeps_states_apart() {
    let v: BTreeSet<u64> = (0..1000).chain(u64::MAX - 1000..u64::MAX).map(splitmix64).collect();
    assert_eq!(v.len(), 2000);
}
