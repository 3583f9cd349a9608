use probdisasm::addresses::{count_shared, count_window, format_addresses, parse_addresses, sorted_items};
use probdisasm::corpus::{
    build_jobs, deterministic_order, file_stem, gt_file_name, keeps_name, name_packed,
    packed_data_window, parse_hex, Bin, CorpusError, CorpusSpec, PackedSpec, WindowError,
};
use probdisasm::credibility::Role;
use probdisasm::firerate::{count_fires, read_existing};
use probdisasm::histogram::{
    byte_counts, evaluate_negatives, fill_bins, local_window, region_windows, Binned, Stretch,
};
use probdisasm::optlevels::{count_picks, nearest_index, summarize_levels};
use probdisasm::order::stable_order;
use probdisasm::regime::Regime;
use probdisasm::rows::{find_row, join_cells, CredibilityRow, LevelRow, SwitchRow};
use probdisasm::split::{assign_roles, sort_by_name, split_programs, Comparison, SplitError};
use probdisasm::table::{parse_cell, read_rows, Table, TableFault};
use std::collections::BTreeSet;

fn strings(v: &[&str]) -> Vec<String> {
    v.iter().map(|s| s.to_string()).collect()
}

fn bin(name: &str, label: &str) -> Bin {
    Bin {
        name: name.to_string(),
        bin: format!("{name}.{label}"),
        gt: format!("{name}.gt"),
        label: label.to_string(),
    }
}

fn bins(n: usize, label: &str) -> Vec<Bin> {
    (0..n).map(|i| bin(&format!("b{i}"), label)).collect()
}

fn spec(clean: usize) -> CorpusSpec {
    CorpusSpec {
        clean: bins(clean, "clean"),
        desync: bins(3, "desync"),
        packed: vec![PackedSpec {
            label: "upx".to_string(),
            elf: "/p/ls".to_string(),
            gt: "/p/ls.regions".to_string(),
        }],
        packed_holdout: Vec::new(),
        tigress: bins(2, "tig"),
        benign_holdout: Vec::new(),
        n_clean_fit: 2,
        n_clean_holdout: 2,
        n_desync_fit: 1,
        n_desync_holdout: 5,
        n_packed_fit: 1,
        n_packed_holdout: 1,
        n_tig_holdout: 1,
        seed: 7,
    }
}

#[test]
fn binaries_are_split_into_disjoint_parts() {
    let (fit, hold) = build_jobs(&spec(5)).unwrap();
    let count = |r: Regime| fit.iter().filter(|j| j.regime == r).count();
    assert_eq!((count(Regime::Benign), count(Regime::Obfuscated), count(Regime::Packed)), (2, 1, 1));
    let held = |l: &str| hold.iter().filter(|j| j.sublabel == l).count();
    assert_eq!((held("clean"), held("desync"), held("tig")), (2, 2, 1));
    for f in fit.iter().filter(|j| j.regime == Regime::Benign) {
        assert!(!hold.iter().any(|h| h.sublabel == "clean" && h.name == f.name));
    }
    assert_eq!(build_jobs(&spec(3)).err(), Some(CorpusError::NotEnoughClean(3)));
}

#[test]
fn shuffles_depend_on_the_seed_alone() {
    let v = bins(8, "x");
    let names = |seed: u64| -> Vec<String> {
        deterministic_order(&v, seed).iter().map(|b| b.name.clone()).collect()
    };
    assert_eq!(names(1), names(1));
    let mut sorted = names(1);
    sorted.sort();
    assert_eq!(sorted, v.iter().map(|b| b.name.clone()).collect::<Vec<String>>());
    assert!((2..6).any(|s| names(s) != names(1)));
}

#[test]
fn file_names_are_taken_apart() {
    assert_eq!(file_stem("/a/b/prog.elf"), "prog.elf");
    assert_eq!(file_stem("/"), "?");
    assert_eq!(file_stem(""), "?");
    assert_eq!(file_stem("prog"), "prog");
    assert_eq!(file_stem("a/prog/.//"), "prog");
    assert_eq!(file_stem("a/.."), "?");
    assert_eq!(file_stem("./."), "?");
    assert!(keeps_name("ls"));
    assert!(!keeps_name("ls.gt") && !keeps_name(".hidden") && !keeps_name("a.json") && !keeps_name("a.log"));
    assert_eq!(gt_file_name("ls"), "ls.gt");
    assert_eq!(parse_hex("0xff"), Ok(255));
    assert!(parse_hex("zz").is_err());
    let named = name_packed(&vec![PackedSpec {
        label: "upx".to_string(),
        elf: "/p/ls".to_string(),
        gt: "g".to_string(),
    }]);
    assert_eq!((named[0].label.as_str(), named[0].gt.as_str()), ("upx", "g"));
}

#[test]
fn packed_windows_are_found_in_the_table() {
    let t = "# kind label lo hi\nstub code 0x1 0x2\ncompressed data 0x10 0x20 x\n";
    assert_eq!(packed_data_window(t), Ok((0x10, 0x20)));
    assert_eq!(packed_data_window("stub code 0x1 0x2\n"), Err(WindowError::NoRow));
    assert_eq!(packed_data_window("compressed data zz 0x20\n"), Err(WindowError::BadHex));
}

#[test]
fn builds_of_a_program_stay_together() {
    let levels = vec![bins(4, "O0"), bins(4, "O2")];
    let (fit, hold) = split_programs(&levels, 1, 3).unwrap();
    assert_eq!((fit.len(), hold.len()), (2, 6));
    assert_eq!(fit[0].name, fit[1].name);
    assert!(!hold.iter().any(|b| b.name == fit[0].name));
    assert_eq!(split_programs(&levels, 4, 3).err(), Some(SplitError::TooFew(4)));
    let order: Vec<String> =
        sort_by_name(&vec![bin("b", ""), bin("a", ""), bin("B", "")]).iter().map(|b| b.name.clone()).collect();
    assert_eq!(order, strings(&["B", "a", "b"]));
}

#[test]
fn roles_are_assigned_in_order() {
    let c = Comparison {
        clean: bins(3, "clean"),
        desync: vec![bins(2, "d50"), bins(2, "d20")],
        packed: bins(1, "upx"),
        n_fit: 1,
        n_holdout: 2,
        n_desync: 1,
        seed: 5,
    };
    let jobs = assign_roles(&c).unwrap();
    let roles: Vec<Role> = jobs.iter().map(|j| j.role).collect();
    assert_eq!(
        roles,
        vec![Role::CleanFit, Role::CleanHoldout, Role::CleanHoldout, Role::Desync, Role::Desync, Role::Packed]
    );
    let few = Comparison { n_holdout: 3, ..c };
    assert_eq!(assign_roles(&few).err(), Some(CorpusError::NotEnoughClean(3)));
}

#[test]
fn tables_are_read_by_column() {
    let t = Table::load("name, n\n a ,1\n\nb,2\n").unwrap();
    assert_eq!(t.rows.len(), 2);
    assert_eq!(t.column("n"), Some(1));
    assert!(t.has("name") && !t.has("x"));
    assert_eq!(t.get(0, "name"), Some(&"a".to_string()));
    assert_eq!(t.get(1, "x"), None);
    assert_eq!(Table::load(" \n").err(), Some(TableFault::Empty));
    assert_eq!(Table::load("a,b\n1,2\n1,2,3\n").err(), Some(TableFault::Ragged(2, 3)));
    assert_eq!(read_rows("h,h\na,b\nc\n"), vec![strings(&["a", "b"]), strings(&["c"])]);
    assert_eq!(parse_cell("17"), Some(17));
    assert_eq!(parse_cell("x"), None);
}

#[test]
fn rows_read_back_as_written() {
    let mut cells = strings(&["a", "benign", "clean", "9", "100"]);
    cells.extend((0..8).map(|i| format!("0.{i}")));
    cells.extend(strings(&["packed", "benign", "packed", "obfuscated", "benign"]));
    cells.extend((0..7).map(|i| format!("1.{i}")));
    let r = SwitchRow::from_cells(&cells).unwrap();
    assert_eq!((r.n, r.code_bytes, r.picks.rule), (9, 100, Regime::Obfuscated));
    assert_eq!(r.to_cells(), cells);
    assert_eq!(join_cells(&r.to_cells()), cells.join(","));
    assert!(SwitchRow::from_cells(&cells[..24].to_vec()).is_none());
    for k in (3..13).chain(18..25) {
        let mut other = cells.clone();
        other[k] = "x".to_string();
        assert!(SwitchRow::from_cells(&other).is_none());
    }

    let mut cells = strings(&["a", "desync", "9", "0.5", "100"]);
    cells.extend((0..13).map(|i| format!("0.{i}")));
    let c = CredibilityRow::from_cells(&cells).unwrap();
    assert_eq!((c.role, c.level.as_str()), (Role::Desync, ""));
    for k in 2..18 {
        let mut other = cells.clone();
        other[k] = "NA".to_string();
        assert!(CredibilityRow::from_cells(&other).is_none());
    }
    cells.push("d50".to_string());
    assert_eq!(CredibilityRow::from_cells(&cells).unwrap().to_cells(), cells);

    assert_eq!(level("a", "O0", "fit", "NA").sig_pick, None);
    assert_eq!(find_row(&strings(&["a", "b", "a"]), "a"), Some(2));
    assert_eq!(find_row(&strings(&["a"]), "z"), None);
}

fn level(stem: &str, label: &str, split: &str, pick: &str) -> LevelRow {
    let mut cells = strings(&[stem, label, split, "9", "100"]);
    cells.extend((0..9).map(|i| format!("0.{i}")));
    cells.extend(strings(&[pick, label]));
    let r = LevelRow::from_cells(&cells).unwrap();
    assert_eq!(r.to_cells(), cells);
    r
}

#[test]
fn level_picks_are_counted() {
    let v = vec![level("a", "O0", "fit", "O0"), level("b", "O0", "holdout", "O2"), level("c", "O2", "holdout", "O2")];
    let s = count_picks(&v, None);
    assert_eq!((s.n, s.sig, s.se), (2, 1, 2));
    let o0 = count_picks(&v, Some("O0"));
    assert_eq!((o0.n, o0.sig, o0.se), (1, 0, 1));
    let rows = summarize_levels(&v, &strings(&["O0", "O1", "O2"]));
    assert_eq!(rows.iter().map(|r| r.level).collect::<Vec<usize>>(), vec![0, 2]);
    assert_eq!(rows[1].members, vec![2]);
    assert_eq!(nearest_index(&vec![Some(5), Some(3), None, Some(3)], 100), 1);
    assert_eq!(nearest_index(&vec![None, Some(100)], 100), 0);
}

#[test]
fn fire_counts_take_the_latest_row() {
    let row = |name: &str, status: &str, glob: &str, guard: &str| -> Vec<String> {
        let mut c = strings(&[name, status]);
        c.extend((2..9).map(|_| "0".to_string()));
        c.extend(strings(&[glob, "0", glob, "0", "obfuscated", guard, "0", "x"]));
        c
    };
    let rows = vec![
        row("a", "ok", "1", "benign"),
        row("b", "error", "1", "benign"),
        row("a", "ok", "0", "packed"),
    ];
    let (n, measured) = count_fires(&rows);
    assert_eq!((n.total, n.ok, n.glob, n.any), (2, 1, 0, 0));
    assert_eq!((n.rule.obfuscated, n.guard.packed), (1, 1));
    assert_eq!(measured, vec![2]);
    let text = "name,status\na,ok\nb,too_large:9\nc,error\n";
    assert_eq!(read_existing(text), strings(&["a", "c"]));
}

#[test]
fn bytes_and_windows_are_counted() {
    let c = byte_counts(&[1, 2, 1, 255]);
    assert_eq!((c.len(), c[1], c[2], c[255], c[0]), (256, 2, 1, 1, 0));
    assert_eq!(local_window(10, 4, 12), Stretch { lo: 6, hi: 12 });
    assert_eq!(local_window(1, 4, 12), Stretch { lo: 0, hi: 5 });
    assert_eq!(region_windows(100), vec![Stretch { lo: 0, hi: 100 }]);
    assert_eq!(
        region_windows(2048),
        vec![
            Stretch { lo: 0, hi: 1024 },
            Stretch { lo: 512, hi: 1536 },
            Stretch { lo: 1024, hi: 2048 },
        ]
    );
    let v = vec![
        Binned { bin: 0, positive: true },
        Binned { bin: 2, positive: false },
        Binned { bin: 0, positive: false },
    ];
    let b = fill_bins(&v, 3);
    assert_eq!(b.iter().map(|x| (x.count, x.positives)).collect::<Vec<(usize, usize)>>(), vec![(2, 1), (0, 0), (1, 0)]);
    let m = evaluate_negatives(&vec![(5, 9), (6, 3), (50, 99)], 0, 10, 8);
    assert_eq!((m.n, m.confident, m.worst), (2, 1, Some(9)));
}

#[test]
fn address_texts_read_back() {
    let s: BTreeSet<u64> = [0x20, 0x3, 0xff].into_iter().collect();
    assert_eq!(sorted_items(&s), vec![3, 0x20, 0xff]);
    assert_eq!(format_addresses(&s), "3\n20\nff\n");
    assert_eq!(parse_addresses(&format_addresses(&s)), s);
    assert_eq!(count_shared(&s, &[3, 4].into_iter().collect()), 1);
    assert_eq!(count_window(&s, 3, 0xff), 2);
    assert_eq!(stable_order(&vec![5, 1, 5, 0]), vec![3, 1, 0, 2]);
}

#[test]
fn shuffles_ignore_the_order_and_settle() {
    let names = |v: &[Bin]| -> Vec<String> { v.iter().map(|b| b.name.clone()).collect() };
    let v = bins(8, "x");
    let mut w = bins(8, "x");
    w.reverse();
    w.swap(1, 5);
    let shuffled = deterministic_order(&v, 7);
    assert_eq!(names(&deterministic_order(&w, 7)), names(&shuffled));
    assert_eq!(names(&deterministic_order(&shuffled, 7)), names(&shuffled));
}

#[test]
fn hex_reads_back_in_every_form() {
    for v in [0u64, 1, 0xabcdef, 0x401000, u64::MAX] {
        for s in [format!("{v:x}"), format!("{v:X}"), format!("0x{v:x}"), format!("0x{v:016X}")] {
            assert_eq!(parse_hex(&s), Ok(v));
            assert_eq!(parse_hex(&format!(" \t{s}\u{a0}\r\n")), Ok(v));
        }
    }
}
