use addr2line::Loader;
use sbpf_coverage::branch::{checked_branches, get_branches, Branch};
use sbpf_coverage::debug_info::SourceLocation;
use sbpf_coverage::dwarf::{
    addresses_can_move, build_dwarf, build_vaddr_entry_map, dump_vaddr_entry_map,
    find_applicable_dwarf, find_dwarf, locate, located_at, next_attempt, push_line, DebugPath, Dwarf,
    Entry, Located, SoAttempt, VaddrEntryMap,
};
use sbpf_coverage::error::CoverageError;
use sbpf_coverage::process::{process_regs, report_branches};
use sbpf_coverage::trace_disassemble::{
    pc_in_disassemble, resolve_source, source_files, trace_disassemble, trace_is_in_text, Source,
};
use std::path::PathBuf;

fn loader() -> Loader {
    Loader::new("/proc/self/exe").unwrap()
}

/// A 64-bit little-endian ELF file with one section, `.text`, at the given address.
fn object(entry: u64, text: u64) -> Vec<u8> {
    let names = b"\0.text\0.shstrtab\0";
    let mut file: Vec<u8> = vec![0x7f, b'E', b'L', b'F', 2, 1, 1, 0, 0, 0, 0, 0, 0, 0, 0, 0];
    file.extend_from_slice(&[3, 0, 247, 0, 1, 0, 0, 0]);
    for word in [entry, 0, 88] {
        file.extend_from_slice(&word.to_le_bytes());
    }
    file.extend_from_slice(&[0; 4]);
    for half in [64u16, 56, 0, 64, 3, 2] {
        file.extend_from_slice(&half.to_le_bytes());
    }
    file.extend_from_slice(names);
    file.resize(88, 0);
    file.extend_from_slice(&[0; 64]);
    for (name, kind, address, size) in [(1u32, 1u32, text, 8u64), (7, 3, 0, names.len() as u64)] {
        file.extend_from_slice(&name.to_le_bytes());
        file.extend_from_slice(&kind.to_le_bytes());
        for word in [0, address, 64, size, 0, 1, 0] {
            file.extend_from_slice(&word.to_le_bytes());
        }
    }
    file
}

fn program<'a>(
    loader: &'a Loader,
    data: &'a [u8],
    content: &[u8],
) -> Dwarf<'a> {
    let mut entries = VaddrEntryMap::new();
    entries.insert(0x100, Entry { file: "/src/lib.rs", line: 2 });
    entries.insert(0x108, Entry { file: "/src/lib.rs", line: 3 });
    entries.insert(0x110, Entry { file: "/dep/a.rs", line: 1 });
    let debug_path =
        DebugPath { path: PathBuf::from("p.debug"), producer: None, lang: None };
    let so_path = PathBuf::from("p.so");
    build_dwarf(debug_path, so_path, content, data, loader, entries).unwrap()
}

#[test]
fn locations_without_a_file_are_dropped() {
    let location = |file| Some(SourceLocation { file, line: Some(4), column: Some(1) });
    let kept = located_at(16, location(Some("a.rs"))).unwrap();
    assert_eq!((kept.vaddr, kept.file, kept.line), (16, "a.rs", Some(4)));
    assert!(located_at(16, location(None)).is_none());
    assert!(located_at(16, None).is_none());
}

#[test]
fn all_instruction_addresses_are_located() {
    let loader = loader();
    let end = loader.get_section_range(b".text").unwrap().begin + 0x2000;
    let (found, error) = locate(&loader, end);
    assert!(error.is_none());
    let mut expected = Vec::new();
    let mut vaddr: u64 = 0;
    while vaddr < end {
        if let Some(location) = loader.find_location(vaddr).unwrap() {
            if let Some(file) = location.file {
                expected.push((vaddr, file.to_string(), location.line));
            }
        }
        vaddr += 8;
    }
    let found: Vec<(u64, String, Option<u32>)> =
        found.iter().map(|l| (l.vaddr, l.file.to_string(), l.line)).collect();
    assert_eq!(found, expected);
    assert!(!expected.is_empty());
    assert_eq!(locate(&loader, 0).0.len(), 0);
}

#[test]
fn entries_are_kept_for_known_lines_of_own_files() {
    let located = vec![
        Located { vaddr: 0, file: "/src/lib.rs", line: Some(1) },
        Located { vaddr: 8, file: "/src/lib.rs", line: None },
        Located { vaddr: 16, file: "/src/gone.rs", line: Some(2) },
        Located { vaddr: 24, file: "/dep/x.rs", line: Some(3) },
    ];
    let on_disk = vec![true, true, false, true];
    let own = build_vaddr_entry_map(&located, &on_disk, &vec!["/src".to_string()], false);
    assert_eq!(own.keys().copied().collect::<Vec<u64>>(), vec![0]);
    assert_eq!((own[&0].file, own[&0].line), ("/src/lib.rs", 1));
    let all = build_vaddr_entry_map(&located, &vec![], &vec![], true);
    assert_eq!(all.keys().copied().collect::<Vec<u64>>(), vec![0, 16, 24]);
}

#[test]
fn listings_leave_out_repeated_lines() {
    let mut entries = VaddrEntryMap::new();
    entries.insert(0x1f8, Entry { file: "/src/a.rs", line: 9 });
    entries.insert(0x10, Entry { file: "/src/a.rs", line: 9 });
    entries.insert(0x18, Entry { file: "/src/a.rs", line: 9 });
    entries.insert(0x20, Entry { file: "/src/a.rs", line: 10 });
    assert_eq!(
        dump_vaddr_entry_map(&entries),
        vec!["0x10: /src/a.rs:9", "0x20: /src/a.rs:10", "0x1f8: /src/a.rs:9"]
    );
    assert_eq!(dump_vaddr_entry_map(&VaddrEntryMap::new()), Vec::<String>::new());
    let mut text = String::from("at ");
    push_line(&mut text, "a.rs", 7);
    assert_eq!(text, "at a.rs:7");
}

#[test]
fn objects_are_put_together() {
    let loader = loader();
    let data = object(0x100, 0x100);
    let dwarf = program(&loader, &data, b"abc");
    assert_eq!(
        dwarf.so_hash,
        "ba7816bf8f01cfea414140de5dae2223b00361a396177a9cb410ff61f20015ad"
    );
    assert_eq!(dwarf.so_path, PathBuf::from("p.so"));
    assert_eq!(dwarf.debug_path.path, PathBuf::from("p.debug"));
    assert_eq!(dwarf.start_address, 0x100);
    assert_eq!(dwarf.text_section_offset, 0x100);
    assert_eq!(dwarf.vaddr_entry_map.len(), 3);
}

#[test]
fn objects_that_cannot_be_put_together() {
    let loader = loader();
    let build = |data: &'static [u8]| {
        let debug_path =
            DebugPath { path: PathBuf::from("p.debug"), producer: None, lang: None };
        let so_path = PathBuf::from("p.so");
        build_dwarf(debug_path, so_path, b"abc", data, &loader, VaddrEntryMap::new())
            .err()
            .map(|error| error.message())
    };
    assert_eq!(build(b"no object"), Some("Not an object file".to_string()));
    let mut bare = object(0x100, 0x100);
    let name = bare.windows(5).position(|w| w == b".text").unwrap();
    bare[name + 1] = b'T';
    assert_eq!(
        build(Vec::leak(bare)),
        Some("Can't get .text section begin address".to_string())
    );
}

#[test]
fn traces_are_moved_to_the_start_address() {
    let loader = loader();
    let data = object(0x100, 0x100);
    let hash = "ba7816bf8f01cfea414140de5dae2223b00361a396177a9cb410ff61f20015ad";
    let (early, late) = (object(0x200, 0x100), object(0x900, 0x100));
    let dwarfs = vec![
        program(&loader, &late, b"other"),
        program(&loader, &data, b"abc"),
        program(&loader, &early, b"abc"),
    ];
    let mut vaddrs = vec![0x40, 0x48, 0x10];
    assert!(addresses_can_move(&vaddrs, 0x100));
    let found = find_applicable_dwarf(&dwarfs, hash, &mut vaddrs).unwrap();
    assert_eq!(found.start_address, 0x100);
    assert_eq!(vaddrs, vec![0x100, 0x108, 0xd0]);
    find_applicable_dwarf(&dwarfs, hash, &mut vaddrs).unwrap();
    assert_eq!(vaddrs, vec![0x100, 0x108, 0xd0]);
    assert_eq!(find_dwarf(&dwarfs, hash).unwrap().start_address, 0x100);
}

#[test]
fn traces_of_unknown_programs_are_refused() {
    let loader = loader();
    let data = object(0x100, 0x100);
    let dwarfs = vec![program(&loader, &data, b"abc")];
    let mut vaddrs = vec![0x40];
    match find_applicable_dwarf(&dwarfs, "unknown", &mut vaddrs) {
        Err(CoverageError::NoExecutable { exec_sha256 }) => assert_eq!(exec_sha256, "unknown"),
        _ => panic!(),
    }
    assert_eq!(vaddrs, vec![0x40]);
    assert!(find_dwarf(&dwarfs, "unknown").is_none());
    let hash = dwarfs[0].so_hash.clone();
    assert!(matches!(
        find_applicable_dwarf(&dwarfs, &hash, &mut vec![]),
        Err(CoverageError::EmptyTrace)
    ));
}

#[test]
fn addresses_that_cannot_be_moved() {
    assert!(!addresses_can_move(&vec![0x200], 0x100));
    assert!(!addresses_can_move(&vec![0, u64::MAX], 8));
    assert!(addresses_can_move(&vec![0, u64::MAX - 8], 8));
    assert!(addresses_can_move(&vec![], 8));
}

#[test]
fn branches_have_the_lines_of_their_innermost_frames() {
    let loader = loader();
    let text = loader.get_section_range(b".text").unwrap();
    let data = object(text.begin, text.begin);
    let dwarf = program(&loader, &data, b"abc");
    // A jump over two instructions that is taken.
    let mut vaddr = text.begin;
    let mut framed = 0;
    while vaddr < text.end && framed < 20 {
        let frame = match loader.find_frames(vaddr) {
            Ok(mut frames) => frames.next().ok().flatten().map(|frame| {
                frame.location.map(|l| (l.file.map(String::from), l.line)).unwrap_or((None, None))
            }),
            Err(_) => None,
        };
        let mut after = [0u64; 12];
        after[11] = (vaddr - text.begin) / 8 + 3;
        let vaddrs = vec![vaddr, vaddr + 24];
        let insns = vec![0x0002_0015, 0x95];
        let regs = vec![[0; 12], after];
        let branches = get_branches(&vaddrs, &insns, &regs, &dwarf).unwrap();
        match frame {
            Some((file, line)) => {
                framed += 1;
                assert_eq!(branches.len(), 1);
                assert_eq!(
                    branches[&vaddr],
                    Branch { file, line, next_taken: 0, goto_taken: 1, branch_id: 1 }
                );
            }
            None => assert_eq!(branches.len(), 0),
        }
        vaddr += 0x200;
    }
    assert!(framed > 0);
    assert!(matches!(
        checked_branches(&vec![], &vec![], &vec![], &dwarf),
        Some(Ok(branches)) if branches.is_empty()
    ));
}

#[test]
fn branches_that_cannot_be_found() {
    let loader = loader();
    let data = object(0x100, 0x100);
    let dwarf = program(&loader, &data, b"abc");
    // There is no frame to look up for the last address.
    assert!(checked_branches(&vec![u64::MAX], &vec![0xb7], &vec![[0; 12]], &dwarf).is_none());
    let bare = Dwarf { data: b"no object", ..dwarf };
    assert!(matches!(
        checked_branches(&vec![u64::MAX], &vec![0xb7], &vec![[0; 12]], &bare),
        Some(Err(CoverageError::NotAnObject))
    ));
    let src_paths = vec![];
    let reports = process_regs(&bare, &vec![0x100], &vec![0xb7], &vec![[0; 12]], &src_paths);
    assert!(reports.unwrap().branches.is_none());
}

#[test]
fn shared_objects_are_looked_for_in_two_places() {
    assert_eq!(next_attempt(SoAttempt::WithSo, true), Some(SoAttempt::WithoutExtension));
    assert_eq!(next_attempt(SoAttempt::WithSo, false), None);
    assert_eq!(next_attempt(SoAttempt::WithoutExtension, true), None);
    assert_eq!(next_attempt(SoAttempt::WithoutExtension, false), None);
}

#[test]
fn reports_on_a_trace() {
    let loader = loader();
    let data = object(0x100, 0x100);
    let dwarf = program(&loader, &data, b"abc");
    let vaddrs = vec![0x100, 0x108, 0x100, 0x999];
    let insns = vec![0xb7; 4];
    let regs = vec![[0; 12]; 4];
    let reports =
        process_regs(&dwarf, &vaddrs, &insns, &regs, &vec!["/src".to_string()]).unwrap();
    assert_eq!(reports.branches, Some(String::new()));
    assert_eq!(reports.line_hits, 3);
    assert_eq!(
        reports.lines,
        "SF:/dep/a.rs\nDA:1,0\nend_of_record\nSF:/src/lib.rs\nDA:2,2\nDA:3,1\nend_of_record\n"
    );
}

#[test]
fn branch_reports_need_branches() {
    let mut branches = std::collections::BTreeMap::new();
    branches.insert(8, Branch { next_taken: 1, ..Branch::new(Some("/src/a.rs"), Some(4), 1) });
    let report = report_branches(Ok(branches), &vec!["/src".to_string()]).unwrap();
    assert_eq!(report, "\nSF:/src/a.rs\nDA:4,1\nBRDA:4,1,0,1\nBRDA:4,1,1,0\nend_of_record\n");
    assert!(report_branches(Err(CoverageError::EmptyTrace), &vec![]).is_none());
}

#[test]
fn instructions_are_counted_from_the_begin_of_the_code() {
    let loader = loader();
    let data = object(0x100, 0x100);
    let dwarf = program(&loader, &data, b"abc");
    assert_eq!(pc_in_disassemble(0x100, &dwarf).unwrap(), 0);
    assert_eq!(pc_in_disassemble(0x11f, &dwarf).unwrap(), 3);
    assert!(trace_is_in_text(&vec![0x100, 0x108], 0x100));
    assert!(!trace_is_in_text(&vec![0x100, 0xf8], 0x100));
}

#[test]
fn sources_are_resolved() {
    let content = Some("one\ntwo".to_string());
    let found = resolve_source("/src/a.rs", content.clone(), "/x/a.rs", None);
    assert_eq!((found.file.as_str(), found.mapped_path.as_str()), ("/src/a.rs", ""));
    assert_eq!(found.lines, vec!["one", "two"]);
    let mapped = resolve_source("/src/a.rs", None, "/x/a.rs", content.clone());
    assert_eq!((mapped.file.as_str(), mapped.mapped_path.as_str()), ("/src/a.rs", "/x/a.rs"));
    assert_eq!(mapped.lines, vec!["one", "two"]);
    let same = resolve_source("/src/a.rs", None, "/src/a.rs", content);
    assert_eq!((same.lines.len(), same.mapped_path.as_str()), (0, ""));
    let missing = resolve_source("/src/a.rs", None, "/x/a.rs", None);
    assert_eq!((missing.lines.len(), missing.mapped_path.as_str()), (0, ""));
}

#[test]
fn source_files_are_listed_once() {
    let loader = loader();
    let data = object(0x100, 0x100);
    let dwarf = program(&loader, &data, b"abc");
    let files = source_files(&dwarf.vaddr_entry_map, &vec![0x110, 0x999, 0x100, 0x108, 0x110]);
    assert_eq!(files, vec!["/dep/a.rs", "/src/lib.rs"]);
}

fn sources() -> Vec<Source> {
    vec![
        resolve_source("/src/lib.rs", Some("fn main() {\n    work();\n}\n".to_string()), "", None),
        resolve_source("/dep/a.rs", None, "/cargo/a.rs", Some("  let x = 1;  ".to_string())),
    ]
}

#[test]
fn annotated_disassembly() {
    let loader = loader();
    let data = object(0x100, 0x100);
    let dwarf = program(&loader, &data, b"abc");
    let printed = trace_disassemble(
        &vec!["/src".to_string()],
        "mov64 r1, r2\nexit\n",
        &vec![0x100, 0x110, 0x118],
        &dwarf,
        &sources(),
        false,
    );
    assert_eq!(
        printed,
        vec![
            "[0] (0x100) mov64 r1, r2\n  src: /src/lib.rs:2\n  code: work();",
            "[2] (0x110) exit\n  src: /dep/a.rs:1 -> /cargo/a.rs:1\n  code: let x = 1;",
            "[3] (0x118) ",
        ]
    );
}

#[test]
fn coloured_disassembly() {
    let loader = loader();
    let data = object(0x100, 0x100);
    let dwarf = program(&loader, &data, b"abc");
    let printed = trace_disassemble(
        &vec!["/src".to_string()],
        "",
        &vec![0x108, 0x110],
        &dwarf,
        &sources()[1..].iter().map(|s| Source {
            file: s.file.clone(),
            lines: s.lines.clone(),
            mapped_path: s.mapped_path.clone(),
        }).collect(),
        true,
    );
    assert_eq!(
        printed,
        vec![
            "[1] (0x108) \n  \x1b[33msrc:\x1b[0m \x1b[35m/src/lib.rs:3\x1b[0m\n  \
             \x1b[36mcode:\x1b[0m \x1b[32m\x1b[0m",
            "[2] (0x110) \n  \x1b[33msrc:\x1b[0m \x1b[34m/dep/a.rs:1 -> /cargo/a.rs:1\x1b[0m\n  \
             \x1b[36mcode:\x1b[0m \x1b[32mlet x = 1;\x1b[0m",
        ]
    );
}

/// A text without its colour codes.
fn without_colors(text: &str) -> String {
    let mut plain = String::new();
    for (i, part) in text.split("\x1b[").enumerate() {
        plain.push_str(if i == 0 { part } else { part.split_once('m').unwrap().1 });
    }
    plain
}

#[test]
fn closed_colour_codes_of_a_text_are_taken_out_too() {
    let loader = loader();
    let data = object(0x100, 0x100);
    let dwarf = program(&loader, &data, b"abc");
    let printed = |colorize: bool| {
        trace_disassemble(
            &vec!["/src".to_string()],
            "\x1b[1mmov\x1b[0m\nexit\n",
            &vec![0x100],
            &dwarf,
            &vec![resolve_source(
                "/src/lib.rs",
                Some("x\n\x1b[7mwork();\x1b[0m\n".to_string()),
                "",
                None,
            )],
            colorize,
        )
    };
    assert_eq!(without_colors(&printed(true)[0]), without_colors(&printed(false)[0]));
    assert_eq!(
        without_colors(&printed(true)[0]),
        "[0] (0x100) mov\n  src: /src/lib.rs:2\n  code: work();"
    );
}

#[test]
fn colours_change_nothing_else() {
    let loader = loader();
    let data = object(0x100, 0x100);
    let dwarf = program(&loader, &data, b"abc");
    let vaddrs = vec![0x100, 0x108, 0x110, 0x118, 0x100];
    let printed = |paths: &[&str], colorize: bool| {
        let paths: Vec<String> = paths.iter().map(|p| p.to_string()).collect();
        trace_disassemble(&paths, "mov\nexit\n", &vaddrs, &dwarf, &sources(), colorize)
    };
    let plain = printed(&["/src"], false);
    assert_eq!(plain.len(), vaddrs.len());
    assert_eq!(plain, printed(&[], false));
    for paths in [&["/src"][..], &["/dep"], &[]] {
        let coloured = printed(paths, true);
        let stripped: Vec<String> = coloured.iter().map(|text| without_colors(text)).collect();
        assert_eq!(stripped, plain);
    }
    let other: Vec<String> =
        printed(&["/src"], true).iter().map(|text| text.replace("\x1b[35m", "\x1b[34m")).collect();
    assert_eq!(other, printed(&[], true));
}
