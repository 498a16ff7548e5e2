use sbpf_coverage::coverage::{build_file_line_count_map, keep_with_lines, FileLineCountMap};
use sbpf_coverage::dwarf::{Entry, VaddrEntryMap};
use sbpf_coverage::line_report::write_lcov;

fn entries() -> VaddrEntryMap<'static> {
    let mut map = VaddrEntryMap::new();
    map.insert(0x100, Entry { file: "/src/b.rs", line: 20 });
    map.insert(0x108, Entry { file: "/src/b.rs", line: 3 });
    map.insert(0x110, Entry { file: "/src/a.rs", line: 7 });
    map.insert(0x118, Entry { file: "/src/b.rs", line: 20 });
    map.insert(0x120, Entry { file: "/src/b.rs", line: 100 });
    map
}

#[test]
fn lines_are_counted() {
    let counts = build_file_line_count_map(&entries(), &vec![0x100, 0x118, 0x100, 0x110, 0x999]);
    assert_eq!(counts.get("/src/b.rs", 20), Some(3));
    assert_eq!(counts.get("/src/b.rs", 3), Some(0));
    assert_eq!(counts.get("/src/b.rs", 100), Some(0));
    assert_eq!(counts.get("/src/a.rs", 7), Some(1));
    assert_eq!(counts.get("/src/a.rs", 8), None);
    assert_eq!(counts.get("/src/c.rs", 7), None);
}

#[test]
fn files_are_listed_in_the_order_of_their_names() {
    let counts = build_file_line_count_map(&entries(), &vec![]);
    let files: Vec<&str> = counts.files.iter().map(|f| f.file).collect();
    assert_eq!(files, vec!["/src/a.rs", "/src/b.rs"]);
}

#[test]
fn counts_can_be_set() {
    let mut counts = FileLineCountMap::new();
    counts.set("m", 1, 4);
    counts.set("a", 1, 5);
    counts.set("z", 9, 6);
    counts.set("m", 1, 7);
    counts.set("m", 2, 8);
    assert_eq!(counts.get("m", 1), Some(7));
    assert_eq!(counts.get("m", 2), Some(8));
    assert_eq!(counts.get("a", 1), Some(5));
    assert_eq!(counts.get("z", 9), Some(6));
    let files: Vec<&str> = counts.files.iter().map(|f| f.file).collect();
    assert_eq!(files, vec!["a", "m", "z"]);
}

#[test]
fn counts_add_up_to_line_hits() {
    let vaddrs = vec![0x100, 0x118, 0x999, 0x120, 0x7, 0x110, 0x110];
    let kept = keep_with_lines(&entries(), &vaddrs);
    assert_eq!(kept, vec![0x100, 0x118, 0x120, 0x110, 0x110]);
    let counts = build_file_line_count_map(&entries(), &vaddrs);
    let sum: usize = counts.files.iter().map(|f| f.lines.values().sum::<usize>()).sum();
    assert_eq!(sum, kept.len());
    let same = build_file_line_count_map(&entries(), &kept);
    assert_eq!(write_lcov(&same), write_lcov(&counts));
}

#[test]
fn line_report() {
    let counts = build_file_line_count_map(&entries(), &vec![0x100, 0x118, 0x110]);
    assert_eq!(
        write_lcov(&counts),
        "SF:/src/a.rs\nDA:7,1\nend_of_record\n\
         SF:/src/b.rs\nDA:3,0\nDA:20,2\nDA:100,0\nend_of_record\n"
    );
    assert_eq!(write_lcov(&FileLineCountMap::new()), "");
}

#[test]
fn joined_and_reordered_traces() {
    let first = vec![0x100, 0x118, 0x110];
    let second = vec![0x108, 0x100, 0x999];
    let joined: Vec<u64> = first.iter().chain(second.iter()).copied().collect();
    let reordered: Vec<u64> = joined.iter().rev().copied().collect();
    let counts = |vaddrs: &Vec<u64>| build_file_line_count_map(&entries(), vaddrs);
    for (file, line) in [("/src/b.rs", 20), ("/src/b.rs", 3), ("/src/a.rs", 7), ("/src/b.rs", 100)] {
        assert_eq!(
            counts(&joined).get(file, line).unwrap(),
            counts(&first).get(file, line).unwrap() + counts(&second).get(file, line).unwrap()
        );
    }
    assert_eq!(write_lcov(&counts(&joined)), write_lcov(&counts(&reordered)));
}
