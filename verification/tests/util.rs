use sbpf_coverage::util::{
    command_output, compute_hash, find_files_with_extension, has_extension, DirEntry,
};

#[test]
fn hashes_are_sha256_in_hexadecimal() {
    assert_eq!(
        compute_hash(b"abc"),
        "ba7816bf8f01cfea414140de5dae2223b00361a396177a9cb410ff61f20015ad"
    );
    assert_eq!(
        compute_hash(b""),
        "e3b0c44298fc1c149afbf4c8996fb92427ae41e4649b934ca495991b7852b855"
    );
}

#[test]
fn extensions() {
    assert!(has_extension("program.so", "so"));
    assert!(has_extension("program.so.debug", "debug"));
    assert!(has_extension("..so", "so"));
    assert!(has_extension("program.", ""));
    assert!(!has_extension("program.so.debug", "so"));
    assert!(!has_extension(".so", "so"));
    assert!(!has_extension("so", "so"));
    assert!(!has_extension("..", ""));
    assert!(!has_extension("program.SO", "so"));
}

#[test]
fn files_are_selected_by_extension() {
    let entry = |name: &str, is_file: bool| DirEntry { name: name.to_string(), is_file };
    let entries = vec![
        entry("a.so", true),
        entry("b.so", false),
        entry("c.debug", true),
        entry("d.so", true),
    ];
    assert_eq!(find_files_with_extension(&entries, "so"), vec![0, 3]);
    assert_eq!(find_files_with_extension(&entries, "debug"), vec![2]);
    assert_eq!(find_files_with_extension(&entries, "regs"), Vec::<usize>::new());
}

#[test]
fn output_is_read_byte_for_byte() {
    assert_eq!(command_output(b"  rustc 1.89.0-dev \n"), "rustc 1.89.0-dev");
    assert_eq!(command_output(&[0xe9, b'!', 0xa0]), "\u{e9}!");
    assert_eq!(command_output(b""), "");
}
