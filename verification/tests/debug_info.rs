use sbpf_coverage::debug_info::{
    any_debug_section, attribute_text, get_dwarf_attribute, start_address, AttributeValue,
    DW_AT_LANGUAGE, DW_AT_PRODUCER, DW_TAG_COMPILE_UNIT,
};
use sbpf_coverage::dwarf::debug_path;
use sbpf_coverage::error::CoverageError;
use sbpf_coverage::util::get_section_start_address;
use std::path::PathBuf;

/// A 64-bit little-endian ELF file with the given sections, each at the entry address.
fn elf(entry: u64, sections: &[(&str, Vec<u8>)]) -> Vec<u8> {
    let mut names: Vec<u8> = vec![0];
    let mut headers: Vec<u8> = vec![0; 64];
    let mut body: Vec<u8> = Vec::new();
    let mut all: Vec<(&str, u32, Vec<u8>)> =
        sections.iter().map(|(name, data)| (*name, 1u32, data.clone())).collect();
    all.push((".shstrtab", 3, Vec::new()));
    let count = all.len() as u16 + 1;
    let mut offsets: Vec<u32> = Vec::new();
    for (name, _, _) in &all {
        offsets.push(names.len() as u32);
        names.extend_from_slice(name.as_bytes());
        names.push(0);
    }
    for (i, (_, kind, data)) in all.iter().enumerate() {
        let data: &[u8] = if *kind == 3 { &names } else { data };
        headers.extend_from_slice(&offsets[i].to_le_bytes());
        headers.extend_from_slice(&kind.to_le_bytes());
        headers.extend_from_slice(&0u64.to_le_bytes());
        headers.extend_from_slice(&entry.to_le_bytes());
        headers.extend_from_slice(&(64 + body.len() as u64).to_le_bytes());
        headers.extend_from_slice(&(data.len() as u64).to_le_bytes());
        headers.extend_from_slice(&[0; 8]);
        headers.extend_from_slice(&1u64.to_le_bytes());
        headers.extend_from_slice(&0u64.to_le_bytes());
        body.extend_from_slice(data);
    }
    while body.len() % 8 != 0 {
        body.push(0);
    }
    let mut file: Vec<u8> = vec![0x7f, b'E', b'L', b'F', 2, 1, 1, 0, 0, 0, 0, 0, 0, 0, 0, 0];
    file.extend_from_slice(&3u16.to_le_bytes());
    file.extend_from_slice(&247u16.to_le_bytes());
    file.extend_from_slice(&1u32.to_le_bytes());
    file.extend_from_slice(&entry.to_le_bytes());
    file.extend_from_slice(&0u64.to_le_bytes());
    file.extend_from_slice(&(64 + body.len() as u64).to_le_bytes());
    file.extend_from_slice(&0u32.to_le_bytes());
    for half in [64u16, 56, 0, 64, count, count - 1] {
        file.extend_from_slice(&half.to_le_bytes());
    }
    file.extend(body);
    file.extend(headers);
    file
}

/// Abbreviations: a compilation unit with producer and language, one with neither, a variable with
/// a producer.
fn abbreviations() -> Vec<u8> {
    vec![
        1, 0x11, 0, 0x25, 0x08, 0x13, 0x05, 0, 0, //
        2, 0x11, 1, 0, 0, //
        3, 0x34, 0, 0x25, 0x08, 0, 0, //
        0,
    ]
}

/// A unit with the given entries.
fn unit(entries: &[u8]) -> Vec<u8> {
    let mut content: Vec<u8> = vec![4, 0, 0, 0, 0, 0, 8];
    content.extend_from_slice(entries);
    let mut bytes = (content.len() as u32).to_le_bytes().to_vec();
    bytes.extend(content);
    bytes
}

fn full_unit(producer: &str, language: u16) -> Vec<u8> {
    let mut entries: Vec<u8> = vec![1];
    entries.extend_from_slice(producer.as_bytes());
    entries.push(0);
    entries.extend_from_slice(&language.to_le_bytes());
    unit(&entries)
}

fn program(info: Vec<u8>) -> Vec<u8> {
    elf(
        0x120,
        &[(".text", vec![0; 16]), (".debug_abbrev", abbreviations()), (".debug_info", info)],
    )
}

#[test]
fn programs_begin_at_their_entry() {
    assert_eq!(start_address(&elf(0x1f8, &[])).unwrap(), 0x1f8);
    assert!(matches!(start_address(b"no object"), Err(CoverageError::NotAnObject)));
}

#[test]
fn producer_and_language_are_found() {
    let data = program(full_unit("clang LLVM (rustc version 1.89.0-dev)", 0x1c));
    assert_eq!(
        get_dwarf_attribute(&data, DW_TAG_COMPILE_UNIT, DW_AT_PRODUCER).unwrap(),
        "clang LLVM (rustc version 1.89.0-dev)"
    );
    assert_eq!(
        get_dwarf_attribute(&data, DW_TAG_COMPILE_UNIT, DW_AT_LANGUAGE).unwrap(),
        "DW_LANG_Rust"
    );
}

#[test]
fn other_attributes_and_tags_are_not_found() {
    let data = program(full_unit("rustc", 0x1c));
    match get_dwarf_attribute(&data, DW_TAG_COMPILE_UNIT, 0x03) {
        Err(CoverageError::NoAttribute { tag, attribute }) => {
            assert_eq!((tag, attribute), (0x11, 0x03));
        }
        _ => panic!(),
    }
    assert!(get_dwarf_attribute(&data, 0x34, DW_AT_PRODUCER).is_err());
    assert!(matches!(
        get_dwarf_attribute(b"", DW_TAG_COMPILE_UNIT, DW_AT_PRODUCER),
        Err(CoverageError::NotAnObject)
    ));
    let empty = elf(0, &[]);
    assert!(matches!(
        get_dwarf_attribute(&empty, DW_TAG_COMPILE_UNIT, DW_AT_PRODUCER),
        Err(CoverageError::NoAttribute { tag: 0x11, attribute: 0x25 })
    ));
}

#[test]
fn units_are_searched_in_order() {
    let mut info = unit(&[2, 3, b'v', 0, 0]);
    info.extend(full_unit("first", 0x02));
    info.extend(full_unit("second", 0x1c));
    let data = program(info);
    assert_eq!(
        get_dwarf_attribute(&data, DW_TAG_COMPILE_UNIT, DW_AT_PRODUCER).unwrap(),
        "first"
    );
    assert_eq!(
        get_dwarf_attribute(&data, DW_TAG_COMPILE_UNIT, DW_AT_LANGUAGE).unwrap(),
        "DW_LANG_C"
    );
    assert_eq!(get_dwarf_attribute(&data, 0x34, DW_AT_PRODUCER).unwrap(), "v");
}

#[test]
fn an_unreadable_unit_is_passed_over() {
    let mut info = unit(&[9]);
    info.extend(full_unit("later", 0x1c));
    let data = program(info);
    assert_eq!(
        get_dwarf_attribute(&data, DW_TAG_COMPILE_UNIT, DW_AT_PRODUCER).unwrap(),
        "later"
    );
}

#[test]
fn values_are_read_by_attribute() {
    let value = || {
        Some(AttributeValue { text: Some("t".to_string()), language: Some("l".to_string()) })
    };
    assert_eq!(attribute_text(0x11, value(), 0x11, DW_AT_PRODUCER), Some("t".to_string()));
    assert_eq!(attribute_text(0x11, value(), 0x11, DW_AT_LANGUAGE), Some("l".to_string()));
    assert_eq!(attribute_text(0x11, value(), 0x11, 0x03), None);
    assert_eq!(attribute_text(0x34, value(), 0x11, DW_AT_PRODUCER), None);
    assert_eq!(attribute_text(0x11, None, 0x11, DW_AT_PRODUCER), None);
}

#[test]
fn debug_sections_are_recognised() {
    let some = |name: &str| Some(name.to_string());
    assert!(any_debug_section(&vec![some(".text"), None, some(".debug_info")]));
    assert!(!any_debug_section(&vec![some(".text"), None, some(".debug")]));
    assert!(!any_debug_section(&vec![]));
}

#[test]
fn files_with_debug_information() {
    let data = program(full_unit("rustc", 0x1c));
    let found = debug_path(PathBuf::from("p.debug"), &data).unwrap();
    assert_eq!(found.path, PathBuf::from("p.debug"));
    assert_eq!(found.producer, Some("rustc".to_string()));
    assert_eq!(found.lang, Some("DW_LANG_Rust".to_string()));
    let bare = elf(0, &[(".debug_str", vec![0])]);
    let found = debug_path(PathBuf::from("p.so"), &bare).unwrap();
    assert_eq!((found.producer, found.lang), (None, None));
    assert!(debug_path(PathBuf::from("p.so"), &elf(0, &[(".text", vec![0])])).is_none());
    assert!(debug_path(PathBuf::from("p.so"), b"text").is_none());
}

#[test]
fn sections_begin_where_the_object_file_says() {
    let data = elf(0x120, &[(".text", vec![0; 16])]);
    assert_eq!(get_section_start_address(&data, ".text").unwrap(), 0x120);
    match get_section_start_address(&data, ".no_such_section") {
        Err(CoverageError::NoSection { section }) => assert_eq!(section, ".no_such_section"),
        _ => panic!(),
    }
    assert!(matches!(
        get_section_start_address(b"no object", ".text"),
        Err(CoverageError::NotAnObject)
    ));
    // The end of the section would not fit in 64 bits.
    let high = elf(u64::MAX - 7, &[(".text", vec![0; 16])]);
    assert_eq!(get_section_start_address(&high, ".text").unwrap(), u64::MAX - 7);
}
