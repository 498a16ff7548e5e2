use sbpf_coverage::order::{listed, listed_lines, rank, str_same, Rank};
use sbpf_coverage::sources::{file_is_under, file_mentions};
use sbpf_coverage::text::{
    char_is_whitespace, chars_of, find_chars, nth_word, occurs, push_decimal, push_hexadecimal,
    read_nth_line, split_lines, split_nth, str_contains, str_starts_with, string_of, trim_chars,
};
use std::collections::BTreeMap;

fn chars(s: &str) -> Vec<char> {
    chars_of(s)
}

#[test]
fn text_round_trip() {
    assert_eq!(string_of(&chars("grüße")), "grüße");
    assert_eq!(chars("ab"), vec!['a', 'b']);
}

#[test]
fn searching() {
    let s = chars("abcabc");
    assert_eq!(find_chars(&s, &chars("ca")), Some(2));
    assert_eq!(find_chars(&s, &chars("abc")), Some(0));
    assert_eq!(find_chars(&s, &chars("cb")), None);
    assert_eq!(find_chars(&s, &[]), Some(0));
    assert!(occurs(&s, &chars("bc"), 4));
    assert!(!occurs(&s, &chars("bc"), 5));
    assert!(str_contains("rustc 1.89.0-dev", "1.89.0"));
    assert!(!str_contains("rustc 1.88.0", "1.89.0"));
    assert!(str_starts_with(".debug_info", ".debug_"));
    assert!(!str_starts_with("x.debug_info", ".debug_"));
}

#[test]
fn splitting() {
    let s = chars("a--b--");
    let sep = chars("--");
    assert_eq!(split_nth(&s, &sep, 0).map(string_of), Some("a".to_string()));
    assert_eq!(split_nth(&s, &sep, 1).map(string_of), Some("b".to_string()));
    assert_eq!(split_nth(&s, &sep, 2).map(string_of), Some(String::new()));
    assert_eq!(split_nth(&s, &sep, 3).map(string_of), None);
    let pieces: Vec<&str> = "a--b--".split("--").collect();
    assert_eq!(pieces, vec!["a", "b", ""]);
}

#[test]
fn words_and_trimming() {
    let s = chars("  one\t two\u{3000}three ");
    assert_eq!(nth_word(&s, 0).map(string_of), Some("one".to_string()));
    assert_eq!(nth_word(&s, 1).map(string_of), Some("two".to_string()));
    assert_eq!(nth_word(&s, 2).map(string_of), Some("three".to_string()));
    assert_eq!(nth_word(&s, 3).map(string_of), None);
    assert_eq!(string_of(trim_chars(&s)), "one\t two\u{3000}three");
    assert_eq!(string_of(trim_chars(&chars(" \n "))), "");
}

#[test]
fn whitespace_is_that_of_unicode() {
    let mut code: u32 = 0;
    while code <= 0x10ffff {
        if let Some(c) = char::from_u32(code) {
            assert_eq!(char_is_whitespace(c), c.is_whitespace(), "{:x}", code);
        }
        code += 1;
    }
}

#[test]
fn lines_end_at_line_feeds() {
    let content = "one\r\ntwo\n\nfour\r";
    let expected: Vec<&str> = content.lines().collect();
    assert_eq!(split_lines(content), expected);
    assert_eq!(split_lines(""), Vec::<String>::new());
    assert_eq!(split_lines("x\n"), vec!["x"]);
    assert_eq!(read_nth_line(content, 1), "two");
    assert_eq!(read_nth_line(content, 2), "");
    assert_eq!(read_nth_line(content, 9), "");
}

#[test]
fn numbers() {
    for n in [0u64, 7, 10, 4096, u64::MAX] {
        let mut decimal = String::from("n=");
        push_decimal(&mut decimal, n);
        assert_eq!(decimal, format!("n={}", n));
        let mut hexadecimal = String::new();
        push_hexadecimal(&mut hexadecimal, n);
        assert_eq!(hexadecimal, format!("{:x}", n));
    }
}

#[test]
fn strings_are_ordered_by_bytes() {
    let words = ["", "a", "ab", "b", "v1.52", "v1.6", "z", "é", "\u{ffff}", "\u{10000}"];
    for a in words {
        for b in words {
            let expected = if a < b {
                Rank::Before
            } else if a == b {
                Rank::Same
            } else {
                Rank::After
            };
            assert!(rank(a, b) == expected, "{} {}", a, b);
            assert_eq!(str_same(a, b), a == b);
        }
    }
}

#[test]
fn maps_are_listed_in_ascending_order() {
    let mut m: BTreeMap<u64, char> = BTreeMap::new();
    m.insert(16, 'b');
    m.insert(8, 'a');
    assert_eq!(listed(&m), vec![(8, &'a'), (16, &'b')]);
    let mut lines: BTreeMap<u32, usize> = BTreeMap::new();
    lines.insert(3, 1);
    lines.insert(2, 0);
    assert_eq!(listed_lines(&lines), vec![(2, &0), (3, &1)]);
}

#[test]
fn files_under_and_files_mentioning() {
    let paths = vec!["/home/me/program/src".to_string(), "/tmp".to_string()];
    assert!(file_is_under("/home/me/program/src/lib.rs", &paths));
    assert!(!file_is_under("/x/home/me/program/src/lib.rs", &paths));
    assert!(file_mentions("/x/home/me/program/src/lib.rs", &paths));
    assert!(!file_mentions("/home/me/other.rs", &paths));
    assert!(!file_is_under("/tmp/a", &Vec::new()));
    assert!(!file_mentions("/tmp/a", &Vec::new()));
}
