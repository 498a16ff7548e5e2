use sbpf_coverage::dwarf::DebugPath;
use sbpf_coverage::toolchain::{
    cargo_home, get_platform_tools_version, map_dwarf_path, order_versions, parse_producer,
    rust_producer, rust_src_root, rustc_toolchain_from_producer, toolchain_message, tools_dir,
    tools_match, tools_rustc, tools_version_file, Compiler, PlatformTools,
};
use sbpf_coverage::order::Rank;
use sbpf_coverage::version::version_rank;
use std::path::PathBuf;

const FORK: &str = "clang LLVM (rustc version 1.89.0-dev)";
const FORK_WITH_HASH: &str = "clang LLVM (rustc version 1.89.0-dev (daa3af4 2026-03-03))";
const NIGHTLY: &str = "clang LLVM (rustc version 1.96.0-nightly (80381278a 2026-03-01))";

fn tools(version: &str, rustc: Option<&str>, hash: Option<&str>) -> PlatformTools {
    PlatformTools {
        version: version.to_string(),
        rustc_version: rustc.map(|v| format!("rustc {}-dev", v)),
        version_file: hash.map(|h| {
            format!("aaa https://github.com/anza-xyz/llvm.git\n{} https://github.com/anza-xyz/rust.git\n", h)
        }),
    }
}

#[test]
fn producers_name_compilers() {
    match parse_producer(FORK) {
        Some(Compiler::PlatformTools { rustc_version, commit_hash }) => {
            assert_eq!(rustc_version, "1.89.0");
            assert_eq!(commit_hash, None);
        }
        _ => panic!(),
    }
    match parse_producer(FORK_WITH_HASH) {
        Some(Compiler::PlatformTools { rustc_version, commit_hash }) => {
            assert_eq!(rustc_version, "1.89.0");
            assert_eq!(commit_hash, Some("daa3af4".to_string()));
        }
        _ => panic!(),
    }
    match parse_producer(NIGHTLY) {
        Some(Compiler::Nightly { date }) => assert_eq!(date, "2026-03-01"),
        _ => panic!(),
    }
    assert!(parse_producer("GNU C17 12.2.0").is_none());
    assert!(parse_producer("clang LLVM (rustc version 1.88.0)").is_none());
    assert!(parse_producer("rustc version 1.88.0 (6b00bc388").is_none());
}

#[test]
fn nightly_toolchain() {
    assert_eq!(
        rustc_toolchain_from_producer(NIGHTLY, &vec![]),
        Some(("nightly-2026-03-01".to_string(), None))
    );
}

#[test]
fn platform_tools_toolchain() {
    let installed = vec![
        tools("v1.53", Some("1.89.0"), Some("daa3af4aaaa")),
        tools("v1.54", Some("1.89.0"), Some("bbbbbbb")),
        tools("v1.55", Some("1.90.0"), None),
        tools("v1.56", None, None),
        tools("1.99", Some("1.89.0"), None),
    ];
    assert_eq!(
        rustc_toolchain_from_producer(FORK, &installed),
        Some(("1.89.0-sbpf-solana-v1.54".to_string(), Some("v1.54".to_string())))
    );
    assert_eq!(
        rustc_toolchain_from_producer(FORK_WITH_HASH, &installed),
        Some(("1.89.0-sbpf-solana-v1.53".to_string(), Some("v1.53".to_string())))
    );
    assert_eq!(rustc_toolchain_from_producer(FORK, &vec![]), None);
    assert_eq!(rustc_toolchain_from_producer("other", &installed), None);
}

#[test]
fn tools_match_by_version_and_hash() {
    let with_hash = tools("v1.53", Some("1.89.0"), Some("daa3af4aaaa"));
    let without_hash = tools("v1.53", Some("1.89.0"), None);
    assert!(tools_match(&with_hash, "1.89.0", None));
    assert!(tools_match(&with_hash, "1.89.0", Some("daa3af4")));
    assert!(!tools_match(&with_hash, "1.89.0", Some("daa3af5")));
    assert!(!tools_match(&with_hash, "1.88.0", Some("daa3af4")));
    assert!(tools_match(&without_hash, "1.89.0", Some("daa3af5")));
    assert!(!tools_match(&tools("v1.53", None, None), "1.89.0", None));
    let unlisted = PlatformTools { version_file: Some("nothing".to_string()), ..without_hash };
    assert!(tools_match(&unlisted, "1.89.0", Some("daa3af5")));
}

#[test]
fn versions_are_tried_with_the_latest_first() {
    let names: Vec<String> =
        ["v1.51", "v1.54", "bin", "v1.6", "v1.54", "vnext", "v2", "v1.54.1"]
            .iter()
            .map(|s| s.to_string())
            .collect();
    let ordered = order_versions(&names);
    assert_eq!(
        ordered,
        vec!["vnext", "v2", "v1.54.1", "v1.54", "v1.54", "v1.51", "v1.6"]
    );
    assert_eq!(order_versions(&vec![]), Vec::<String>::new());
}

#[test]
fn the_latest_version_has_the_greatest_number() {
    let installed =
        vec![tools("v1.9", Some("1.89.0"), None), tools("v1.53", Some("1.89.0"), None)];
    assert_eq!(
        get_platform_tools_version("1.89.0", None, &installed),
        Some("v1.53".to_string())
    );
}

#[test]
fn versions_are_compared_by_their_numbers() {
    let ascending = [
        "bin",
        "v",
        "v-x",
        "v0.9",
        "v1",
        "v1.",
        "v1.05",
        "v1.5",
        "v1.9",
        "v1.10",
        "v1.53",
        "v1.53-rc",
        "v1.53.",
        "v1.53.0",
        "v1.53.2",
        "v1.54-rc1",
        "v1.54-rc2",
        "v1.100-rc1",
        "v2.0",
        "v99999999999999999999",
        "v100000000000000000000",
        "vnext",
        "v\u{e9}",
    ];
    for (i, a) in ascending.iter().enumerate() {
        for (j, b) in ascending.iter().enumerate() {
            let expected = if i < j {
                Rank::Before
            } else if i == j {
                Rank::Same
            } else {
                Rank::After
            };
            assert!(version_rank(a, b) == expected, "{} {}", a, b);
        }
    }
}

#[test]
fn a_candidate_for_a_later_version_is_later() {
    let installed =
        vec![tools("v1.53", Some("1.89.0"), None), tools("v1.54-rc1", Some("1.89.0"), None)];
    assert_eq!(
        get_platform_tools_version("1.89.0", None, &installed),
        Some("v1.54-rc1".to_string())
    );
}

#[test]
fn cargo_paths_are_mapped_once() {
    for path in ["/home/runner/.cargo/registry/src/x/lib.rs", "/x/.cargo/git/checkouts/x/lib.rs"] {
        let once = map_dwarf_path(path, None, "/home/me/.cargo");
        assert_ne!(once, path);
        assert_eq!(map_dwarf_path(&once, None, "/home/me/.cargo"), once);
    }
}

#[test]
fn the_first_candidate_decides() {
    let mut installed = vec![
        tools("v1.60", Some("1.90.0"), None),
        tools("v1.54", Some("1.89.0"), None),
        tools("v1.53", Some("1.89.0"), None),
    ];
    let all = get_platform_tools_version("1.89.0", None, &installed);
    installed.pop();
    assert_eq!(get_platform_tools_version("1.89.0", None, &installed), all);
    assert_eq!(all, Some("v1.54".to_string()));
    assert_eq!(get_platform_tools_version("1.80.0", None, &installed), None);
}

#[test]
fn only_rust_programs_have_a_rust_producer() {
    let program = |producer: Option<&str>, lang: Option<&str>| DebugPath {
        path: PathBuf::from("program.debug"),
        producer: producer.map(String::from),
        lang: lang.map(String::from),
    };
    assert_eq!(rust_producer(&program(Some(FORK), Some("DW_LANG_Rust"))), Some(FORK));
    assert_eq!(rust_producer(&program(Some(FORK), Some("DW_LANG_C"))), None);
    assert_eq!(rust_producer(&program(Some(FORK), None)), None);
    assert_eq!(rust_producer(&program(None, Some("DW_LANG_Rust"))), None);
}

#[test]
fn toolchain_messages() {
    assert_eq!(
        toolchain_message("p.debug", FORK, "1.89.0-sbpf-solana-v1.53", Some("v1.53")),
        "p.debug likely: compiler clang LLVM (rustc version 1.89.0-dev), platform-tools v1.53, \
         toolchain 1.89.0-sbpf-solana-v1.53"
    );
    assert_eq!(
        toolchain_message("p.debug", "rustc", "nightly-2026-03-01", None),
        "p.debug likely: compiler rustc, toolchain nightly-2026-03-01"
    );
}

#[test]
fn toolchain_paths() {
    assert_eq!(rust_src_root(" /root/.rustup/x\n"), "/root/.rustup/x/lib/rustlib/src/rust");
    let dir = tools_dir("/home/me");
    assert_eq!(dir, "/home/me/.cache/solana");
    assert_eq!(tools_rustc(&dir, "v1"), "/home/me/.cache/solana/v1/platform-tools/rust/bin/rustc");
    assert_eq!(tools_version_file(&dir, "v1"), "/home/me/.cache/solana/v1/platform-tools/version.md");
    assert_eq!(cargo_home(Some("/c"), Some("/home/me")), "/c");
    assert_eq!(cargo_home(Some("/c"), None), "/c");
    assert_eq!(cargo_home(None, Some("/home/me")), "/home/me/.cargo");
}

#[test]
fn library_paths_are_mapped() {
    let path = "/home/runner/work/rust/library/core/src/fmt/mod.rs";
    assert_eq!(
        map_dwarf_path(path, Some("/sysroot/rust"), "/cargo"),
        "/sysroot/rust//library/core/src/fmt/mod.rs"
    );
    assert_eq!(map_dwarf_path(path, None, "/cargo"), path);
}

#[test]
fn cargo_paths_are_mapped() {
    assert_eq!(
        map_dwarf_path("/home/runner/.cargo/registry/src/x/lib.rs", Some("/s"), "/cargo"),
        "/cargo/registry/src/x/lib.rs"
    );
    assert_eq!(
        map_dwarf_path("/home/runner/.cargo/git/checkouts/x/lib.rs", None, "/cargo"),
        "/cargo/git/checkouts/x/lib.rs"
    );
    assert_eq!(
        map_dwarf_path("/.cargo/git/.cargo/registry/x.rs", None, "/cargo"),
        "/cargo/registry/x.rs"
    );
    assert_eq!(
        map_dwarf_path("/.cargo/registry/a/library/x.rs", Some("/s"), "/cargo"),
        "/s//library/x.rs"
    );
    assert_eq!(map_dwarf_path("/home/me/src/lib.rs", Some("/s"), "/cargo"), "/home/me/src/lib.rs");
}
