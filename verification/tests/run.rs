use sbpf_coverage::error::CoverageError;
use sbpf_coverage::run::{
    check_traces, debug_path_message, next_stage, order_by_time, pair_message, trace_message,
    Outcome, Progress, Stage,
};
use std::path::PathBuf;

#[test]
fn without_debug_information_nothing_is_done() {
    for debug in [false, true] {
        match next_stage(0, debug) {
            Err(error) => assert_eq!(
                error.message(),
                "Found no .so/.debug/.so.debug files containing debug sections."
            ),
            Ok(_) => panic!(),
        }
    }
    assert!(matches!(next_stage(2, true), Ok(Stage::Dump)));
    assert!(matches!(next_stage(1, false), Ok(Stage::Traces)));
}

#[test]
fn without_traces_nothing_is_done() {
    match check_traces(0, "traces") {
        Err(error) => assert_eq!(
            error.message(),
            "Found no regs files in: traces\n\
             Are you sure you run your tests with register tracing enabled"
        ),
        Ok(_) => panic!(),
    }
    assert!(check_traces(1, "traces").is_ok());
}

#[test]
fn traces_are_taken_with_the_oldest_first() {
    assert_eq!(order_by_time(&vec![30, 10, 20, 10, -5]), vec![4, 1, 3, 2, 0]);
    assert_eq!(order_by_time(&vec![7, 7, 7]), vec![0, 1, 2]);
    assert_eq!(order_by_time(&vec![]), Vec::<usize>::new());
}

#[test]
fn progress_is_summed_up() {
    let mut progress = Progress::new();
    assert_eq!(progress.record("a.regs", Some(Outcome::Lcov(PathBuf::from("a.lcov")))), None);
    assert_eq!(
        progress.record("b.regs", None),
        Some("Skipping Regs file: b.regs (no matching executable)".to_string())
    );
    assert_eq!(progress.lcov_paths, vec![PathBuf::from("a.lcov")]);
    assert_eq!(progress.traces, 2);
    let list = format!("{:#?}", progress.lcov_paths);
    assert_eq!(
        progress.summary(&list, "traces", false),
        Some(
            "
Processed 1 of 2 regs files

Lcov files written: [
    \"a.lcov\",
]

If you are done generating lcov files, try running:

    genhtml --output-directory coverage traces/*.lcov --rc branch_coverage=1 && open coverage/index.html
"
            .to_string()
        )
    );
}

#[test]
fn disassemblies_are_not_summed_up() {
    let mut progress = Progress::new();
    assert_eq!(progress.record("a.regs", Some(Outcome::TraceDisassemble)), None);
    assert_eq!(progress.lcov_paths.len(), 0);
    assert_eq!(progress.traces, 1);
    assert_eq!(progress.summary("[]", "traces", true), None);
}

#[test]
fn messages_on_files() {
    assert_eq!(
        debug_path_message("p.so", Some("rustc"), None),
        "  p.so (producer: rustc, lang: unknown)"
    );
    assert_eq!(
        debug_path_message("p.so", None, Some("DW_LANG_Rust")),
        "  p.so (producer: unknown, lang: DW_LANG_Rust)"
    );
    assert_eq!(
        pair_message("DWARF", "p.debug", "p.so", "0123456789abcdef"),
        "DWARF: p.debug -> p.so (exec sha256: 0123456789abcdef)"
    );
    assert_eq!(
        trace_message("t.regs", 12, "0123456789abcdef"),
        "Regs: t.regs (12 entries, exec sha256: 0123456789abcdef)"
    );
}

#[test]
fn error_messages() {
    let cases = [
        (CoverageError::NotAnObject, "Not an object file"),
        (
            CoverageError::NoSection { section: ".text".to_string() },
            "Can't get .text section begin address",
        ),
        (
            CoverageError::NoAttribute { tag: 17, attribute: 37 },
            "No DWARF entry found for DwTag(17) with attribute DwAt(37)",
        ),
        (
            CoverageError::NoLocation { vaddr: 0x1f8, reason: "gone".to_string() },
            "failed to find location for address 0x1f8: gone",
        ),
        (
            CoverageError::NoExecutable { exec_sha256: "ab".to_string() },
            "Cannot find the shared object that corresponds to: ab",
        ),
        (CoverageError::EmptyTrace, "Vaddrs is empty!"),
    ];
    for (error, message) in cases {
        assert_eq!(error.message(), message);
    }
}
