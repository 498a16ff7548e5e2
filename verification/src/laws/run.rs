//! Laws of the course of a run and of what is said about it.

use crate::error::{error_text, CoverageError};
use crate::run::{
    comes_before, debug_path_text, is_time_order, law_time_order_is_complete, pair_text, skip_text,
    summary_text, trace_text,
};
use crate::text::{decimal, hexadecimal};
use vstd::prelude::*;

verus! {

/// Files in the order of their times are all the files, each once; no file is older than one before it,
/// and files of the same age keep their order.
pub proof fn law_time_order(times: Seq<i128>, order: Seq<usize>)
    requires
        times.len() <= usize::MAX,
        is_time_order(times, order, times.len() as int),
    ensures
        order.len() == times.len(),
        order.no_duplicates(),
        forall|k: usize| k < times.len() ==> #[trigger] order.contains(k),
        forall|i: int, j: int|
            0 <= i < j < order.len() ==> times[#[trigger] order[i] as int] <= times[
            #[trigger] order[j] as int],
        forall|i: int, j: int|
            0 <= i < j < order.len() && times[#[trigger] order[i] as int] == times[
            #[trigger] order[j] as int] ==> order[i] < order[j],
{
    law_time_order_is_complete(times, order, times.len() as int);
    assert forall|i: int, j: int| 0 <= i < j < order.len() implies times[#[trigger] order[i] as int]
        <= times[#[trigger] order[j] as int] && (times[order[i] as int] == times[order[j] as int]
        ==> order[i] < order[j]) by {
        assert(comes_before(times, order[i] as int, order[j] as int));
    }
}

/// What is said of the files of a run.
pub proof fn law_messages(
    path: Seq<char>,
    producer: Option<Seq<char>>,
    lang: Option<Seq<char>>,
    kind: Seq<char>,
    to: Seq<char>,
    hash: Seq<char>,
    steps: nat,
)
    ensures
        skip_text(path) == "Skipping Regs file: "@ + path + " (no matching executable)"@,
        debug_path_text(path, producer, lang) == "  "@ + path + " (producer: "@ + (
        if producer is Some {
            producer->0
        } else {
            "unknown"@
        }) + ", lang: "@ + (if lang is Some {
            lang->0
        } else {
            "unknown"@
        }) + ")"@,
        pair_text(kind, path, to, hash) == kind + ": "@ + path + " -> "@ + to + " (exec sha256: "@
            + hash + ")"@,
        trace_text(path, steps, hash) == "Regs: "@ + path + " ("@ + decimal(steps)
            + " entries, exec sha256: "@ + hash + ")"@,
{
}

/// What is said at the end of a run.
pub proof fn law_summary(
    processed: nat,
    traces: nat,
    lcov_list: Seq<char>,
    trace_dir: Seq<char>,
)
    ensures
        summary_text(processed, traces, lcov_list, trace_dir) == "\nProcessed "@ + decimal(processed)
            + " of "@ + decimal(traces) + " regs files\n\nLcov files written: "@ + lcov_list
            + "\n\nIf you are done generating lcov files, try running:\n\n    genhtml --output-directory coverage "@
            + trace_dir + "/*.lcov --rc branch_coverage=1 && open coverage/index.html\n"@,
{
}

/// What is said of errors.
pub proof fn law_error_messages(
    text: String,
    tag: u16,
    attribute: u16,
    vaddr: u64,
)
    ensures
        error_text(CoverageError::NotAnObject) == "Not an object file"@,
        error_text(CoverageError::NoSection { section: text }) == "Can't get "@ + text@
            + " section begin address"@,
        error_text(CoverageError::NoAttribute { tag, attribute })
            == "No DWARF entry found for DwTag("@ + decimal(tag as nat) + ") with attribute DwAt("@
            + decimal(attribute as nat) + ")"@,
        error_text(CoverageError::NoLocation { vaddr, reason: text })
            == "failed to find location for address 0x"@ + hexadecimal(vaddr as nat) + ": "@ + text@,
        error_text(CoverageError::NoExecutable { exec_sha256: text })
            == "Cannot find the shared object that corresponds to: "@ + text@,
        error_text(CoverageError::EmptyTrace) == "Vaddrs is empty!"@,
        error_text(CoverageError::NoDebugInfo)
            == "Found no .so/.debug/.so.debug files containing debug sections."@,
        error_text(CoverageError::NoTraces { dir: text }) == "Found no regs files in: "@ + text@
            + "\nAre you sure you run your tests with register tracing enabled"@,
{
}

} // verus!
