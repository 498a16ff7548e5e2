//! The course of a run: what is done when, and what is said about it.

use crate::error::CoverageError;
use crate::text::{decimal, push_decimal, str_view};
use std::path::PathBuf;
use vstd::prelude::*;

verus! {

/// What is done once the debug information has been read.
#[derive(PartialEq, Eq, Clone, Copy, Structural, Debug)]
pub enum Stage {
    /// The source lines of all addresses are listed.
    Dump,
    /// The traces are processed.
    Traces,
}

/// Decides what is done with the debug information that was found. Without any, nothing can be done.
pub fn next_stage(dwarfs: usize, debug: bool) -> (stage: Result<Stage, CoverageError>)
    ensures
        match stage {
            Err(error) => dwarfs == 0 && error is NoDebugInfo,
            Ok(stage) => dwarfs > 0 && stage == if debug {
                Stage::Dump
            } else {
                Stage::Traces
            },
        },
{
    if dwarfs == 0 {
        Err(CoverageError::NoDebugInfo)
    } else if debug {
        Ok(Stage::Dump)
    } else {
        Ok(Stage::Traces)
    }
}

/// Refuses to go on without traces.
pub fn check_traces(traces: usize, dir: &str) -> (checked: Result<(), CoverageError>)
    ensures
        match checked {
            Ok(_) => traces > 0,
            Err(error) => traces == 0 && (error matches CoverageError::NoTraces { dir: d } && d@
                == dir@),
        },
{
    if traces == 0 {
        Err(CoverageError::NoTraces { dir: dir.to_owned() })
    } else {
        Ok(())
    }
}

/// Whether number `a` comes before number `b`: it is older, or as old and given first.
pub open spec fn comes_before(times: Seq<i128>, a: int, b: int) -> bool {
    times[a] < times[b] || (times[a] == times[b] && a < b)
}

/// Whether the numbers below `n` are listed, each once, with the oldest first and in the given order
/// where they are of the same age.
pub open spec fn is_time_order(times: Seq<i128>, order: Seq<usize>, n: int) -> bool {
    &&& order.len() == n
    &&& forall|i: int| 0 <= i < order.len() ==> 0 <= #[trigger] order[i] < n
    &&& forall|i: int, j: int|
        0 <= i < j < order.len() ==> comes_before(
            times,
            #[trigger] order[i] as int,
            #[trigger] order[j] as int,
        )
}

/// Orders files by the times at which they were last changed.
pub fn order_by_time(times: &Vec<i128>) -> (order: Vec<usize>)
    ensures
        is_time_order(times@, order@, times@.len() as int),
{
    let mut order: Vec<usize> = Vec::new();
    let count: usize = times.len();
    for k in 0..count
        invariant
            count == times@.len(),
            is_time_order(times@, order@, k as int),
    {
        let mut pos: usize = order.len();
        while pos > 0 && times[k] < times[order[pos - 1]]
            invariant
                k < count,
                count == times@.len(),
                pos <= order@.len(),
                is_time_order(times@, order@, k as int),
                forall|j: int|
                    pos <= j < order@.len() ==> times@[k as int] < times@[(#[trigger] order@[j]) as int],
            decreases pos,
        {
            pos = pos - 1;
        }
        let ghost before = order@;
        order.insert(pos, k);
        proof {
            let after = order@;
            assert forall|i: int, j: int| 0 <= i < j < after.len() implies comes_before(
                times@,
                #[trigger] after[i] as int,
                #[trigger] after[j] as int,
            ) by {
                let a = if i < pos {
                    i
                } else {
                    i - 1
                };
                let b = if j < pos {
                    j
                } else {
                    j - 1
                };
                if i != pos && j != pos {
                    assert(after[i] == before[a] && after[j] == before[b]);
                } else if i == pos {
                    assert(after[j] == before[b]);
                } else {
                    assert(after[i] == before[a]);
                    let last = before[pos - 1] as int;
                    assert(times@[k as int] >= times@[last]);
                    if a < pos - 1 {
                        assert(comes_before(times@, before[a] as int, last));
                    }
                }
            }
        }
    }
    order
}

/// What became of a trace.
pub enum Outcome {
    /// Its line report was written to that file.
    Lcov(PathBuf),
    /// Its annotated disassembly was printed.
    TraceDisassemble,
}

/// How far the processing of the traces has come.
pub struct Progress {
    /// The files that line reports were written to.
    pub lcov_paths: Vec<PathBuf>,
    /// The number of traces so far.
    pub traces: usize,
}

/// The message on a trace that was left out.
pub open spec fn skip_text(regs_path: Seq<char>) -> Seq<char> {
    "Skipping Regs file: "@ + regs_path + " (no matching executable)"@
}

impl Progress {
    /// No traces yet.
    pub fn new() -> (progress: Self)
        ensures
            progress.lcov_paths@.len() == 0,
            progress.traces == 0,
    {
        Progress { lcov_paths: Vec::new(), traces: 0 }
    }

    /// Takes note of what became of a trace, `None` where it could not be processed. Then there is a
    /// message.
    pub fn record(&mut self, regs_path: &str, outcome: Option<Outcome>) -> (message: Option<String>)
        requires
            old(self).traces < usize::MAX,
        ensures
            final(self).traces == old(self).traces + 1,
            match outcome {
                Some(Outcome::Lcov(path)) => final(self).lcov_paths@ == old(
                    self,
                ).lcov_paths@.push(path) && message is None,
                Some(Outcome::TraceDisassemble) => final(self).lcov_paths@ == old(self).lcov_paths@
                    && message is None,
                None => final(self).lcov_paths@ == old(self).lcov_paths@ && (message matches Some(
                    message,
                ) && message@ == skip_text(regs_path@)),
            },
    {
        self.traces = self.traces + 1;
        match outcome {
            Some(Outcome::Lcov(path)) => {
                self.lcov_paths.push(path);
                None
            },
            Some(Outcome::TraceDisassemble) => None,
            None => {
                let mut message = String::new();
                message.append("Skipping Regs file: ");
                message.append(regs_path);
                message.append(" (no matching executable)");
                assert(message@ =~= skip_text(regs_path@));
                Some(message)
            },
        }
    }

    /// What is said at the end, given the list of the line reports as it is printed: nothing where
    /// annotated disassemblies were asked for.
    pub fn summary(&self, lcov_list: &str, trace_dir: &str, trace_disassemble: bool) -> (text: Option<
        String,
    >)
        ensures
            text is None <==> trace_disassemble,
            text matches Some(text) ==> text@ == summary_text(
                self.lcov_paths@.len(),
                self.traces as nat,
                lcov_list@,
                trace_dir@,
            ),
    {
        if trace_disassemble {
            return None;
        }
        let mut text = String::new();
        text.append("\nProcessed ");
        push_decimal(&mut text, self.lcov_paths.len() as u64);
        text.append(" of ");
        push_decimal(&mut text, self.traces as u64);
        text.append(" regs files\n\nLcov files written: ");
        text.append(lcov_list);
        text.append(
            "\n\nIf you are done generating lcov files, try running:\n\n    genhtml --output-directory coverage ",
        );
        text.append(trace_dir);
        text.append("/*.lcov --rc branch_coverage=1 && open coverage/index.html\n");
        assert(text@ =~= summary_text(
            self.lcov_paths@.len(),
            self.traces as nat,
            lcov_list@,
            trace_dir@,
        ));
        Some(text)
    }
}

/// What is said at the end.
pub open spec fn summary_text(
    processed: nat,
    traces: nat,
    lcov_list: Seq<char>,
    trace_dir: Seq<char>,
) -> Seq<char> {
    "\nProcessed "@ + decimal(processed) + " of "@ + decimal(traces)
        + " regs files\n\nLcov files written: "@ + lcov_list
        + "\n\nIf you are done generating lcov files, try running:\n\n    genhtml --output-directory coverage "@
        + trace_dir + "/*.lcov --rc branch_coverage=1 && open coverage/index.html\n"@
}

/// A text, or a word for that it is not known.
pub open spec fn or_unknown(text: Option<Seq<char>>) -> Seq<char> {
    match text {
        Some(text) => text,
        None => "unknown"@,
    }
}

/// Appends a text, or a word for that it is not known.
fn push_or_unknown(out: &mut String, text: Option<&str>)
    ensures
        final(out)@ == old(out)@ + or_unknown(str_view(text)),
{
    match text {
        Some(text) => out.append(text),
        None => out.append("unknown"),
    }
}

/// The message on a file with debug information.
pub open spec fn debug_path_text(
    path: Seq<char>,
    producer: Option<Seq<char>>,
    lang: Option<Seq<char>>,
) -> Seq<char> {
    "  "@ + path + " (producer: "@ + or_unknown(producer) + ", lang: "@ + or_unknown(lang) + ")"@
}

/// The message on a file with debug information.
pub fn debug_path_message(path: &str, producer: Option<&str>, lang: Option<&str>) -> (text: String)
    ensures
        text@ == debug_path_text(path@, str_view(producer), str_view(lang)),
{
    let mut text = String::new();
    text.append("  ");
    text.append(path);
    text.append(" (producer: ");
    push_or_unknown(&mut text, producer);
    text.append(", lang: ");
    push_or_unknown(&mut text, lang);
    text.append(")");
    assert(text@ =~= debug_path_text(path@, str_view(producer), str_view(lang)));
    text
}

/// The message that two files belong together.
pub open spec fn pair_text(
    kind: Seq<char>,
    from: Seq<char>,
    to: Seq<char>,
    hash: Seq<char>,
) -> Seq<char> {
    kind + ": "@ + from + " -> "@ + to + " (exec sha256: "@ + hash + ")"@
}

/// The message that two files belong together: debug information and its shared object, or a trace
/// and its debug information.
pub fn pair_message(kind: &str, from: &str, to: &str, hash: &str) -> (text: String)
    ensures
        text@ == pair_text(kind@, from@, to@, hash@),
{
    let mut text = String::new();
    text.append(kind);
    text.append(": ");
    text.append(from);
    text.append(" -> ");
    text.append(to);
    text.append(" (exec sha256: ");
    text.append(hash);
    text.append(")");
    assert(text@ =~= pair_text(kind@, from@, to@, hash@));
    text
}

/// The message on a trace.
pub open spec fn trace_text(path: Seq<char>, steps: nat, hash: Seq<char>) -> Seq<char> {
    "Regs: "@ + path + " ("@ + decimal(steps) + " entries, exec sha256: "@ + hash + ")"@
}

/// The message on a trace.
pub fn trace_message(path: &str, steps: usize, hash: &str) -> (text: String)
    ensures
        text@ == trace_text(path@, steps as nat, hash@),
{
    let mut text = String::new();
    text.append("Regs: ");
    text.append(path);
    text.append(" (");
    push_decimal(&mut text, steps as u64);
    text.append(" entries, exec sha256: ");
    text.append(hash);
    text.append(")");
    assert(text@ =~= trace_text(path@, steps as nat, hash@));
    text
}

/// The files that come in the order of their times are all the files.
pub proof fn law_time_order_is_complete(times: Seq<i128>, order: Seq<usize>, n: int)
    requires
        is_time_order(times, order, n),
    ensures
        order.no_duplicates(),
        forall|k: usize| k < n ==> #[trigger] order.contains(k),
{
    assert forall|i: int, j: int| 0 <= i < j < order.len() implies order[i] != order[j] by {
        assert(comes_before(times, order[i] as int, order[j] as int));
    }
    let ints = order.map_values(|x: usize| x as int);
    assert(ints.no_duplicates());
    ints.unique_seq_to_set();
    let all = vstd::set_lib::set_int_range(0, n);
    vstd::set_lib::lemma_int_range(0, n);
    assert forall|x: int| ints.to_set().contains(x) implies all.contains(x) by {
        let i = choose|i: int| 0 <= i < ints.len() && ints[i] == x;
        assert(0 <= order[i] < n);
    }
    vstd::set_lib::lemma_subset_equality(ints.to_set(), all);
    assert forall|k: usize| k < n implies #[trigger] order.contains(k) by {
        assert(all.contains(k as int));
        let i = choose|i: int| 0 <= i < ints.len() && ints[i] == k;
        assert(order[i] == k);
    }
}

} // verus!
