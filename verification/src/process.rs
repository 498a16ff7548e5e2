//! What a trace gives: its branch report and its line report.

use crate::branch::{always_fits, branch_views, branches_found, checked_branches, Branches};
use crate::branch_report::{branches_text, write_branch_coverage};
use crate::coverage::{
    build_file_line_count_map, keep_with_lines, law_only_lines_count, line_counts, with_lines,
};
use crate::dwarf::{entry_views, Dwarf};
use crate::error::CoverageError;
use crate::line_report::{lcov_text, write_lcov};
use crate::order::ascending;
use crate::text::views;
use crate::util::{has_section, section_begin};
use vstd::prelude::*;

verus! {

/// The reports on a trace.
pub struct Reports {
    /// The branch report, `None` where no branches could be computed.
    pub branches: Option<String>,
    /// The number of executed addresses that have a source line.
    pub line_hits: usize,
    /// The line report.
    pub lines: String,
}

/// Whether `report` is the report on the branches, if there are any to report on.
pub open spec fn reports_branches(
    branches: Result<Branches, CoverageError>,
    src_paths: Seq<Seq<char>>,
    report: Option<String>,
) -> bool {
    match branches {
        Ok(branches) => report matches Some(report) && report@ == branches_text(
            branch_views(branches@),
            ascending(branches@.dom()),
            src_paths,
        ),
        Err(_) => report is None,
    }
}

/// The report on the branches, if there are any to report on.
pub fn report_branches(
    branches: Result<Branches, CoverageError>,
    src_paths: &Vec<String>,
) -> (report: Option<String>)
    ensures
        reports_branches(branches, views(src_paths@), report),
{
    match branches {
        Ok(branches) => Some(write_branch_coverage(&branches, src_paths)),
        Err(_) => None,
    }
}

/// Computes the reports on a trace whose addresses are those of `dwarf`. The result is `None` where
/// the branches of the trace cannot be computed.
pub fn process_regs(
    dwarf: &Dwarf<'_>,
    vaddrs: &Vec<u64>,
    insns: &Vec<u64>,
    regs: &Vec<[u64; 12]>,
    src_paths: &Vec<String>,
) -> (reports: Option<Reports>)
    ensures
        reports is None ==> has_section(dwarf.data@, ".text"@) && !always_fits(
            *dwarf.loader,
            vaddrs@,
            insns@,
            regs@,
            section_begin(dwarf.data@, ".text"@),
        ),
        reports matches Some(reports) ==> {
            let entries = entry_views(dwarf.vaddr_entry_map@);
            &&& exists|branches: Result<Branches, CoverageError>| #[trigger]
                branches_found(vaddrs@, insns@, regs@, *dwarf, branches) && reports_branches(
                    branches,
                    views(src_paths@),
                    reports.branches,
                )
            &&& reports.line_hits == with_lines(entries, vaddrs@).len()
            &&& reports.lines@ == lcov_text(line_counts(entries, vaddrs@))
        },
{
    let branches = match checked_branches(vaddrs, insns, regs, dwarf) {
        Some(branches) => branches,
        None => {
            return None;
        },
    };
    let ghost found = branches;
    let branches = report_branches(branches, src_paths);
    let kept = keep_with_lines(&dwarf.vaddr_entry_map, vaddrs);
    let line_hits: usize = kept.len();
    let counts = build_file_line_count_map(&dwarf.vaddr_entry_map, &kept);
    proof {
        law_only_lines_count(entry_views(dwarf.vaddr_entry_map@), vaddrs@);
        assert(branches_found(vaddrs@, insns@, regs@, *dwarf, found));
    }
    let lines = write_lcov(&counts);
    Some(Reports { branches, line_hits, lines })
}

} // verus!
