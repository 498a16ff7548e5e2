//! Laws of the reports.

use crate::branch::{branch_views, Branch, BranchModel, Branches};
use crate::branch_report::{branch_text, branches_text, lcov_record, LcovBranch};
use crate::coverage::with_lines;
use crate::dwarf::{entry_views, Dwarf};
use crate::error::CoverageError;
use crate::laws::coverage::law_kept_addresses;
use crate::laws::dwarf::{holds_path, law_file_mentions_paths};
use crate::laws::text::law_ascending;
use crate::line_report::{file_text, files_text, lcov_text, rows_text};
use crate::order::{ascending, ascending_lines, ascending_strings};
use crate::process::reports_branches;
use crate::text::{decimal, views};
use vstd::prelude::*;

verus! {

broadcast use vstd::std_specs::btree::group_btree_axioms;

proof fn lemma_rows(lines: Map<u32, nat>, keys: Seq<u32>)
    ensures
        rows_text(lines, keys) == keys.map_values(
            |line: u32|
                "DA:"@ + decimal(line as nat) + ","@ + decimal(lines[line]) + "\n"@,
        ).flatten(),
    decreases keys.len(),
{
    let row = |line: u32| "DA:"@ + decimal(line as nat) + ","@ + decimal(lines[line]) + "\n"@;
    let rows = keys.map_values(row);
    if keys.len() > 0 {
        let rest = keys.drop_last();
        lemma_rows(lines, rest);
        assert(rows =~= rest.map_values(row).push(row(keys.last())));
        rest.map_values(row).lemma_flatten_push(row(keys.last()));
        assert(rows_text(lines, keys) =~= rows_text(lines, rest) + row(keys.last()));
    } else {
        assert(rows =~= seq![]);
    }
}

/// The record of a source file has its name, a row for every line with its number and its count, the
/// lines in ascending order, and its end.
pub proof fn law_file_record(file: Seq<char>, lines: Map<u32, nat>)
    ensures
        file_text(file, lines) == "SF:"@ + file + "\n"@ + ascending_lines(lines.dom()).map_values(
            |line: u32|
                "DA:"@ + decimal(line as nat) + ","@ + decimal(lines[line]) + "\n"@,
        ).flatten() + "end_of_record\n"@,
{
    lemma_rows(lines, ascending_lines(lines.dom()));
}

proof fn lemma_files(counts: Map<Seq<char>, Map<u32, nat>>, names: Seq<Seq<char>>)
    ensures
        files_text(counts, names) == names.map_values(
            |name: Seq<char>| file_text(name, counts[name]),
        ).flatten(),
    decreases names.len(),
{
    let record = |name: Seq<char>| file_text(name, counts[name]);
    let records = names.map_values(record);
    if names.len() > 0 {
        let rest = names.drop_last();
        lemma_files(counts, rest);
        assert(records =~= rest.map_values(record).push(record(names.last())));
        rest.map_values(record).lemma_flatten_push(record(names.last()));
    } else {
        assert(records =~= seq![]);
    }
}

/// The line report has the record of every source file, in the order of their names.
pub proof fn law_line_report(counts: Map<Seq<char>, Map<u32, nat>>)
    ensures
        lcov_text(counts) == ascending_strings(counts.dom()).map_values(
            |name: Seq<char>| file_text(name, counts[name]),
        ).flatten(),
{
    lemma_files(counts, ascending_strings(counts.dom()));
}

/// The record of one direction of a branch names the file, the line and the number of the branch, and
/// gives 0 to the direction that was not taken and 1 to the other.
pub proof fn law_branch_record(file: Seq<char>, line: u32, branch_id: nat)
    ensures
        lcov_record(file, line, LcovBranch::NextNotTaken, branch_id) == seq![
            "\nSF:"@,
            file,
            "\nDA:"@,
            decimal(line as nat),
            ",1\nBRDA:"@,
            decimal(line as nat),
            ","@,
            decimal(branch_id),
            ",0,0\nBRDA:"@,
            decimal(line as nat),
            ","@,
            decimal(branch_id),
            ",1,1\nend_of_record\n"@,
        ].flatten(),
        lcov_record(file, line, LcovBranch::GotoNotTaken, branch_id) == seq![
            "\nSF:"@,
            file,
            "\nDA:"@,
            decimal(line as nat),
            ",1\nBRDA:"@,
            decimal(line as nat),
            ","@,
            decimal(branch_id),
            ",0,1\nBRDA:"@,
            decimal(line as nat),
            ","@,
            decimal(branch_id),
            ",1,0\nend_of_record\n"@,
        ].flatten(),
{
    let l = decimal(line as nat);
    let id = decimal(branch_id);
    lemma_record(file, l, id, ",0,0\nBRDA:"@, ",1,1\nend_of_record\n"@);
    lemma_record(file, l, id, ",0,1\nBRDA:"@, ",1,0\nend_of_record\n"@);
    reveal_strlit(",0,");
    reveal_strlit(",1,");
    reveal_strlit("0");
    reveal_strlit("1");
    reveal_strlit("\nBRDA:");
    reveal_strlit("\nend_of_record\n");
    reveal_strlit(",0,0\nBRDA:");
    reveal_strlit(",0,1\nBRDA:");
    reveal_strlit(",1,1\nend_of_record\n");
    reveal_strlit(",1,0\nend_of_record\n");
    assert(",0,"@ + "0"@ + "\nBRDA:"@ =~= ",0,0\nBRDA:"@);
    assert(",0,"@ + "1"@ + "\nBRDA:"@ =~= ",0,1\nBRDA:"@);
    assert(",1,"@ + "1"@ + "\nend_of_record\n"@ =~= ",1,1\nend_of_record\n"@);
    assert(",1,"@ + "0"@ + "\nend_of_record\n"@ =~= ",1,0\nend_of_record\n"@);
    lemma_joined_record(file, l, id, "0"@, "1"@);
    lemma_joined_record(file, l, id, "1"@, "0"@);
}

proof fn lemma_joined_record(
    file: Seq<char>,
    line: Seq<char>,
    id: Seq<char>,
    next: Seq<char>,
    goto: Seq<char>,
)
    ensures
        "\nSF:"@ + file + "\nDA:"@ + line + ",1\nBRDA:"@ + line + ","@ + id + ",0,"@ + next
            + "\nBRDA:"@ + line + ","@ + id + ",1,"@ + goto + "\nend_of_record\n"@ == "\nSF:"@ + file
            + "\nDA:"@ + line + ",1\nBRDA:"@ + line + ","@ + id + (",0,"@ + next + "\nBRDA:"@) + line
            + ","@ + id + (",1,"@ + goto + "\nend_of_record\n"@),
{
    let a = "\nSF:"@ + file + "\nDA:"@ + line + ",1\nBRDA:"@ + line + ","@ + id;
    assert(a + ",0,"@ + next + "\nBRDA:"@ =~= a + (",0,"@ + next + "\nBRDA:"@));
    let b = a + (",0,"@ + next + "\nBRDA:"@) + line + ","@ + id;
    assert(b + ",1,"@ + goto + "\nend_of_record\n"@ =~= b + (",1,"@ + goto + "\nend_of_record\n"@));
}

proof fn lemma_record(
    file: Seq<char>,
    line: Seq<char>,
    id: Seq<char>,
    next: Seq<char>,
    goto: Seq<char>,
)
    ensures
        seq![
            "\nSF:"@,
            file,
            "\nDA:"@,
            line,
            ",1\nBRDA:"@,
            line,
            ","@,
            id,
            next,
            line,
            ","@,
            id,
            goto,
        ].flatten() == "\nSF:"@ + file + "\nDA:"@ + line + ",1\nBRDA:"@ + line + ","@ + id + next
            + line + ","@ + id + goto,
{
    let parts = seq![
        "\nSF:"@,
        file,
        "\nDA:"@,
        line,
        ",1\nBRDA:"@,
        line,
        ","@,
        id,
        next,
        line,
        ","@,
        id,
        goto,
    ];
    parts.lemma_flatten_and_flatten_alt_are_equivalent();
    reveal_with_fuel(Seq::flatten_alt, 14);
    let p12 = parts.drop_last();
    let p11 = p12.drop_last();
    let p10 = p11.drop_last();
    let p9 = p10.drop_last();
    let p8 = p9.drop_last();
    let p7 = p8.drop_last();
    let p6 = p7.drop_last();
    let p5 = p6.drop_last();
    let p4 = p5.drop_last();
    let p3 = p4.drop_last();
    let p2 = p3.drop_last();
    let p1 = p2.drop_last();
    assert(p1.drop_last() =~= seq![]);
    assert(p1.flatten_alt() =~= "\nSF:"@);
    assert(p2.flatten_alt() == "\nSF:"@ + file);
    assert(p3.flatten_alt() == "\nSF:"@ + file + "\nDA:"@);
    assert(p4.flatten_alt() == p3.flatten_alt() + line);
    assert(p5.flatten_alt() == p4.flatten_alt() + ",1\nBRDA:"@);
    assert(p6.flatten_alt() == p5.flatten_alt() + line);
    assert(p7.flatten_alt() == p6.flatten_alt() + ","@);
    assert(p8.flatten_alt() == p7.flatten_alt() + id);
    assert(p9.flatten_alt() == p8.flatten_alt() + next);
    assert(p10.flatten_alt() == p9.flatten_alt() + line);
    assert(p11.flatten_alt() == p10.flatten_alt() + ","@);
    assert(p12.flatten_alt() == p11.flatten_alt() + id);
}

/// What the report says of a branch. It says nothing where the file or the line is not known, and
/// nothing where no source path is a stretch of the file name. Otherwise the branch has a record for
/// each direction if both were taken, and else the one record of the direction that was not.
pub proof fn law_reported_branch(branch: Branch, src_paths: Seq<String>)
    ensures
        ({
            let text = branch_text(branch@, views(src_paths));
            let id = branch.branch_id as nat;
            if branch.file is Some && branch.line is Some && holds_path(
                branch.file->0@,
                src_paths,
            ) {
                let next = lcov_record(
                    branch.file->0@,
                    branch.line->0,
                    LcovBranch::NextNotTaken,
                    id,
                );
                let goto = lcov_record(
                    branch.file->0@,
                    branch.line->0,
                    LcovBranch::GotoNotTaken,
                    id,
                );
                &&& branch.next_taken > 0 && branch.goto_taken > 0 ==> text == next + goto
                &&& branch.next_taken == 0 ==> text == next
                &&& branch.next_taken > 0 && branch.goto_taken == 0 ==> text == goto
            } else {
                text.len() == 0
            }
        }),
{
    if branch.file is Some {
        law_file_mentions_paths(branch.file->0@, src_paths);
    }
}

proof fn lemma_branches(
    branches: Map<u64, BranchModel>,
    keys: Seq<u64>,
    src_paths: Seq<Seq<char>>,
)
    ensures
        branches_text(branches, keys, src_paths) == keys.map_values(
            |v: u64| branch_text(branches[v], src_paths),
        ).flatten(),
    decreases keys.len(),
{
    let record = |v: u64| branch_text(branches[v], src_paths);
    let records = keys.map_values(record);
    if keys.len() > 0 {
        let rest = keys.drop_last();
        lemma_branches(branches, rest, src_paths);
        assert(records =~= rest.map_values(record).push(record(keys.last())));
        rest.map_values(record).lemma_flatten_push(record(keys.last()));
    } else {
        assert(records =~= seq![]);
    }
}

/// The branch report says of every branch what there is to say, in the order of their addresses.
pub proof fn law_branch_report(branches: Branches, src_paths: Seq<String>)
    ensures
        branches_text(
            branch_views(branches@),
            ascending(branches@.dom()),
            views(src_paths),
        ) == ascending(branches@.dom()).map_values(
            |v: u64| branch_text(branches@[v]@, views(src_paths)),
        ).flatten(),
{
    let models = branch_views(branches@);
    let keys = ascending(branches@.dom());
    lemma_branches(models, keys, views(src_paths));
    assert(branches@.dom().finite());
    law_ascending(branches@.dom());
    let a = keys.map_values(|v: u64| branch_text(models[v], views(src_paths)));
    let b = keys.map_values(|v: u64| branch_text(branches@[v]@, views(src_paths)));
    assert forall|i: int| 0 <= i < keys.len() implies #[trigger] a[i] == b[i] by {
        assert(keys.to_set().contains(keys[i]));
        assert(branches@.contains_key(keys[i]));
        assert(models[keys[i]] == branches@[keys[i]]@);
    }
    assert(a =~= b);
}

/// There is a branch report exactly when there are branches to report on.
pub proof fn law_reports_branches(
    branches: Result<Branches, CoverageError>,
    src_paths: Seq<String>,
    report: Option<String>,
)
    requires
        reports_branches(branches, views(src_paths), report),
    ensures
        report is Some <==> branches is Ok,
        branches is Ok ==> report->0@ == ascending(
            branches->Ok_0@.dom(),
        ).map_values(|v: u64| branch_text(branches->Ok_0@[v]@, views(src_paths))).flatten(),
{
    if branches is Ok {
        law_branch_report(branches->Ok_0, src_paths);
    }
}

/// The number of line hits of a trace is the number of its executed addresses that have a source line.
pub proof fn law_line_hits(dwarf: Dwarf<'_>, vaddrs: Seq<u64>, line_hits: usize)
    requires
        line_hits == with_lines(entry_views(dwarf.vaddr_entry_map@), vaddrs).len(),
    ensures
        line_hits == vaddrs.filter(|v: u64| dwarf.vaddr_entry_map@.contains_key(v)).len(),
{
    law_kept_addresses(dwarf.vaddr_entry_map@, vaddrs);
}

} // verus!
