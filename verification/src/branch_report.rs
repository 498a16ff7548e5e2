//! The branch report in the `lcov` format.

use crate::branch::{branch_views, Branch, BranchModel, Branches};
use crate::order::{ascending, listed};
use crate::sources::{file_mentions, mentions};
use crate::text::{decimal, push_decimal, views};
use vstd::prelude::*;
use vstd::utf8::encode_utf8;

verus! {

broadcast use vstd::std_specs::btree::group_btree_axioms;

/// The direction of a branch that was not taken.
#[derive(PartialEq, Eq, Clone, Copy, Structural, Debug)]
pub enum LcovBranch {
    NextNotTaken,
    GotoNotTaken,
}

/// The record of one direction of a branch in the `lcov` format.
pub open spec fn lcov_record(
    file: Seq<char>,
    line: u32,
    taken: LcovBranch,
    branch_id: nat,
) -> Seq<char> {
    let line = decimal(line as nat);
    let id = decimal(branch_id);
    let (next, goto) = match taken {
        LcovBranch::NextNotTaken => ("0"@, "1"@),
        LcovBranch::GotoNotTaken => ("1"@, "0"@),
    };
    "\nSF:"@ + file + "\nDA:"@ + line + ",1\nBRDA:"@ + line + ","@ + id + ",0,"@ + next
        + "\nBRDA:"@ + line + ","@ + id + ",1,"@ + goto + "\nend_of_record\n"@
}

/// Appends the record of one direction of a branch and tells how many bytes it takes.
pub fn write_branch_lcov(
    lcov_file: &mut String,
    file: &str,
    line: u32,
    taken: LcovBranch,
    branch_id: u64,
) -> (written: usize)
    ensures
        final(lcov_file)@ == old(lcov_file)@ + lcov_record(file@, line, taken, branch_id as nat),
        written == encode_utf8(lcov_record(file@, line, taken, branch_id as nat)).len() as usize,
{
    let mut record = String::new();
    record.append("\nSF:");
    record.append(file);
    record.append("\nDA:");
    push_decimal(&mut record, line as u64);
    record.append(",1\nBRDA:");
    push_decimal(&mut record, line as u64);
    record.append(",");
    push_decimal(&mut record, branch_id);
    record.append(",0,");
    record.append(
        if taken == LcovBranch::NextNotTaken {
            "0"
        } else {
            "1"
        },
    );
    record.append("\nBRDA:");
    push_decimal(&mut record, line as u64);
    record.append(",");
    push_decimal(&mut record, branch_id);
    record.append(",1,");
    record.append(
        if taken == LcovBranch::NextNotTaken {
            "1"
        } else {
            "0"
        },
    );
    record.append("\nend_of_record\n");
    assert(record@ =~= lcov_record(file@, line, taken, branch_id as nat));
    lcov_file.append(record.as_str());
    record.as_str().len()
}

/// What the report says of a branch: nothing where its source line is not known or its file mentions
/// none of the source paths, both directions where both were taken, and otherwise the one direction
/// that was not taken.
pub open spec fn branch_text(branch: BranchModel, src_paths: Seq<Seq<char>>) -> Seq<char> {
    match (branch.file, branch.line) {
        (Some(file), Some(line)) => if !mentions(file, src_paths) {
            seq![]
        } else if branch.goto_taken != 0 && branch.next_taken != 0 {
            lcov_record(file, line, LcovBranch::NextNotTaken, branch.branch_id) + lcov_record(
                file,
                line,
                LcovBranch::GotoNotTaken,
                branch.branch_id,
            )
        } else if branch.next_taken == 0 {
            lcov_record(file, line, LcovBranch::NextNotTaken, branch.branch_id)
        } else {
            lcov_record(file, line, LcovBranch::GotoNotTaken, branch.branch_id)
        },
        _ => seq![],
    }
}

/// What the report says of the branches at the addresses `keys`.
pub open spec fn branches_text(
    branches: Map<u64, BranchModel>,
    keys: Seq<u64>,
    src_paths: Seq<Seq<char>>,
) -> Seq<char>
    decreases keys.len(),
{
    if keys.len() == 0 {
        seq![]
    } else {
        branches_text(branches, keys.drop_last(), src_paths) + branch_text(
            branches[keys.last()],
            src_paths,
        )
    }
}

/// Appends what the report says of a branch.
fn write_branch(out: &mut String, branch: &Branch, src_paths: &Vec<String>)
    ensures
        final(out)@ == old(out)@ + branch_text(branch@, views(src_paths@)),
{
    if let Some(file) = &branch.file {
        if let Some(line) = branch.line {
            if file_mentions(file.as_str(), src_paths) {
                if branch.goto_taken != 0 && branch.next_taken != 0 {
                    // Both directions were taken.
                    write_branch_lcov(
                        out,
                        file.as_str(),
                        line,
                        LcovBranch::NextNotTaken,
                        branch.branch_id,
                    );
                    write_branch_lcov(
                        out,
                        file.as_str(),
                        line,
                        LcovBranch::GotoNotTaken,
                        branch.branch_id,
                    );
                } else {
                    let taken = if branch.next_taken == 0 {
                        LcovBranch::NextNotTaken
                    } else {
                        LcovBranch::GotoNotTaken
                    };
                    write_branch_lcov(out, file.as_str(), line, taken, branch.branch_id);
                }
            }
        }
    }
    assert(out@ =~= old(out)@ + branch_text(branch@, views(src_paths@)));
}

/// The report of the branches in ascending order of their addresses. It is empty where nothing is to
/// be reported.
pub fn write_branch_coverage(branches: &Branches, src_paths: &Vec<String>) -> (report: String)
    ensures
        report@ == branches_text(
            branch_views(branches@),
            ascending(branches@.dom()),
            views(src_paths@),
        ),
{
    let pairs = listed(branches);
    let mut report = String::new();
    let ghost models = branch_views(branches@);
    let ghost keys = ascending(branches@.dom());
    for i in 0..pairs.len()
        invariant
            models == branch_views(branches@),
            pairs@.len() == keys.len(),
            forall|j: int|
                0 <= j < pairs@.len() ==> {
                    &&& (#[trigger] pairs@[j]).0 == keys[j]
                    &&& branches@.contains_key(pairs@[j].0)
                    &&& *pairs@[j].1 == branches@[pairs@[j].0]
                },
            report@ == branches_text(models, keys.take(i as int), views(src_paths@)),
    {
        let (vaddr, branch) = pairs[i];
        write_branch(&mut report, branch, src_paths);
        proof {
            assert(models[keys[i as int]] == branch@);
            assert(keys.take(i + 1).drop_last() == keys.take(i as int));
        }
    }
    assert(keys.take(keys.len() as int) == keys);
    report
}

/// Whether the report says something of a branch: its source line is known, and its file mentions one
/// of the source paths.
pub open spec fn is_reported(branch: BranchModel, src_paths: Seq<Seq<char>>) -> bool {
    match (branch.file, branch.line) {
        (Some(file), Some(_)) => mentions(file, src_paths),
        _ => false,
    }
}

/// The report is empty exactly when none of the branches is to be reported.
pub proof fn law_empty_report(
    branches: Map<u64, BranchModel>,
    keys: Seq<u64>,
    src_paths: Seq<Seq<char>>,
)
    ensures
        branches_text(branches, keys, src_paths).len() == 0 <==> forall|i: int|
            0 <= i < keys.len() ==> !is_reported(branches[#[trigger] keys[i]], src_paths),
    decreases keys.len(),
{
    if keys.len() > 0 {
        let rest = keys.drop_last();
        let last = branches[keys.last()];
        law_empty_report(branches, rest, src_paths);
        reveal_strlit("\nSF:");
        assert(branch_text(last, src_paths).len() == 0 <==> !is_reported(last, src_paths));
        assert(keys.last() == keys[keys.len() - 1]);
        assert forall|i: int| 0 <= i < rest.len() implies #[trigger] rest[i] == keys[i] by {}
        if forall|i: int|
            0 <= i < rest.len() ==> !is_reported(branches[#[trigger] rest[i]], src_paths) {
            assert forall|i: int| 0 <= i < rest.len() implies !is_reported(
                branches[#[trigger] keys[i]],
                src_paths,
            ) by {
                assert(rest[i] == keys[i]);
            }
        }
    }
}

/// A branch of which both directions were taken has a record for each, and any other branch that is
/// reported has one record, in which the direction that was not taken has the number 0.
pub proof fn law_branch_records(branch: BranchModel, src_paths: Seq<Seq<char>>)
    requires
        is_reported(branch, src_paths),
        branch.next_taken + branch.goto_taken >= 1,
    ensures
        ({
            let text = branch_text(branch, src_paths);
            let next = lcov_record(
                branch.file->0,
                branch.line->0,
                LcovBranch::NextNotTaken,
                branch.branch_id,
            );
            let goto = lcov_record(
                branch.file->0,
                branch.line->0,
                LcovBranch::GotoNotTaken,
                branch.branch_id,
            );
            &&& branch.next_taken > 0 && branch.goto_taken > 0 ==> text == next + goto
            &&& branch.next_taken == 0 ==> text == next
            &&& branch.goto_taken == 0 ==> text == goto
        }),
{
}

} // verus!
