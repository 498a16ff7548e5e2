//! The line report in the `lcov` format.

use crate::coverage::{file_views, is_file_at, lemma_by_name, FileLineCountMap, FileLines};
use crate::order::{
    ascending_lines, ascending_strings, lemma_listing_unique, lemma_str_order, listed_lines, str_le,
};
use crate::text::{decimal, push_decimal};
use vstd::prelude::*;
use vstd::relations::sorted_by;

verus! {

broadcast use vstd::std_specs::btree::group_btree_axioms;

/// The rows of the lines `keys` of a source file.
pub open spec fn rows_text(lines: Map<u32, nat>, keys: Seq<u32>) -> Seq<char>
    decreases keys.len(),
{
    if keys.len() == 0 {
        seq![]
    } else {
        rows_text(lines, keys.drop_last()) + "DA:"@ + decimal(keys.last() as nat) + ","@ + decimal(
            lines[keys.last()],
        ) + "\n"@
    }
}

/// The record of a source file: its name, and its lines in ascending order with their counts.
pub open spec fn file_text(file: Seq<char>, lines: Map<u32, nat>) -> Seq<char> {
    "SF:"@ + file + "\n"@ + rows_text(lines, ascending_lines(lines.dom())) + "end_of_record\n"@
}

/// The records of the source files `names`.
pub open spec fn files_text(counts: Map<Seq<char>, Map<u32, nat>>, names: Seq<Seq<char>>) -> Seq<
    char,
>
    decreases names.len(),
{
    if names.len() == 0 {
        seq![]
    } else {
        files_text(counts, names.drop_last()) + file_text(names.last(), counts[names.last()])
    }
}

/// The report: the records of all source files in the order of their names.
pub open spec fn lcov_text(counts: Map<Seq<char>, Map<u32, nat>>) -> Seq<char> {
    files_text(counts, ascending_strings(counts.dom()))
}

/// Appends the record of a source file.
fn write_file(out: &mut String, lines: &FileLines<'_>)
    ensures
        final(out)@ == old(out)@ + file_text(lines@.0, lines@.1),
{
    let pairs = listed_lines(&lines.lines);
    let ghost model = lines@.1;
    let ghost keys = ascending_lines(lines.lines@.dom());
    assert(model.dom() =~= lines.lines@.dom());
    out.append("SF:");
    out.append(lines.file);
    out.append("\n");
    let ghost head = out@;
    for i in 0..pairs.len()
        invariant
            model == lines@.1,
            pairs@.len() == keys.len(),
            forall|j: int|
                0 <= j < pairs@.len() ==> {
                    &&& (#[trigger] pairs@[j]).0 == keys[j]
                    &&& lines.lines@.contains_key(pairs@[j].0)
                    &&& *pairs@[j].1 == lines.lines@[pairs@[j].0]
                },
            out@ == head + rows_text(model, keys.take(i as int)),
    {
        let (line, count) = pairs[i];
        let ghost before = out@;
        out.append("DA:");
        push_decimal(out, line as u64);
        out.append(",");
        push_decimal(out, *count as u64);
        out.append("\n");
        proof {
            assert(model[keys[i as int]] == *count);
            assert(keys.take(i + 1).drop_last() == keys.take(i as int));
            assert(out@ =~= head + rows_text(model, keys.take(i + 1)));
        }
    }
    assert(keys.take(keys.len() as int) == keys);
    out.append("end_of_record\n");
    assert(out@ =~= old(out)@ + file_text(lines@.0, lines@.1));
}

/// Writes the line report.
pub fn write_lcov(counts: &FileLineCountMap<'_>) -> (report: String)
    requires
        counts.well_formed(),
    ensures
        report@ == lcov_text(counts@),
{
    let mut report = String::new();
    let ghost views = file_views(counts.files@);
    let ghost names = views.map_values(|f: (Seq<char>, Map<u32, nat>)| f.0);
    for i in 0..counts.files.len()
        invariant
            counts.well_formed(),
            views == file_views(counts.files@),
            names == views.map_values(|f: (Seq<char>, Map<u32, nat>)| f.0),
            report@ == files_text(counts@, names.take(i as int)),
    {
        write_file(&mut report, &counts.files[i]);
        proof {
            lemma_by_name(views, i as int);
            assert(names.take(i + 1).drop_last() == names.take(i as int));
        }
    }
    proof {
        let leq = |a: Seq<char>, b: Seq<char>| str_le(a, b);
        lemma_str_order();
        assert(names.take(names.len() as int) == names);
        assert forall|i: int, j: int| 0 <= i < j < names.len() implies leq(
            #[trigger] names[i],
            #[trigger] names[j],
        ) && names[i] != names[j] by {
            assert(str_le(views[i].0, views[j].0));
        }
        assert(sorted_by(names, leq));
        assert forall|f: Seq<char>| names.to_set().contains(f) <==> counts@.dom().contains(f) by {
            if names.contains(f) {
                let i = choose|i: int| 0 <= i < names.len() && names[i] == f;
                assert(is_file_at(views, f, i));
            }
            if counts@.dom().contains(f) {
                let i = choose|i: int| is_file_at(views, f, i);
                assert(names[i] == f);
            }
        }
        assert(names.to_set() =~= counts@.dom());
        lemma_listing_unique(names, counts@.dom(), leq);
    }
    report
}

} // verus!
