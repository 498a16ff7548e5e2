//! Laws of line coverage.

use crate::coverage::{
    counts_after, file_views, hits, is_file_at, law_counts_add_up, lemma_by_name, line_counts, total,
    with_count, with_lines, FileLineCountMap, FileLines,
};
use crate::dwarf::{entry_views, Entry, VaddrEntryMap};
use crate::order::str_le;
use vstd::prelude::*;

verus! {

broadcast use vstd::std_specs::btree::group_btree_axioms;

/// The source lines of addresses, as file names and line numbers.
pub proof fn law_entries(entries: Map<u64, Entry<'_>>)
    ensures
        entry_views(entries).dom() == entries.dom(),
        forall|v: u64| #[trigger]
            entries.contains_key(v) ==> entry_views(entries)[v] == (
                entries[v].file@,
                entries[v].line,
            ),
{
    assert(entry_views(entries).dom() =~= entries.dom());
}

/// The hits of a line are the executed addresses that have it.
proof fn lemma_hits(
    entries: Map<u64, (Seq<char>, u32)>,
    vaddrs: Seq<u64>,
    entry: (Seq<char>, u32),
    p: spec_fn(u64) -> bool,
)
    requires
        forall|v: u64| #[trigger] p(v) <==> entries.contains_key(v) && entries[v] == entry,
    ensures
        hits(entries, vaddrs, entry, vaddrs.len() as int) == vaddrs.filter(p).len(),
    decreases vaddrs.len(),
{
    reveal(Seq::filter);
    if vaddrs.len() > 0 {
        let rest = vaddrs.drop_last();
        lemma_hits(entries, rest, entry, p);
        lemma_hits_of_rest(entries, vaddrs, entry, rest.len() as int);
        assert(p(vaddrs.last()) <==> entries.contains_key(vaddrs.last()) && entries[vaddrs.last()]
            == entry);
    }
}

proof fn lemma_hits_of_rest(
    entries: Map<u64, (Seq<char>, u32)>,
    vaddrs: Seq<u64>,
    entry: (Seq<char>, u32),
    n: int,
)
    requires
        n < vaddrs.len(),
    ensures
        hits(entries, vaddrs.drop_last(), entry, n) == hits(entries, vaddrs, entry, n),
    decreases n,
{
    if n > 0 {
        lemma_hits_of_rest(entries, vaddrs, entry, n - 1);
    }
}

/// Whether `counts` are the counts of the source lines of a trace. Exactly the lines that have an
/// address are listed, and the count of a line is the number of executed addresses that have it.
pub open spec fn counts_executions(
    entries: Map<u64, (Seq<char>, u32)>,
    vaddrs: Seq<u64>,
    counts: Map<Seq<char>, Map<u32, nat>>,
) -> bool {
    &&& forall|v: u64| #[trigger]
        entries.contains_key(v) ==> {
            let (file, line) = entries[v];
            counts.contains_key(file) && counts[file].contains_key(line)
        }
    &&& forall|file: Seq<char>| #[trigger]
        counts.contains_key(file) ==> exists|v: u64| #[trigger]
            entries.contains_key(v) && entries[v].0 == file
    &&& forall|file: Seq<char>, line: u32|
        counts.contains_key(file) && #[trigger] counts[file].contains_key(line) ==> {
            &&& exists|v: u64| #[trigger] entries.contains_key(v) && entries[v] == (file, line)
            &&& counts[file][line] == vaddrs.filter(
                |v: u64| entries.contains_key(v) && entries[v] == (file, line),
            ).len()
        }
}

/// The counts of a trace are those of its executed addresses.
pub proof fn law_line_counts(entries: Map<u64, (Seq<char>, u32)>, vaddrs: Seq<u64>)
    ensures
        counts_executions(entries, vaddrs, line_counts(entries, vaddrs)),
{
    let counts = line_counts(entries, vaddrs);
    let values = entries.values();
    assert forall|v: u64| #[trigger] entries.contains_key(v) implies {
        let (file, line) = entries[v];
        counts.contains_key(file) && counts[file].contains_key(line)
    } by {
        let (file, line) = entries[v];
        assert(entries.dom().contains(v));
        assert(values.contains((file, line)));
    }
    assert forall|file: Seq<char>| #[trigger] counts.contains_key(file) implies exists|v: u64|
        #[trigger] entries.contains_key(v) && entries[v].0 == file by {
        let line = choose|line: u32| values.contains((file, line));
        let v = choose|v: u64| #[trigger] entries.dom().contains(v) && entries[v] == (file, line);
        assert(entries.contains_key(v));
    }
    assert forall|file: Seq<char>, line: u32|
        counts.contains_key(file) && #[trigger] counts[file].contains_key(line) implies {
        &&& exists|v: u64| #[trigger] entries.contains_key(v) && entries[v] == (file, line)
        &&& counts[file][line] == vaddrs.filter(
            |v: u64| entries.contains_key(v) && entries[v] == (file, line),
        ).len()
    } by {
        let v = choose|v: u64| #[trigger] entries.dom().contains(v) && entries[v] == (file, line);
        assert(values.contains((file, line)));
        assert(entries.contains_key(v));
        lemma_hits(
            entries,
            vaddrs,
            (file, line),
            |v: u64| entries.contains_key(v) && entries[v] == (file, line),
        );
    }
}

/// Whether the files of a report hold the counts of a trace: every source line that has an address is
/// there, in the file of its name; every row that is there is one of these lines and has the number of
/// executed addresses of that line; and the files come in the order of their names, each once.
pub open spec fn files_count_executions(
    entries: Map<u64, Entry<'_>>,
    vaddrs: Seq<u64>,
    files: Seq<FileLines<'_>>,
) -> bool {
    &&& forall|v: u64| #[trigger] entries.contains_key(v) ==> has_row_of(files, entries[v])
    &&& forall|k: int, line: u32|
        0 <= k < files.len() && #[trigger] files[k].lines@.contains_key(line) ==> {
            &&& has_address(entries, files[k].file@, line)
            &&& files[k].lines@[line] == vaddrs.filter(
                |v: u64|
                    entries.contains_key(v) && entries[v].file@ == files[k].file@ && entries[v].line
                        == line,
            ).len()
        }
    &&& forall|k: int|
        0 <= k < files.len() ==> has_file_address(entries, (#[trigger] files[k]).file@)
    &&& forall|i: int, j: int|
        0 <= i < j < files.len() ==> str_le(
            (#[trigger] files[i]).file@,
            (#[trigger] files[j]).file@,
        ) && files[i].file@ != files[j].file@
}

/// What a map of counts holds by name is what its files hold.
pub proof fn law_counts_by_name(map: FileLineCountMap<'_>)
    requires
        map.well_formed(),
    ensures
        forall|k: int|
            0 <= k < map.files@.len() ==> {
                let file = #[trigger] map.files@[k];
                &&& map@.contains_key(file.file@)
                &&& map@[file.file@].dom() == file.lines@.dom()
                &&& forall|line: u32| #[trigger]
                    file.lines@.contains_key(line) ==> map@[file.file@][line] == file.lines@[line]
            },
        forall|name: Seq<char>| #[trigger]
            map@.contains_key(name) ==> exists|k: int|
                0 <= k < map.files@.len() && (#[trigger] map.files@[k]).file@ == name,
        forall|i: int, j: int|
            0 <= i < j < map.files@.len() ==> str_le(
                (#[trigger] map.files@[i]).file@,
                (#[trigger] map.files@[j]).file@,
            ) && map.files@[i].file@ != map.files@[j].file@,
{
    let views = file_views(map.files@);
    assert forall|k: int| 0 <= k < map.files@.len() implies {
        let file = #[trigger] map.files@[k];
        &&& map@.contains_key(file.file@)
        &&& map@[file.file@].dom() == file.lines@.dom()
        &&& forall|line: u32| #[trigger]
            file.lines@.contains_key(line) ==> map@[file.file@][line] == file.lines@[line]
    } by {
        lemma_by_name(views, k);
        assert(views[k] == map.files@[k]@);
        assert(map@[map.files@[k].file@].dom() =~= map.files@[k].lines@.dom());
    }
    assert forall|name: Seq<char>| #[trigger] map@.contains_key(name) implies exists|k: int|
        0 <= k < map.files@.len() && (#[trigger] map.files@[k]).file@ == name by {
        let k = choose|k: int| is_file_at(views, name, k);
        assert(views[k] == map.files@[k]@);
        assert(map.files@[k].file@ == name);
    }
    assert forall|i: int, j: int| 0 <= i < j < map.files@.len() implies str_le(
        (#[trigger] map.files@[i]).file@,
        (#[trigger] map.files@[j]).file@,
    ) && map.files@[i].file@ != map.files@[j].file@ by {
        assert(views[i] == map.files@[i]@ && views[j] == map.files@[j]@);
        assert(str_le(views[i].0, views[j].0));
    }
}

/// Whether a file has the row that an address asks for.
pub open spec fn has_row_of(files: Seq<FileLines<'_>>, entry: Entry<'_>) -> bool {
    exists|k: int|
        0 <= k < files.len() && (#[trigger] files[k]).file@ == entry.file@
            && files[k].lines@.contains_key(entry.line)
}

/// Whether an address, executed or not, has the line.
pub open spec fn has_address(entries: Map<u64, Entry<'_>>, file: Seq<char>, line: u32) -> bool {
    exists|v: u64| #[trigger]
        entries.contains_key(v) && entries[v].file@ == file && entries[v].line == line
}

/// Whether an address lies in the file.
pub open spec fn has_file_address(entries: Map<u64, Entry<'_>>, file: Seq<char>) -> bool {
    exists|v: u64| #[trigger] entries.contains_key(v) && entries[v].file@ == file
}

proof fn lemma_built_entry(
    entries: Map<u64, Entry<'_>>,
    vaddrs: Seq<u64>,
    map: FileLineCountMap<'_>,
    v: u64,
)
    requires
        map.well_formed(),
        map@ == line_counts(entry_views(entries), vaddrs),
        entries.contains_key(v),
    ensures
        has_row_of(map.files@, entries[v]),
{
    let model = entry_views(entries);
    let files = map.files@;
    law_entries(entries);
    law_line_counts(model, vaddrs);
    law_counts_by_name(map);
    assert(model.contains_key(v));
    assert(map@.contains_key(entries[v].file@));
    let k = choose|k: int| 0 <= k < files.len() && (#[trigger] files[k]).file@ == entries[v].file@;
    assert(map@[files[k].file@].contains_key(entries[v].line));
}

proof fn lemma_built_row(
    entries: Map<u64, Entry<'_>>,
    vaddrs: Seq<u64>,
    map: FileLineCountMap<'_>,
    k: int,
    line: u32,
)
    requires
        map.well_formed(),
        map@ == line_counts(entry_views(entries), vaddrs),
        0 <= k < map.files@.len(),
        map.files@[k].lines@.contains_key(line),
    ensures
        has_address(entries, map.files@[k].file@, line),
        map.files@[k].lines@[line] == vaddrs.filter(
            |v: u64|
                entries.contains_key(v) && entries[v].file@ == map.files@[k].file@
                    && entries[v].line == line,
        ).len(),
{
    let model = entry_views(entries);
    let file = map.files@[k].file@;
    law_entries(entries);
    law_line_counts(model, vaddrs);
    law_counts_by_name(map);
    assert(map@[file].contains_key(line));
    let v = choose|v: u64| #[trigger] model.contains_key(v) && model[v] == (file, line);
    assert(entries.contains_key(v));
    let p = |v: u64|
        entries.contains_key(v) && entries[v].file@ == map.files@[k].file@ && entries[v].line
            == line;
    let q = |v: u64| model.contains_key(v) && model[v] == (file, line);
    assert forall|v: u64| #[trigger] p(v) == q(v) by {
        assert(model.contains_key(v) == entries.contains_key(v));
    }
    assert(p =~= q);
}

proof fn lemma_built_file(
    entries: Map<u64, Entry<'_>>,
    vaddrs: Seq<u64>,
    map: FileLineCountMap<'_>,
    k: int,
)
    requires
        map.well_formed(),
        map@ == line_counts(entry_views(entries), vaddrs),
        0 <= k < map.files@.len(),
    ensures
        has_file_address(entries, map.files@[k].file@),
{
    let model = entry_views(entries);
    law_entries(entries);
    law_line_counts(model, vaddrs);
    law_counts_by_name(map);
    let file = map.files@[k];
    assert(map@.contains_key(file.file@));
    let v = choose|v: u64| #[trigger] model.contains_key(v) && model[v].0 == file.file@;
    assert(entries.contains_key(v));
}

/// The rows that are built for a trace have the numbers of executed addresses of their lines.
pub proof fn law_built_counts(
    entries: Map<u64, Entry<'_>>,
    vaddrs: Seq<u64>,
    map: FileLineCountMap<'_>,
)
    requires
        map.well_formed(),
        map@ == line_counts(entry_views(entries), vaddrs),
    ensures
        files_count_executions(entries, vaddrs, map.files@),
{
    let files = map.files@;
    law_counts_by_name(map);
    assert forall|v: u64| #[trigger] entries.contains_key(v) implies has_row_of(
        files,
        entries[v],
    ) by {
        lemma_built_entry(entries, vaddrs, map, v);
    }
    assert forall|k: int, line: u32|
        0 <= k < files.len() && #[trigger] files[k].lines@.contains_key(line) implies {
        &&& has_address(entries, files[k].file@, line)
        &&& files[k].lines@[line] == vaddrs.filter(
            |v: u64|
                entries.contains_key(v) && entries[v].file@ == files[k].file@ && entries[v].line
                    == line,
        ).len()
    } by {
        lemma_built_row(entries, vaddrs, map, k, line);
    }
    assert forall|k: int| 0 <= k < files.len() implies has_file_address(
        entries,
        (#[trigger] files[k]).file@,
    ) by {
        lemma_built_file(entries, vaddrs, map, k);
    }
}

/// A row of the report of a trace has the number 0 exactly when no executed address has its line.
pub proof fn law_unexecuted_rows(
    entries: Map<u64, Entry<'_>>,
    vaddrs: Seq<u64>,
    map: FileLineCountMap<'_>,
    k: int,
    line: u32,
)
    requires
        map.well_formed(),
        map@ == line_counts(entry_views(entries), vaddrs),
        0 <= k < map.files@.len(),
        map.files@[k].lines@.contains_key(line),
    ensures
        map.files@[k].lines@[line] == 0 <==> forall|i: int|
            0 <= i < vaddrs.len() && entries.contains_key(#[trigger] vaddrs[i])
                ==> entries[vaddrs[i]].file@ != map.files@[k].file@ || entries[vaddrs[i]].line
                != line,
{
    lemma_built_row(entries, vaddrs, map, k, line);
    let p = |v: u64|
        entries.contains_key(v) && entries[v].file@ == map.files@[k].file@ && entries[v].line
            == line;
    lemma_empty_filter(vaddrs, p);
    if vaddrs.filter(p).len() == 0 {
        assert forall|i: int|
            0 <= i < vaddrs.len() && entries.contains_key(#[trigger] vaddrs[i]) implies
            entries[vaddrs[i]].file@ != map.files@[k].file@ || entries[vaddrs[i]].line != line by {
            assert(!p(vaddrs[i]));
        }
    } else {
        let i = choose|i: int| 0 <= i < vaddrs.len() && p(#[trigger] vaddrs[i]);
        assert(p(vaddrs[i]));
    }
}

/// Nothing is left of a list exactly when nothing in it has the property.
proof fn lemma_empty_filter(s: Seq<u64>, p: spec_fn(u64) -> bool)
    ensures
        s.filter(p).len() == 0 <==> forall|i: int| 0 <= i < s.len() ==> !p(#[trigger] s[i]),
    decreases s.len(),
{
    reveal(Seq::filter);
    if s.len() > 0 {
        let rest = s.drop_last();
        lemma_empty_filter(rest, p);
        if s.filter(p).len() == 0 {
            assert forall|i: int| 0 <= i < s.len() implies !p(#[trigger] s[i]) by {
                if i < rest.len() {
                    assert(rest[i] == s[i]);
                }
            }
        } else if rest.filter(p).len() > 0 {
            let i = choose|i: int| 0 <= i < rest.len() && p(#[trigger] rest[i]);
            assert(p(s[i]));
        } else {
            assert(p(s[s.len() - 1]));
        }
    }
}

/// Setting the count of a line sets that count and no other.
pub proof fn law_set_count(
    counts: Map<Seq<char>, Map<u32, nat>>,
    entry: (Seq<char>, u32),
    count: nat,
)
    ensures
        ({
            let after = with_count(counts, entry, count);
            &&& after.contains_key(entry.0)
            &&& after[entry.0].contains_key(entry.1)
            &&& after[entry.0][entry.1] == count
            &&& forall|file: Seq<char>|
                file != entry.0 ==> (#[trigger] after.contains_key(file) <==> counts.contains_key(
                    file,
                )) && (counts.contains_key(file) ==> after[file] == counts[file])
            &&& forall|line: u32|
                line != entry.1 ==> (#[trigger] after[entry.0].contains_key(line)
                    <==> counts.contains_key(entry.0) && counts[entry.0].contains_key(line)) && (
                counts.contains_key(entry.0) && counts[entry.0].contains_key(line)
                    ==> after[entry.0][line] == counts[entry.0][line])
        }),
{
}

/// The addresses that are kept are those with a source line, in their order.
pub proof fn law_kept_addresses(entries: Map<u64, Entry<'_>>, vaddrs: Seq<u64>)
    ensures
        with_lines(entry_views(entries), vaddrs) == vaddrs.filter(|v: u64| entries.contains_key(v)),
{
    let model = entry_views(entries);
    law_entries(entries);
    let p = |v: u64| model.contains_key(v);
    let q = |v: u64| entries.contains_key(v);
    assert forall|v: u64| #[trigger] p(v) == q(v) by {
        assert(model.dom().contains(v) == entries.dom().contains(v));
    }
    assert(p =~= q);
    assert(with_lines(model, vaddrs) == vaddrs.filter(p));
}

/// The sum of the counts of the lines of a file.
pub open spec fn sum_of_lines(lines: Map<u32, usize>) -> nat
    decreases lines.dom().len(),
    when lines.dom().finite()
{
    if lines.dom().len() == 0 {
        0
    } else {
        let line = lines.dom().choose();
        lines[line] as nat + sum_of_lines(lines.remove(line))
    }
}

/// The sum of all counts of a report.
pub open spec fn sum_of_files(files: Seq<FileLines<'_>>) -> nat
    decreases files.len(),
{
    if files.len() == 0 {
        0
    } else {
        sum_of_files(files.drop_last()) + sum_of_lines(files.last().lines@)
    }
}

/// The lines of a file with its name.
spec fn pairs_of(name: Seq<char>, lines: Set<u32>) -> Set<(Seq<char>, u32)> {
    Set::new(|p: (Seq<char>, u32)| p.0 == name && lines.contains(p.1))
}

/// The lines of files with their names.
spec fn pairs_of_files(files: Seq<FileLines<'_>>) -> Set<(Seq<char>, u32)> {
    Set::new(
        |p: (Seq<char>, u32)|
            exists|k: int|
                0 <= k < files.len() && (#[trigger] files[k]).file@ == p.0
                    && files[k].lines@.contains_key(p.1),
    )
}

proof fn lemma_total_remove(
    s: Set<(Seq<char>, u32)>,
    c: spec_fn((Seq<char>, u32)) -> nat,
    x: (Seq<char>, u32),
)
    requires
        s.finite(),
        s.contains(x),
    ensures
        total(s, c) == c(x) + total(s.remove(x), c),
    decreases s.len(),
{
    let y = s.choose();
    if y != x {
        lemma_total_remove(s.remove(y), c, x);
        lemma_total_remove(s.remove(x), c, y);
        assert(s.remove(y).remove(x) =~= s.remove(x).remove(y));
    }
}

proof fn lemma_total_of_lines(
    name: Seq<char>,
    lines: Map<u32, usize>,
    c: spec_fn((Seq<char>, u32)) -> nat,
)
    requires
        lines.dom().finite(),
        forall|line: u32| #[trigger] lines.contains_key(line) ==> lines[line] == c((name, line)),
    ensures
        pairs_of(name, lines.dom()).finite(),
        total(pairs_of(name, lines.dom()), c) == sum_of_lines(lines),
    decreases lines.dom().len(),
{
    let pairs = pairs_of(name, lines.dom());
    if lines.dom().len() == 0 {
        assert(pairs =~= Set::empty());
    } else {
        let line = lines.dom().choose();
        let rest = lines.remove(line);
        assert forall|l: u32| #[trigger] rest.contains_key(l) implies rest[l] == c((name, l)) by {
            assert(lines.contains_key(l));
        }
        lemma_total_of_lines(name, rest, c);
        assert(pairs =~= pairs_of(name, rest.dom()).insert((name, line)));
        assert(pairs.remove((name, line)) =~= pairs_of(name, rest.dom()));
        lemma_total_remove(pairs, c, (name, line));
        assert(lines.contains_key(line));
    }
}

proof fn lemma_total_union(
    a: Set<(Seq<char>, u32)>,
    b: Set<(Seq<char>, u32)>,
    c: spec_fn((Seq<char>, u32)) -> nat,
)
    requires
        a.finite(),
        b.finite(),
        a.disjoint(b),
    ensures
        total(a.union(b), c) == total(a, c) + total(b, c),
    decreases b.len(),
{
    if b.len() == 0 {
        assert(a.union(b) =~= a);
    } else {
        let x = b.choose();
        lemma_total_union(a, b.remove(x), c);
        assert(a.union(b).remove(x) =~= a.union(b.remove(x)));
        lemma_total_remove(a.union(b), c, x);
        lemma_total_remove(b, c, x);
    }
}

proof fn lemma_total_of_files(
    files: Seq<FileLines<'_>>,
    c: spec_fn((Seq<char>, u32)) -> nat,
)
    requires
        forall|i: int, j: int|
            0 <= i < j < files.len() ==> (#[trigger] files[i]).file@ != (#[trigger] files[j]).file@,
        forall|k: int| 0 <= k < files.len() ==> (#[trigger] files[k]).lines@.dom().finite(),
        forall|k: int, line: u32|
            0 <= k < files.len() && #[trigger] files[k].lines@.contains_key(line)
                ==> files[k].lines@[line] == c((files[k].file@, line)),
    ensures
        pairs_of_files(files).finite(),
        total(pairs_of_files(files), c) == sum_of_files(files),
    decreases files.len(),
{
    let all = pairs_of_files(files);
    if files.len() == 0 {
        assert(all =~= Set::empty());
    } else {
        let rest = files.drop_last();
        let last = files.last();
        let n = files.len() - 1;
        assert forall|k: int| 0 <= k < rest.len() implies (
        #[trigger] rest[k]).lines@.dom().finite() by {
            assert(rest[k] == files[k]);
        }
        assert forall|k: int, line: u32|
            0 <= k < rest.len() && #[trigger] rest[k].lines@.contains_key(line) implies
            rest[k].lines@[line] == c((rest[k].file@, line)) by {
            assert(rest[k] == files[k]);
            assert(files[k].lines@.contains_key(line));
        }
        lemma_total_of_files(rest, c);
        assert(last == files[n]);
        assert forall|line: u32| #[trigger] last.lines@.contains_key(line) implies last.lines@[line]
            == c((last.file@, line)) by {
            assert(files[n].lines@.contains_key(line));
        }
        lemma_total_of_lines(last.file@, last.lines@, c);
        let a = pairs_of_files(rest);
        let b = pairs_of(last.file@, last.lines@.dom());
        assert forall|p: (Seq<char>, u32)| all.contains(p) <==> a.union(b).contains(p) by {
            if all.contains(p) {
                let k = choose|k: int|
                    0 <= k < files.len() && (#[trigger] files[k]).file@ == p.0
                        && files[k].lines@.contains_key(p.1);
                if k < n {
                    assert(rest[k] == files[k]);
                }
            }
            if a.contains(p) {
                let k = choose|k: int|
                    0 <= k < rest.len() && (#[trigger] rest[k]).file@ == p.0
                        && rest[k].lines@.contains_key(p.1);
                assert(rest[k] == files[k]);
            }
            if b.contains(p) {
                assert(files[n].file@ == p.0);
            }
        }
        assert(all =~= a.union(b));
        assert forall|p: (Seq<char>, u32)| !(a.contains(p) && b.contains(p)) by {
            if a.contains(p) && b.contains(p) {
                let k = choose|k: int|
                    0 <= k < rest.len() && (#[trigger] rest[k]).file@ == p.0
                        && rest[k].lines@.contains_key(p.1);
                assert(rest[k] == files[k]);
                assert(files[k].file@ != files[n].file@);
            }
        }
        lemma_total_union(a, b, c);
    }
}

/// The counts in the report of a trace add up to the number of executed addresses that have a source
/// line.
pub proof fn law_reported_counts_add_up(
    vaddr_entry_map: VaddrEntryMap<'_>,
    vaddrs: Seq<u64>,
    map: FileLineCountMap<'_>,
)
    requires
        map.well_formed(),
        map@ == line_counts(entry_views(vaddr_entry_map@), vaddrs),
    ensures
        sum_of_files(map.files@) == vaddrs.filter(
            |v: u64| vaddr_entry_map@.contains_key(v),
        ).len(),
{
    let entries = vaddr_entry_map@;
    assert(entries.dom().finite());
    assert forall|k: int| 0 <= k < map.files@.len() implies (
    #[trigger] map.files@[k]).lines@.dom().finite() by {}
    let model = entry_views(entries);
    let files = map.files@;
    law_entries(entries);
    law_built_counts(entries, vaddrs, map);
    law_counts_by_name(map);
    law_kept_addresses(entries, vaddrs);
    law_counts_add_up(model, vaddrs);
    let c = counts_after(model, vaddrs, vaddrs.len() as int);
    assert forall|k: int, line: u32|
        0 <= k < files.len() && #[trigger] files[k].lines@.contains_key(line) implies
        files[k].lines@[line] == c((files[k].file@, line)) by {
        let file = files[k].file@;
        assert(map@[file].contains_key(line));
        assert(map@[file][line] == c((file, line)));
    }
    lemma_total_of_files(files, c);
    let all = pairs_of_files(files);
    assert forall|p: (Seq<char>, u32)| all.contains(p) <==> model.values().contains(p) by {
        if all.contains(p) {
            let k = choose|k: int|
                0 <= k < files.len() && (#[trigger] files[k]).file@ == p.0
                    && files[k].lines@.contains_key(p.1);
            assert(has_address(entries, files[k].file@, p.1));
            let v = choose|v: u64| #[trigger]
                entries.contains_key(v) && entries[v].file@ == files[k].file@ && entries[v].line
                    == p.1;
            assert(model.dom().contains(v) && model[v] == p);
        }
        if model.values().contains(p) {
            let v = choose|v: u64| #[trigger] model.dom().contains(v) && model[v] == p;
            assert(entries.contains_key(v));
            assert(has_row_of(files, entries[v]));
            let k = choose|k: int|
                0 <= k < files.len() && (#[trigger] files[k]).file@ == entries[v].file@
                    && files[k].lines@.contains_key(entries[v].line);
            assert(files[k].file@ == p.0);
        }
    }
    assert(all =~= model.values());
}

} // verus!
