//! The line report: how often every source line was executed.

use crate::dwarf::{entry_views, VaddrEntryMap};
use crate::order::{ascending, lemma_listing, lemma_str_transitive, listed, rank, str_le, Rank};
use std::collections::BTreeMap;
use vstd::multiset::Multiset;
use vstd::prelude::*;

verus! {

broadcast use vstd::std_specs::btree::group_btree_axioms;

/// The counts of the lines of a source file.
pub struct FileLines<'a> {
    pub file: &'a str,
    pub lines: BTreeMap<u32, usize>,
}

impl<'a> View for FileLines<'a> {
    type V = (Seq<char>, Map<u32, nat>);

    open spec fn view(&self) -> (Seq<char>, Map<u32, nat>) {
        (self.file@, self.lines@.map_values(|count: usize| count as nat))
    }
}

/// The counts of the lines of several source files, in the order of the files' names.
pub struct FileLineCountMap<'a> {
    pub files: Vec<FileLines<'a>>,
}

/// The views of the counts of several files.
pub open spec fn file_views<'a>(files: Seq<FileLines<'a>>) -> Seq<(Seq<char>, Map<u32, nat>)> {
    files.map_values(|f: FileLines| f@)
}

/// Whether the files stand in the order of their names, each once.
pub open spec fn in_order(files: Seq<(Seq<char>, Map<u32, nat>)>) -> bool {
    forall|i: int, j: int|
        0 <= i < j < files.len() ==> str_le(#[trigger] files[i].0, #[trigger] files[j].0)
            && files[i].0 != files[j].0
}

/// Whether `file` is the name of file number `i`.
pub open spec fn is_file_at(
    files: Seq<(Seq<char>, Map<u32, nat>)>,
    file: Seq<char>,
    i: int,
) -> bool {
    0 <= i < files.len() && files[i].0 == file
}

/// The counts by file name.
pub open spec fn by_name(files: Seq<(Seq<char>, Map<u32, nat>)>) -> Map<
    Seq<char>,
    Map<u32, nat>,
> {
    Map::new(
        |file: Seq<char>| exists|i: int| is_file_at(files, file, i),
        |file: Seq<char>| files[choose|i: int| is_file_at(files, file, i)].1,
    )
}

impl<'a> View for FileLineCountMap<'a> {
    type V = Map<Seq<char>, Map<u32, nat>>;

    open spec fn view(&self) -> Map<Seq<char>, Map<u32, nat>> {
        by_name(file_views(self.files@))
    }
}

impl<'a> FileLineCountMap<'a> {
    /// Whether the files stand in the order of their names, each once.
    pub open spec fn well_formed(self) -> bool {
        in_order(file_views(self.files@))
    }
}

/// In a list of files in order, a file is found by its name.
pub proof fn lemma_by_name(files: Seq<(Seq<char>, Map<u32, nat>)>, i: int)
    requires
        in_order(files),
        0 <= i < files.len(),
    ensures
        by_name(files).contains_key(files[i].0),
        by_name(files)[files[i].0] == files[i].1,
{
    assert(is_file_at(files, files[i].0, i));
    let j = choose|j: int| is_file_at(files, files[i].0, j);
    assert(i == j);
}

/// Replacing the counts of a file keeps the order and changes the counts of that file alone.
proof fn lemma_replace(files: Seq<(Seq<char>, Map<u32, nat>)>, i: int, lines: Map<u32, nat>)
    requires
        in_order(files),
        0 <= i < files.len(),
    ensures
        in_order(files.update(i, (files[i].0, lines))),
        by_name(files.update(i, (files[i].0, lines))) == by_name(files).insert(files[i].0, lines),
{
    let after = files.update(i, (files[i].0, lines));
    assert(in_order(after));
    assert forall|f: Seq<char>| by_name(after).contains_key(f) <==> #[trigger] by_name(
        files,
    ).insert(files[i].0, lines).contains_key(f) by {
        if by_name(after).contains_key(f) {
            let k = choose|k: int| is_file_at(after, f, k);
            assert(is_file_at(files, f, k));
        }
        if by_name(files).contains_key(f) {
            let k = choose|k: int| is_file_at(files, f, k);
            assert(is_file_at(after, f, k));
        }
        assert(is_file_at(after, files[i].0, i));
    }
    assert forall|f: Seq<char>| #[trigger] by_name(after).contains_key(f) implies by_name(after)[f]
        == by_name(files).insert(files[i].0, lines)[f] by {
        let k = choose|k: int| is_file_at(after, f, k);
        lemma_by_name(after, k);
        lemma_by_name(files, k);
    }
    assert(by_name(after) =~= by_name(files).insert(files[i].0, lines));
}

/// Putting a new file where its name belongs keeps the order and adds the counts of that file.
proof fn lemma_add(
    files: Seq<(Seq<char>, Map<u32, nat>)>,
    i: int,
    new: (Seq<char>, Map<u32, nat>),
)
    requires
        in_order(files),
        0 <= i <= files.len(),
        forall|k: int| 0 <= k < i ==> str_le(#[trigger] files[k].0, new.0) && files[k].0 != new.0,
        forall|k: int|
            i <= k < files.len() ==> str_le(new.0, #[trigger] files[k].0) && files[k].0 != new.0,
    ensures
        in_order(files.insert(i, new)),
        by_name(files.insert(i, new)) == by_name(files).insert(new.0, new.1),
{
    let after = files.insert(i, new);
    assert forall|a: int, b: int| 0 <= a < b < after.len() implies str_le(
        #[trigger] after[a].0,
        #[trigger] after[b].0,
    ) && after[a].0 != after[b].0 by {
        let x = if a < i {
            a
        } else {
            a - 1
        };
        let y = if b < i {
            b
        } else {
            b - 1
        };
        if a != i && b != i {
            assert(after[a] == files[x] && after[b] == files[y]);
        } else if a == i {
            assert(after[b] == files[y]);
        } else {
            assert(after[a] == files[x]);
        }
    }
    assert forall|f: Seq<char>| by_name(after).contains_key(f) <==> #[trigger] by_name(
        files,
    ).insert(new.0, new.1).contains_key(f) by {
        if by_name(after).contains_key(f) {
            let k = choose|k: int| is_file_at(after, f, k);
            if k != i {
                assert(is_file_at(
                    files,
                    f,
                    if k < i {
                        k
                    } else {
                        k - 1
                    },
                ));
            }
        }
        if by_name(files).contains_key(f) {
            let k = choose|k: int| is_file_at(files, f, k);
            assert(is_file_at(
                after,
                f,
                if k < i {
                    k
                } else {
                    k + 1
                },
            ));
        }
        assert(is_file_at(after, new.0, i));
    }
    assert forall|f: Seq<char>| #[trigger] by_name(after).contains_key(f) implies by_name(after)[f]
        == by_name(files).insert(new.0, new.1)[f] by {
        let k = choose|k: int| is_file_at(after, f, k);
        lemma_by_name(after, k);
        if k != i {
            let x = if k < i {
                k
            } else {
                k - 1
            };
            assert(after[k] == files[x]);
            lemma_by_name(files, x);
        }
    }
    assert(by_name(after) =~= by_name(files).insert(new.0, new.1));
}

/// The place of a file in the list: where it stands, or where it belongs.
fn position<'a>(files: &Vec<FileLines<'a>>, file: &str) -> (place: (bool, usize))
    requires
        in_order(file_views(files@)),
    ensures
        place.0 ==> is_file_at(file_views(files@), file@, place.1 as int),
        !place.0 ==> {
            let views = file_views(files@);
            &&& place.1 <= views.len()
            &&& forall|k: int|
                0 <= k < place.1 ==> str_le(#[trigger] views[k].0, file@) && views[k].0 != file@
            &&& forall|k: int|
                place.1 <= k < views.len() ==> str_le(file@, #[trigger] views[k].0) && views[k].0
                    != file@
        },
{
    let mut lo: usize = 0;
    let mut hi: usize = files.len();
    let ghost views = file_views(files@);
    while lo < hi
        invariant
            views == file_views(files@),
            in_order(views),
            lo <= hi <= views.len(),
            forall|k: int|
                0 <= k < lo ==> str_le(#[trigger] views[k].0, file@) && views[k].0 != file@,
            forall|k: int|
                hi <= k < views.len() ==> str_le(file@, #[trigger] views[k].0) && views[k].0
                    != file@,
        decreases hi - lo,
    {
        let mid: usize = lo + (hi - lo) / 2;
        assert(views[mid as int] == files@[mid as int]@);
        match rank(files[mid].file, file) {
            Rank::Same => {
                return (true, mid);
            },
            Rank::Before => {
                assert forall|k: int| 0 <= k < mid + 1 implies str_le(
                    #[trigger] views[k].0,
                    file@,
                ) && views[k].0 != file@ by {
                    if k < mid {
                        lemma_str_transitive(views[k].0, views[mid as int].0, file@);
                    }
                }
                lo = mid + 1;
            },
            Rank::After => {
                assert forall|k: int| mid <= k < views.len() implies str_le(
                    file@,
                    #[trigger] views[k].0,
                ) && views[k].0 != file@ by {
                    if mid < k {
                        lemma_str_transitive(file@, views[mid as int].0, views[k].0);
                    }
                }
                hi = mid;
            },
        }
    }
    (false, lo)
}

/// The counts after the count of one line was set.
pub open spec fn with_count(
    counts: Map<Seq<char>, Map<u32, nat>>,
    entry: (Seq<char>, u32),
    count: nat,
) -> Map<Seq<char>, Map<u32, nat>> {
    let lines = if counts.contains_key(entry.0) {
        counts[entry.0]
    } else {
        Map::empty()
    };
    counts.insert(entry.0, lines.insert(entry.1, count))
}

impl<'a> FileLineCountMap<'a> {
    /// No counts.
    pub fn new() -> (map: Self)
        ensures
            map.well_formed(),
            map@ == Map::<Seq<char>, Map<u32, nat>>::empty(),
    {
        let map = FileLineCountMap { files: Vec::new() };
        assert(map@ =~= Map::<Seq<char>, Map<u32, nat>>::empty());
        map
    }

    /// The count of a line, `None` where the line is not listed.
    pub fn get(&self, file: &str, line: u32) -> (count: Option<usize>)
        requires
            self.well_formed(),
        ensures
            match count {
                Some(count) => self@.contains_key(file@) && self@[file@].contains_key(line)
                    && self@[file@][line] == count,
                None => !(self@.contains_key(file@) && self@[file@].contains_key(line)),
            },
    {
        let (found, pos) = position(&self.files, file);
        let ghost views = file_views(self.files@);
        if found {
            proof {
                lemma_by_name(views, pos as int);
            }
            match self.files[pos].lines.get(&line) {
                Some(count) => Some(*count),
                None => None,
            }
        } else {
            assert(forall|i: int| !is_file_at(views, file@, i));
            None
        }
    }

    /// Sets the count of a line.
    pub fn set(&mut self, file: &'a str, line: u32, count: usize)
        requires
            old(self).well_formed(),
        ensures
            final(self).well_formed(),
            final(self)@ == with_count(old(self)@, (file@, line), count as nat),
    {
        let (found, pos) = position(&self.files, file);
        let ghost views = file_views(self.files@);
        let ghost before = self.files@;
        if found {
            self.files[pos].lines.insert(line, count);
            proof {
                let lines = views[pos as int].1.insert(line, count as nat);
                assert(self.files@[pos as int]@.1 =~= lines);
                assert(file_views(self.files@) =~= views.update(pos as int, (file@, lines)));
                lemma_by_name(views, pos as int);
                lemma_replace(views, pos as int, lines);
            }
        } else {
            let mut lines: BTreeMap<u32, usize> = BTreeMap::new();
            lines.insert(line, count);
            self.files.insert(pos, FileLines { file, lines });
            proof {
                let model = Map::<u32, nat>::empty().insert(line, count as nat);
                assert(self.files@[pos as int]@.1 =~= model);
                assert(file_views(self.files@) =~= views.insert(pos as int, (file@, model)));
                assert(forall|i: int| !is_file_at(views, file@, i));
                lemma_add(views, pos as int, (file@, model));
            }
        }
    }
}

/// How many of the first `n` addresses belong to the source line `entry`.
pub open spec fn hits(
    entries: Map<u64, (Seq<char>, u32)>,
    vaddrs: Seq<u64>,
    entry: (Seq<char>, u32),
    n: int,
) -> nat
    decreases n,
{
    if n <= 0 {
        0
    } else if entries.contains_key(vaddrs[n - 1]) && entries[vaddrs[n - 1]] == entry {
        hits(entries, vaddrs, entry, n - 1) + 1
    } else {
        hits(entries, vaddrs, entry, n - 1)
    }
}

/// The counts of source lines by file and line number.
pub open spec fn table(
    lines: Set<(Seq<char>, u32)>,
    count: spec_fn((Seq<char>, u32)) -> nat,
) -> Map<Seq<char>, Map<u32, nat>> {
    Map::new(
        |file: Seq<char>| exists|line: u32| lines.contains((file, line)),
        |file: Seq<char>|
            Map::new(|line: u32| lines.contains((file, line)), |line: u32| count((file, line))),
    )
}

/// How often each source line was executed in the first `n` steps.
pub open spec fn counts_after(
    entries: Map<u64, (Seq<char>, u32)>,
    vaddrs: Seq<u64>,
    n: int,
) -> spec_fn((Seq<char>, u32)) -> nat {
    |entry: (Seq<char>, u32)| hits(entries, vaddrs, entry, n)
}

/// The counts of all source lines that have an address: how often each was executed.
pub open spec fn line_counts(
    entries: Map<u64, (Seq<char>, u32)>,
    vaddrs: Seq<u64>,
) -> Map<Seq<char>, Map<u32, nat>> {
    table(entries.values(), counts_after(entries, vaddrs, vaddrs.len() as int))
}

/// Setting one count in a table.
proof fn lemma_table(
    lines: Set<(Seq<char>, u32)>,
    before: spec_fn((Seq<char>, u32)) -> nat,
    after: spec_fn((Seq<char>, u32)) -> nat,
    entry: (Seq<char>, u32),
)
    requires
        forall|e: (Seq<char>, u32)| e != entry ==> #[trigger] before(e) == after(e),
    ensures
        table(lines.insert(entry), after) == with_count(table(lines, before), entry, after(entry)),
{
    let a = table(lines.insert(entry), after);
    let b = with_count(table(lines, before), entry, after(entry));
    assert(lines.insert(entry).contains((entry.0, entry.1)));
    assert forall|f: Seq<char>| #[trigger] a.contains_key(f) <==> b.contains_key(f) by {
        if a.contains_key(f) && f != entry.0 {
            let l = choose|l: u32| lines.insert(entry).contains((f, l));
            assert(lines.contains((f, l)));
        }
        if table(lines, before).contains_key(f) {
            let l = choose|l: u32| lines.contains((f, l));
            assert(lines.insert(entry).contains((f, l)));
        }
    }
    assert forall|f: Seq<char>| #[trigger] a.contains_key(f) implies a[f] == b[f] by {
        if f == entry.0 && !table(lines, before).contains_key(f) {
            assert forall|l: u32| !lines.contains((f, l)) by {}
        }
        assert forall|l: u32| #[trigger] a[f].contains_key(l) && (f, l) != entry implies before(
            (f, l),
        ) == after((f, l)) by {}
        assert(a[f] =~= b[f]);
    }
    assert(a =~= b);
}

/// The source lines of the first `n` of some addresses.
spec fn lines_of(entries: Map<u64, (Seq<char>, u32)>, keys: Seq<u64>, n: int) -> Set<
    (Seq<char>, u32),
> {
    Set::new(|e: (Seq<char>, u32)| exists|i: int| 0 <= i < n && entries[#[trigger] keys[i]] == e)
}

/// All addresses of a map have all its source lines.
proof fn lemma_all_lines(entries: Map<u64, (Seq<char>, u32)>, keys: Seq<u64>)
    requires
        keys.to_set() == entries.dom(),
    ensures
        lines_of(entries, keys, keys.len() as int) == entries.values(),
{
    let all = lines_of(entries, keys, keys.len() as int);
    assert forall|e: (Seq<char>, u32)| all.contains(e) <==> entries.values().contains(e) by {
        if all.contains(e) {
            let i = choose|i: int| 0 <= i < keys.len() && entries[#[trigger] keys[i]] == e;
            assert(keys.to_set().contains(keys[i]));
            assert(entries.dom().contains(keys[i]));
        }
        if entries.values().contains(e) {
            let v = choose|v: u64| #[trigger] entries.dom().contains(v) && entries[v] == e;
            assert(keys.to_set().contains(v));
            assert(keys.contains(v));
            let i = choose|i: int| 0 <= i < keys.len() && keys[i] == v;
            assert(entries[keys[i]] == e);
        }
    }
    assert(all =~= entries.values());
}

/// A line is not executed more often than there are steps.
proof fn lemma_hits_bound(
    entries: Map<u64, (Seq<char>, u32)>,
    vaddrs: Seq<u64>,
    entry: (Seq<char>, u32),
    n: int,
)
    requires
        0 <= n,
    ensures
        hits(entries, vaddrs, entry, n) <= n,
    decreases n,
{
    if n > 0 {
        lemma_hits_bound(entries, vaddrs, entry, n - 1);
    }
}

/// Lists the source lines of a map, none of them executed yet.
fn unexecuted<'a>(entries: &VaddrEntryMap<'a>) -> (counts: FileLineCountMap<'a>)
    ensures
        counts.well_formed(),
        counts@ == table(entry_views(entries@).values(), |e: (Seq<char>, u32)| 0nat),
{
    let pairs = listed(entries);
    let mut counts = FileLineCountMap::new();
    let ghost model = entry_views(entries@);
    let ghost keys = ascending(entries@.dom());
    let ghost zero = |e: (Seq<char>, u32)| 0nat;
    assert(counts@ =~= table(lines_of(model, keys, 0), zero));
    for i in 0..pairs.len()
        invariant
            model == entry_views(entries@),
            zero == (|e: (Seq<char>, u32)| 0nat),
            pairs@.len() == keys.len(),
            forall|j: int|
                0 <= j < pairs@.len() ==> {
                    &&& (#[trigger] pairs@[j]).0 == keys[j]
                    &&& entries@.contains_key(pairs@[j].0)
                    &&& *pairs@[j].1 == entries@[pairs@[j].0]
                },
            counts.well_formed(),
            counts@ == table(lines_of(model, keys, i as int), zero),
    {
        let entry = pairs[i].1;
        proof {
            assert(model[keys[i as int]] == entry@);
            let before = lines_of(model, keys, i as int);
            let after = lines_of(model, keys, i + 1);
            assert forall|e: (Seq<char>, u32)| after.contains(e) <==> before.insert(
                entry@,
            ).contains(e) by {
                if before.contains(e) {
                    let j = choose|j: int| 0 <= j < i && model[#[trigger] keys[j]] == e;
                    assert(0 <= j < i + 1 && model[keys[j]] == e);
                }
            }
            assert(after =~= before.insert(entry@));
            lemma_table(before, zero, zero, entry@);
        }
        counts.set(entry.file, entry.line, 0);
    }
    proof {
        lemma_listing(entries@.dom(), |a: u64, b: u64| a <= b);
        assert(model.dom() =~= entries@.dom());
        lemma_all_lines(model, keys);
    }
    counts
}

/// Counts how often each source line of a map was executed. Lines that were not executed are listed
/// too; addresses without a source line do not count.
pub fn build_file_line_count_map<'a>(
    vaddr_entry_map: &VaddrEntryMap<'a>,
    vaddrs: &Vec<u64>,
) -> (counts: FileLineCountMap<'a>)
    ensures
        counts.well_formed(),
        counts@ == line_counts(entry_views(vaddr_entry_map@), vaddrs@),
{
    let mut counts = unexecuted(vaddr_entry_map);
    let ghost model = entry_views(vaddr_entry_map@);
    assert(counts_after(model, vaddrs@, 0) =~= (|e: (Seq<char>, u32)| 0nat));
    let count: usize = vaddrs.len();
    for i in 0..count
        invariant
            count == vaddrs@.len(),
            model == entry_views(vaddr_entry_map@),
            counts.well_formed(),
            counts@ == table(model.values(), counts_after(model, vaddrs@, i as int)),
    {
        let vaddr: u64 = vaddrs[i];
        if let Some(entry) = vaddr_entry_map.get(&vaddr) {
            proof {
                assert(model[vaddr] == entry@);
                assert(model.dom().contains(vaddr));
                assert(model.values().contains(entry@));
                assert(model.values().insert(entry@) =~= model.values());
                lemma_hits_bound(model, vaddrs@, entry@, i as int);
                lemma_table(
                    model.values(),
                    counts_after(model, vaddrs@, i as int),
                    counts_after(model, vaddrs@, i + 1),
                    entry@,
                );
            }
            if let Some(executed) = counts.get(entry.file, entry.line) {
                counts.set(entry.file, entry.line, executed + 1);
            }
        } else {
            assert(counts_after(model, vaddrs@, i + 1) =~= counts_after(model, vaddrs@, i as int));
        }
    }
    counts
}

/// The addresses that have a source line.
pub open spec fn with_lines(entries: Map<u64, (Seq<char>, u32)>, vaddrs: Seq<u64>) -> Seq<u64> {
    vaddrs.filter(|v: u64| entries.contains_key(v))
}

/// Keeps the addresses that have a source line. An address may have none because its file does not
/// exist.
pub fn keep_with_lines(vaddr_entry_map: &VaddrEntryMap<'_>, vaddrs: &Vec<u64>) -> (kept: Vec<u64>)
    ensures
        kept@ == with_lines(entry_views(vaddr_entry_map@), vaddrs@),
{
    let mut kept: Vec<u64> = Vec::new();
    let ghost model = entry_views(vaddr_entry_map@);
    proof {
        reveal(Seq::filter);
    }
    assert(kept@ == with_lines(model, vaddrs@.take(0)));
    for i in 0..vaddrs.len()
        invariant
            model == entry_views(vaddr_entry_map@),
            kept@ == with_lines(model, vaddrs@.take(i as int)),
    {
        let vaddr: u64 = vaddrs[i];
        proof {
            reveal(Seq::filter);
            assert(vaddrs@.take(i + 1).drop_last() == vaddrs@.take(i as int));
            assert(model.contains_key(vaddr) == vaddr_entry_map@.contains_key(vaddr));
        }
        if vaddr_entry_map.contains_key(&vaddr) {
            kept.push(vaddr);
        }
    }
    assert(vaddrs@.take(vaddrs@.len() as int) == vaddrs@);
    kept
}

/// The number of hits of a line depends on the steps that are counted alone.
proof fn lemma_hits_prefix(
    entries: Map<u64, (Seq<char>, u32)>,
    a: Seq<u64>,
    b: Seq<u64>,
    entry: (Seq<char>, u32),
    n: int,
)
    requires
        n <= a.len(),
        n <= b.len(),
        forall|i: int| 0 <= i < n ==> a[i] == b[i],
    ensures
        hits(entries, a, entry, n) == hits(entries, b, entry, n),
    decreases n,
{
    if n > 0 {
        lemma_hits_prefix(entries, a, b, entry, n - 1);
    }
}

/// Every source line that has an address is in the report, executed or not, and nothing else is.
pub proof fn law_all_lines_are_listed(
    entries: Map<u64, (Seq<char>, u32)>,
    vaddrs: Seq<u64>,
    file: Seq<char>,
    line: u32,
)
    ensures
        (line_counts(entries, vaddrs).contains_key(file) && line_counts(
            entries,
            vaddrs,
        )[file].contains_key(line)) <==> exists|v: u64| #[trigger]
            entries.contains_key(v) && entries[v] == (file, line),
{
    let values = entries.values();
    if exists|v: u64| #[trigger] entries.contains_key(v) && entries[v] == (file, line) {
        let v = choose|v: u64| #[trigger] entries.contains_key(v) && entries[v] == (file, line);
        assert(entries.dom().contains(v));
        assert(values.contains((file, line)));
    }
    if values.contains((file, line)) {
        let v = choose|v: u64| #[trigger] entries.dom().contains(v) && entries[v] == (file, line);
        assert(entries.contains_key(v));
    }
}

/// A line has a count other than 0 exactly when one of its addresses was executed.
pub proof fn law_executed_lines(
    entries: Map<u64, (Seq<char>, u32)>,
    vaddrs: Seq<u64>,
    entry: (Seq<char>, u32),
    n: int,
)
    requires
        0 <= n <= vaddrs.len(),
    ensures
        hits(entries, vaddrs, entry, n) > 0 <==> exists|i: int|
            0 <= i < n && entries.contains_key(#[trigger] vaddrs[i]) && entries[vaddrs[i]] == entry,
    decreases n,
{
    if n > 0 {
        law_executed_lines(entries, vaddrs, entry, n - 1);
        if entries.contains_key(vaddrs[n - 1]) && entries[vaddrs[n - 1]] == entry {
            assert(0 <= n - 1 < n && entries.contains_key(vaddrs[n - 1]));
        }
    }
}

/// Leaving out the addresses without a source line does not change the report.
pub proof fn law_only_lines_count(entries: Map<u64, (Seq<char>, u32)>, vaddrs: Seq<u64>)
    ensures
        line_counts(entries, with_lines(entries, vaddrs)) == line_counts(entries, vaddrs),
{
    let kept = with_lines(entries, vaddrs);
    let a = counts_after(entries, kept, kept.len() as int);
    let b = counts_after(entries, vaddrs, vaddrs.len() as int);
    assert forall|e: (Seq<char>, u32)| #[trigger] a(e) == b(e) by {
        lemma_hits_of_kept(entries, vaddrs, e);
    }
    assert(a =~= b);
}

proof fn lemma_hits_of_kept(
    entries: Map<u64, (Seq<char>, u32)>,
    vaddrs: Seq<u64>,
    entry: (Seq<char>, u32),
)
    ensures
        hits(
            entries,
            with_lines(entries, vaddrs),
            entry,
            with_lines(entries, vaddrs).len() as int,
        ) == hits(entries, vaddrs, entry, vaddrs.len() as int),
    decreases vaddrs.len(),
{
    reveal(Seq::filter);
    if vaddrs.len() > 0 {
        let rest = vaddrs.drop_last();
        let kept = with_lines(entries, vaddrs);
        let before = with_lines(entries, rest);
        lemma_hits_of_kept(entries, rest, entry);
        lemma_hits_prefix(entries, rest, vaddrs, entry, rest.len() as int);
        lemma_hits_prefix(entries, before, kept, entry, before.len() as int);
    }
}

/// The sum of the counts of some source lines.
pub open spec fn total(
    lines: Set<(Seq<char>, u32)>,
    count: spec_fn((Seq<char>, u32)) -> nat,
) -> nat
    decreases lines.len(),
    when lines.finite()
{
    if lines.len() == 0 {
        0
    } else {
        let line = lines.choose();
        count(line) + total(lines.remove(line), count)
    }
}

proof fn lemma_total_same(
    lines: Set<(Seq<char>, u32)>,
    a: spec_fn((Seq<char>, u32)) -> nat,
    b: spec_fn((Seq<char>, u32)) -> nat,
)
    requires
        lines.finite(),
        forall|e: (Seq<char>, u32)| lines.contains(e) ==> #[trigger] a(e) == b(e),
    ensures
        total(lines, a) == total(lines, b),
    decreases lines.len(),
{
    if lines.len() > 0 {
        let line = lines.choose();
        lemma_total_same(lines.remove(line), a, b);
        assert(a(line) == b(line));
    }
}

proof fn lemma_total_one_more(
    lines: Set<(Seq<char>, u32)>,
    a: spec_fn((Seq<char>, u32)) -> nat,
    b: spec_fn((Seq<char>, u32)) -> nat,
    entry: (Seq<char>, u32),
)
    requires
        lines.finite(),
        lines.contains(entry),
        b(entry) == a(entry) + 1,
        forall|e: (Seq<char>, u32)| e != entry ==> #[trigger] a(e) == b(e),
    ensures
        total(lines, b) == total(lines, a) + 1,
    decreases lines.len(),
{
    let line = lines.choose();
    if line == entry {
        lemma_total_same(lines.remove(line), a, b);
    } else {
        lemma_total_one_more(lines.remove(line), a, b, entry);
        assert(a(line) == b(line));
    }
}

proof fn lemma_total_zero(
    lines: Set<(Seq<char>, u32)>,
    count: spec_fn((Seq<char>, u32)) -> nat,
)
    requires
        lines.finite(),
        forall|e: (Seq<char>, u32)| #[trigger] count(e) == 0,
    ensures
        total(lines, count) == 0,
    decreases lines.len(),
{
    if lines.len() > 0 {
        let line = lines.choose();
        lemma_total_zero(lines.remove(line), count);
        assert(count(line) == 0);
    }
}

/// The counts of all source lines add up to the number of executed addresses that have a source line.
pub proof fn law_counts_add_up(entries: Map<u64, (Seq<char>, u32)>, vaddrs: Seq<u64>)
    requires
        entries.dom().finite(),
    ensures
        total(entries.values(), counts_after(entries, vaddrs, vaddrs.len() as int)) == with_lines(
            entries,
            vaddrs,
        ).len(),
    decreases vaddrs.len(),
{
    reveal(Seq::filter);
    vstd::map_lib::lemma_values_finite(entries);
    let after = counts_after(entries, vaddrs, vaddrs.len() as int);
    if vaddrs.len() == 0 {
        assert(with_lines(entries, vaddrs).len() == 0);
        assert(forall|e: (Seq<char>, u32)| #[trigger] after(e) == 0);
        lemma_total_zero(entries.values(), after);
    } else {
        let rest = vaddrs.drop_last();
        let before = counts_after(entries, rest, rest.len() as int);
        law_counts_add_up(entries, rest);
        assert forall|e: (Seq<char>, u32)| #[trigger] before(e) == hits(
            entries,
            vaddrs,
            e,
            rest.len() as int,
        ) by {
            lemma_hits_prefix(entries, rest, vaddrs, e, rest.len() as int);
        }
        let v = vaddrs.last();
        if entries.contains_key(v) {
            assert(entries.dom().contains(v));
            assert(entries.values().contains(entries[v]));
            assert(before(entries[v]) + 1 == after(entries[v]));
            assert forall|e: (Seq<char>, u32)| e != entries[v] implies #[trigger] before(e)
                == after(e) by {}
            lemma_total_one_more(entries.values(), before, after, entries[v]);
        } else {
            assert forall|e: (Seq<char>, u32)| #[trigger] before(e) == after(e) by {}
            lemma_total_same(entries.values(), before, after);
        }
    }
}

/// The counts of a trace that goes on with another are the sums of the counts of both.
pub proof fn law_joined_traces(
    entries: Map<u64, (Seq<char>, u32)>,
    a: Seq<u64>,
    b: Seq<u64>,
    entry: (Seq<char>, u32),
)
    ensures
        hits(entries, a + b, entry, (a + b).len() as int) == hits(
            entries,
            a,
            entry,
            a.len() as int,
        ) + hits(entries, b, entry, b.len() as int),
    decreases b.len(),
{
    if b.len() == 0 {
        assert(a + b =~= a);
    } else {
        let rest = b.drop_last();
        law_joined_traces(entries, a, rest, entry);
        let n = (a + b).len() - 1;
        assert((a + b)[n] == b.last());
        lemma_hits_prefix(entries, a + rest, a + b, entry, n);
        lemma_hits_prefix(entries, rest, b, entry, rest.len() as int);
    }
}

/// Whether an address belongs to a source line.
spec fn belongs_to(
    entries: Map<u64, (Seq<char>, u32)>,
    entry: (Seq<char>, u32),
) -> spec_fn(u64) -> bool {
    |v: u64| entries.contains_key(v) && entries[v] == entry
}

/// The hits of a line are the addresses that belong to it.
proof fn lemma_hits_by_address(
    entries: Map<u64, (Seq<char>, u32)>,
    vaddrs: Seq<u64>,
    entry: (Seq<char>, u32),
)
    ensures
        hits(entries, vaddrs, entry, vaddrs.len() as int) == vaddrs.to_multiset().filter(
            belongs_to(entries, entry),
        ).len(),
    decreases vaddrs.len(),
{
    broadcast use vstd::multiset::group_multiset_axioms;

    let p = belongs_to(entries, entry);
    vaddrs.to_multiset_ensures();
    if vaddrs.len() == 0 {
        assert(vaddrs.to_multiset().filter(p) =~= Multiset::empty());
    } else {
        let rest = vaddrs.drop_last();
        let v = vaddrs.last();
        lemma_hits_by_address(entries, rest, entry);
        lemma_hits_prefix(entries, rest, vaddrs, entry, rest.len() as int);
        rest.to_multiset_ensures();
        assert(vaddrs =~= rest.push(v));
        let m = rest.to_multiset();
        assert(vaddrs.to_multiset() =~= m.insert(v));
        if p(v) {
            assert(m.insert(v).filter(p) =~= m.filter(p).insert(v));
        } else {
            assert(m.insert(v).filter(p) =~= m.filter(p));
        }
    }
}

/// The order in which addresses are executed does not change the counts.
pub proof fn law_reordered_traces(
    entries: Map<u64, (Seq<char>, u32)>,
    a: Seq<u64>,
    b: Seq<u64>,
)
    requires
        a.to_multiset() == b.to_multiset(),
    ensures
        line_counts(entries, a) == line_counts(entries, b),
{
    let x = counts_after(entries, a, a.len() as int);
    let y = counts_after(entries, b, b.len() as int);
    assert forall|e: (Seq<char>, u32)| #[trigger] x(e) == y(e) by {
        lemma_hits_by_address(entries, a, e);
        lemma_hits_by_address(entries, b, e);
    }
    assert(x =~= y);
}

} // verus!
