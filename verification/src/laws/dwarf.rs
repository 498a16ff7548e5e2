//! Laws of object files, their debug information and the source lines of addresses.

use crate::debug_info::{
    attribute_found, attribute_of, entry_text, has_debug_section, may_find_location, names_view,
    section_addresses, unit_text, units_text, value_view, AttributeValue, EntryModel, LocationModel,
    SourceLocation,
};
use crate::dwarf::{
    can_move, dump_lines, entry_map, entry_views, first_match, is_kept, is_last_error, located_list,
    located_model, located_views, matching, may_answer, moved, unit_attribute, Dwarf, Entry, Located,
    LocatedModel, VaddrEntryMap,
};
use crate::error::CoverageError;
use crate::laws::text::{has_part, law_ascending, law_contains_parts, law_starts_with};
use crate::order::ascending;
use crate::sources::{is_under, mentions};
use crate::text::{contains, decimal, hexadecimal, starts_with, string_view, views};
use crate::util::section_start;
use addr2line::Loader;
use vstd::prelude::*;
use vstd::utf8::encode_utf8;

verus! {

broadcast use vstd::std_specs::btree::group_btree_axioms;

/// Whether one of the paths is a prefix of the name of the file.
pub open spec fn lies_under(file: Seq<char>, paths: Seq<String>) -> bool {
    exists|k: int| 0 <= k < paths.len() && (#[trigger] paths[k])@.is_prefix_of(file)
}

/// Whether one of the paths is a stretch of the name of the file.
pub open spec fn holds_path(file: Seq<char>, paths: Seq<String>) -> bool {
    exists|k: int| 0 <= k < paths.len() && has_part(file, (#[trigger] paths[k])@)
}

/// A file lies under source paths when any of them is a prefix of its name.
pub proof fn law_file_under_paths(file: Seq<char>, paths: Seq<String>)
    ensures
        is_under(file, views(paths)) <==> lies_under(file, paths),
{
    let v = views(paths);
    assert forall|k: int| 0 <= k < paths.len() implies (starts_with(file, #[trigger] v[k])
        <==> paths[k]@.is_prefix_of(file)) by {
        law_starts_with(file, v[k]);
    }
    if is_under(file, v) {
        let k = choose|k: int| 0 <= k < v.len() && starts_with(file, #[trigger] v[k]);
        assert(paths[k]@.is_prefix_of(file));
    }
    if lies_under(file, paths) {
        let k = choose|k: int| 0 <= k < paths.len() && (#[trigger] paths[k])@.is_prefix_of(file);
        assert(starts_with(file, v[k]));
    }
}

/// A file mentions source paths when any of them is a stretch of its name.
pub proof fn law_file_mentions_paths(file: Seq<char>, paths: Seq<String>)
    ensures
        mentions(file, views(paths)) <==> holds_path(file, paths),
{
    let v = views(paths);
    assert forall|k: int| 0 <= k < paths.len() implies (contains(file, #[trigger] v[k])
        <==> has_part(file, paths[k]@)) by {
        law_contains_parts(file, v[k]);
    }
    if mentions(file, v) {
        let k = choose|k: int| 0 <= k < v.len() && contains(file, #[trigger] v[k]);
        assert(has_part(file, paths[k]@));
    }
    if holds_path(file, paths) {
        let k = choose|k: int| 0 <= k < paths.len() && has_part(file, (#[trigger] paths[k])@);
        assert(contains(file, v[k]));
    }
}

/// Whether an address gets an entry: its line is known, and either all files are wanted, or its file
/// exists and one of the source paths is a prefix of its name.
pub open spec fn is_wanted(
    located: Located<'_>,
    exists_on_disk: bool,
    src_paths: Seq<String>,
    all_files: bool,
) -> bool {
    located.line is Some && (all_files || exists_on_disk && lies_under(located.file@, src_paths))
}

/// Whether the entry of an address is its source line.
pub open spec fn has_line_of(entries: Map<u64, Entry<'_>>, located: Located<'_>) -> bool {
    &&& entries.contains_key(located.vaddr)
    &&& entries[located.vaddr].file@ == located.file@
    &&& located.line == Some(entries[located.vaddr].line)
}

/// Whether an address with an entry is one of the first `n` that are wanted.
pub open spec fn is_wanted_before(
    located: Seq<Located<'_>>,
    on_disk: Seq<bool>,
    src_paths: Seq<String>,
    all_files: bool,
    n: int,
    vaddr: u64,
) -> bool {
    exists|i: int|
        0 <= i < n && (#[trigger] located[i]).vaddr == vaddr && is_wanted(
            located[i],
            on_disk[i],
            src_paths,
            all_files,
        )
}

/// Whether no wanted address after number `i`, and before number `n`, is the same.
pub open spec fn is_last_wanted(
    located: Seq<Located<'_>>,
    on_disk: Seq<bool>,
    src_paths: Seq<String>,
    all_files: bool,
    n: int,
    i: int,
) -> bool {
    forall|j: int|
        i < j < n && is_wanted(#[trigger] located[j], on_disk[j], src_paths, all_files)
            ==> located[j].vaddr != located[i].vaddr
}

proof fn lemma_is_wanted(
    located: Located<'_>,
    exists_on_disk: bool,
    src_paths: Seq<String>,
    all_files: bool,
)
    ensures
        is_kept(located@, exists_on_disk, views(src_paths), all_files) <==> is_wanted(
            located,
            exists_on_disk,
            src_paths,
            all_files,
        ),
{
    law_file_under_paths(located.file@, src_paths);
}

proof fn lemma_entry_map(
    located: Seq<Located<'_>>,
    on_disk: Seq<bool>,
    src_paths: Seq<String>,
    all_files: bool,
    n: int,
)
    requires
        0 <= n <= located.len(),
    ensures
        ({
            let map = entry_map(
                located_views(located),
                on_disk,
                views(src_paths),
                all_files,
                n,
            );
            &&& forall|i: int|
                0 <= i < n && is_wanted(#[trigger] located[i], on_disk[i], src_paths, all_files)
                    && is_last_wanted(located, on_disk, src_paths, all_files, n, i)
                    ==> map.contains_key(located[i].vaddr) && map[located[i].vaddr] == (
                    located[i].file@,
                    located[i].line->0,
                )
            &&& forall|v: u64| #[trigger]
                map.contains_key(v) ==> is_wanted_before(
                    located,
                    on_disk,
                    src_paths,
                    all_files,
                    n,
                    v,
                )
        }),
    decreases n,
{
    if n > 0 {
        let models = located_views(located);
        let paths = views(src_paths);
        let before = entry_map(models, on_disk, paths, all_files, n - 1);
        let map = entry_map(models, on_disk, paths, all_files, n);
        let m = n - 1;
        lemma_entry_map(located, on_disk, src_paths, all_files, m);
        lemma_is_wanted(located[m], on_disk[m], src_paths, all_files);
        assert(models[m] == located[m]@);
        let last = located[m];
        let wanted = is_wanted(last, on_disk[m], src_paths, all_files);
        assert forall|i: int|
            0 <= i < n && is_wanted(#[trigger] located[i], on_disk[i], src_paths, all_files)
                && is_last_wanted(located, on_disk, src_paths, all_files, n, i) implies map.contains_key(
            located[i].vaddr,
        ) && map[located[i].vaddr] == (located[i].file@, located[i].line->0) by {
            if i < m {
                assert(is_last_wanted(located, on_disk, src_paths, all_files, m, i));
                if wanted {
                    assert(located[m].vaddr != located[i].vaddr);
                }
            }
        }
        assert forall|v: u64| #[trigger] map.contains_key(v) implies is_wanted_before(
            located,
            on_disk,
            src_paths,
            all_files,
            n,
            v,
        ) by {
            if before.contains_key(v) {
                let i = choose|i: int|
                    0 <= i < m && (#[trigger] located[i]).vaddr == v && is_wanted(
                        located[i],
                        on_disk[i],
                        src_paths,
                        all_files,
                    );
                assert(located[i].vaddr == v);
            } else {
                assert(located[m].vaddr == v);
            }
        }
    }
}

/// Every wanted address has its source line for an entry, and of the same address wanted more than once
/// the last; no other address has an entry.
pub proof fn law_entry_map(
    located: Seq<Located<'_>>,
    on_disk: Seq<bool>,
    src_paths: Seq<String>,
    all_files: bool,
    entries: Map<u64, Entry<'_>>,
)
    requires
        entry_views(entries) == entry_map(
            located_views(located),
            on_disk,
            views(src_paths),
            all_files,
            located.len() as int,
        ),
    ensures
        forall|i: int|
            0 <= i < located.len() && is_wanted(
                #[trigger] located[i],
                on_disk[i],
                src_paths,
                all_files,
            ) && is_last_wanted(
                located,
                on_disk,
                src_paths,
                all_files,
                located.len() as int,
                i,
            ) ==> has_line_of(entries, located[i]),
        forall|v: u64| #[trigger]
            entries.contains_key(v) ==> is_wanted_before(
                located,
                on_disk,
                src_paths,
                all_files,
                located.len() as int,
                v,
            ),
{
    let n = located.len() as int;
    let model = entry_views(entries);
    lemma_entry_map(located, on_disk, src_paths, all_files, n);
    assert(model.dom() =~= entries.dom());
    assert forall|i: int|
        0 <= i < located.len() && is_wanted(#[trigger] located[i], on_disk[i], src_paths, all_files)
            && is_last_wanted(located, on_disk, src_paths, all_files, n, i) implies has_line_of(
        entries,
        located[i],
    ) by {
        let v = located[i].vaddr;
        assert(model.contains_key(v));
        assert(entries.contains_key(v));
        assert(model[v] == entries[v]@);
    }
    assert forall|v: u64| #[trigger] entries.contains_key(v) implies is_wanted_before(
        located,
        on_disk,
        src_paths,
        all_files,
        n,
        v,
    ) by {
        assert(model.contains_key(v));
    }
}

/// An address with a known line and a file on disk has its source line for an entry if any of the source
/// paths, whichever it is, is a prefix of the name of its file.
pub proof fn law_every_path_counts(
    located: Seq<Located<'_>>,
    on_disk: Seq<bool>,
    src_paths: Seq<String>,
    all_files: bool,
    entries: Map<u64, Entry<'_>>,
    i: int,
    k: int,
)
    requires
        entry_views(entries) == entry_map(
            located_views(located),
            on_disk,
            views(src_paths),
            all_files,
            located.len() as int,
        ),
        forall|a: int, b: int|
            0 <= a < b < located.len() ==> (#[trigger] located[a]).vaddr != (
            #[trigger] located[b]).vaddr,
        0 <= i < located.len(),
        0 <= k < src_paths.len(),
        located[i].line is Some,
        on_disk[i],
        src_paths[k]@.is_prefix_of(located[i].file@),
    ensures
        has_line_of(entries, located[i]),
{
    law_entry_map(located, on_disk, src_paths, all_files, entries);
    assert(lies_under(located[i].file@, src_paths));
    assert(is_wanted(located[i], on_disk[i], src_paths, all_files));
}

/// The entries do not depend on the order of the source paths, nor on how often one is given.
pub proof fn law_order_of_paths(
    located: Seq<LocatedModel>,
    on_disk: Seq<bool>,
    a: Seq<String>,
    b: Seq<String>,
    all_files: bool,
    n: int,
)
    requires
        views(a).to_set() == views(b).to_set(),
    ensures
        entry_map(located, on_disk, views(a), all_files, n) == entry_map(
            located,
            on_disk,
            views(b),
            all_files,
            n,
        ),
    decreases n,
{
    if n > 0 {
        law_order_of_paths(located, on_disk, a, b, all_files, n - 1);
        let file = located[n - 1].file;
        if is_under(file, views(a)) {
            lemma_same_paths(file, views(a), views(b));
        }
        if is_under(file, views(b)) {
            lemma_same_paths(file, views(b), views(a));
        }
    }
}

proof fn lemma_same_paths(file: Seq<char>, a: Seq<Seq<char>>, b: Seq<Seq<char>>)
    requires
        a.to_set() == b.to_set(),
        is_under(file, a),
    ensures
        is_under(file, b),
{
    let i = choose|i: int| 0 <= i < a.len() && starts_with(file, #[trigger] a[i]);
    assert(a.to_set().contains(a[i]));
    let j = choose|j: int| 0 <= j < b.len() && b[j] == a[i];
    assert(starts_with(file, b[j]));
}

/// What is kept of a source location: the address, the file and the line, if there is a file.
pub proof fn law_located_at(
    vaddr: u64,
    found: Option<SourceLocation<'_>>,
    located: Option<Located<'_>>,
)
    requires
        match located {
            Some(located) => Some(located@),
            None => None,
        } == located_model(
            vaddr,
            match found {
                Some(found) => Some(found@),
                None => None,
            },
        ),
    ensures
        located is Some <==> found is Some && found->0.file is Some,
        located is Some ==> located->0.vaddr == vaddr && located->0.file@ == found->0.file->0@
            && located->0.line == found->0.line,
{
}

/// Whether a located address is what an answer says of address number `i`.
pub open spec fn is_answered(
    answer: Result<Option<LocationModel>, Seq<char>>,
    i: int,
    located: LocatedModel,
) -> bool {
    &&& answer is Ok
    &&& answer->Ok_0 is Some
    &&& (answer->Ok_0)->0.file == Some(located.file)
    &&& (answer->Ok_0)->0.line == located.line
    &&& located.vaddr == 8 * i
}

/// Whether an answer has a file.
pub open spec fn has_source(answer: Result<Option<LocationModel>, Seq<char>>) -> bool {
    answer is Ok && answer->Ok_0 is Some && (answer->Ok_0)->0.file is Some
}

/// Whether an answer is among the located addresses.
pub open spec fn is_located(
    answer: Result<Option<LocationModel>, Seq<char>>,
    i: int,
    located: Seq<LocatedModel>,
) -> bool {
    exists|k: int| 0 <= k < located.len() && is_answered(answer, i, #[trigger] located[k])
}

/// Whether a located address is one of the first `n` answers.
pub open spec fn comes_from(
    answers: Seq<Result<Option<LocationModel>, Seq<char>>>,
    n: int,
    located: LocatedModel,
) -> bool {
    exists|i: int| 0 <= i < n && is_answered(#[trigger] answers[i], i, located)
}

/// Every answer with a file is among the located addresses, and every located address is an answer.
pub proof fn law_located_list(answers: Seq<Result<Option<LocationModel>, Seq<char>>>, n: int)
    requires
        0 <= n <= answers.len(),
        8 * n <= 0xffff_ffff_ffff_ffff + 8,
    ensures
        forall|i: int|
            0 <= i < n && has_source(#[trigger] answers[i]) ==> is_located(
                answers[i],
                i,
                located_list(answers, n),
            ),
        forall|k: int|
            0 <= k < located_list(answers, n).len() ==> comes_from(
                answers,
                n,
                #[trigger] located_list(answers, n)[k],
            ),
    decreases n,
{
    if n > 0 {
        let m = n - 1;
        let before = located_list(answers, m);
        let list = located_list(answers, n);
        law_located_list(answers, m);
        assert forall|i: int| 0 <= i < n && has_source(#[trigger] answers[i]) implies is_located(
            answers[i],
            i,
            list,
        ) by {
            if i < m {
                let k = choose|k: int|
                    0 <= k < before.len() && is_answered(answers[i], i, #[trigger] before[k]);
                assert(list[k] == before[k]);
            } else {
                assert(is_answered(answers[m], m, list[before.len() as int]));
            }
        }
        assert forall|k: int| 0 <= k < list.len() implies comes_from(
            answers,
            n,
            #[trigger] list[k],
        ) by {
            if k < before.len() {
                assert(list[k] == before[k]);
                let i = choose|i: int|
                    0 <= i < m && is_answered(#[trigger] answers[i], i, before[k]);
                assert(is_answered(answers[i], i, list[k]));
            } else {
                assert(is_answered(answers[m], m, list[k]));
            }
        }
    }
}

/// Answers that end with no error are answers for all instruction addresses below the length of the
/// file, each of which the loader may give.
pub proof fn law_all_addresses_are_asked(
    loader: Loader,
    file_len: u64,
    answers: Seq<Result<Option<LocationModel>, Seq<char>>>,
)
    requires
        may_answer(loader, file_len, answers),
    ensures
        answers.len() == 0 || answers.last() is Ok ==> file_len <= 8 * answers.len() < file_len + 8,
        forall|i: int|
            0 <= i < answers.len() ==> 8 * i < file_len && may_find_location(
                loader,
                (8 * i) as u64,
                #[trigger] answers[i],
            ),
        forall|i: int| 0 <= i < answers.len() - 1 ==> #[trigger] answers[i] is Ok,
{
}

/// An error is given exactly when the last answer is one, with its address and its message.
pub proof fn law_location_errors(
    answers: Seq<Result<Option<LocationModel>, Seq<char>>>,
    error: Option<CoverageError>,
)
    requires
        is_last_error(answers, error),
    ensures
        error is Some <==> answers.len() > 0 && answers.last() is Err,
        error matches Some(e) ==> (e matches CoverageError::NoLocation { vaddr, reason } && vaddr == 8
            * (answers.len() - 1) && answers.last() == Err::<Option<LocationModel>, Seq<char>>(
            reason@,
        )),
{
}

/// Whether the line of address number `i` is not that of the address before it.
pub open spec fn begins_line(entries: Map<u64, Entry<'_>>, keys: Seq<u64>, i: int) -> bool {
    i == 0 || entries[keys[i - 1]].file@ + ":"@ + decimal(entries[keys[i - 1]].line as nat)
        != entries[keys[i]].file@ + ":"@ + decimal(entries[keys[i]].line as nat)
}

/// Whether `lines` are the lines of a listing for the addresses of the numbers `at`.
pub open spec fn lists_at(
    entries: Map<u64, Entry<'_>>,
    keys: Seq<u64>,
    lines: Seq<Seq<char>>,
    at: Seq<int>,
) -> bool {
    &&& at.len() == lines.len()
    &&& forall|m: int|
        0 <= m < at.len() ==> 0 <= #[trigger] at[m] < keys.len() && begins_line(
            entries,
            keys,
            at[m],
        ) && lines[m] == "0x"@ + hexadecimal(keys[at[m]] as nat) + ": "@
            + entries[keys[at[m]]].file@ + ":"@ + decimal(entries[keys[at[m]]].line as nat)
    &&& forall|m: int, k: int| 0 <= m < k < at.len() ==> #[trigger] at[m] < #[trigger] at[k]
    &&& forall|i: int| 0 <= i < keys.len() && #[trigger] begins_line(entries, keys, i)
        ==> at.contains(i)
}

proof fn lemma_dump(entries: Map<u64, Entry<'_>>, keys: Seq<u64>) -> (at: Seq<int>)
    requires
        forall|i: int| 0 <= i < keys.len() ==> entries.contains_key(#[trigger] keys[i]),
    ensures
        lists_at(entries, keys, dump_lines(entry_views(entries), keys), at),
    decreases keys.len(),
{
    if keys.len() == 0 {
        seq![]
    } else {
        let rest = keys.drop_last();
        let n = keys.len() - 1;
        let model = entry_views(entries);
        assert forall|i: int| 0 <= i < rest.len() implies entries.contains_key(
            #[trigger] rest[i],
        ) by {
            assert(rest[i] == keys[i]);
        }
        let before = lemma_dump(entries, rest);
        let had = dump_lines(model, rest);
        let lines = dump_lines(model, keys);
        assert(entries.contains_key(keys[n]));
        assert(model[keys[n]] == entries[keys[n]]@);
        if n > 0 {
            assert(entries.contains_key(keys[n - 1]));
            assert(model[keys[n - 1]] == entries[keys[n - 1]]@);
        }
        assert forall|i: int| 0 <= i < n implies #[trigger] begins_line(entries, keys, i)
            == begins_line(entries, rest, i) by {
            assert(rest[i] == keys[i]);
            if i > 0 {
                assert(rest[i - 1] == keys[i - 1]);
            }
        }
        let begins = begins_line(entries, keys, n);
        let at = if begins {
            before.push(n)
        } else {
            before
        };
        assert forall|m: int| 0 <= m < at.len() implies 0 <= #[trigger] at[m] < keys.len()
            && begins_line(entries, keys, at[m]) && lines[m] == "0x"@ + hexadecimal(
            keys[at[m]] as nat,
        ) + ": "@ + entries[keys[at[m]]].file@ + ":"@ + decimal(
            entries[keys[at[m]]].line as nat,
        ) by {
            if m < before.len() {
                assert(at[m] == before[m]);
                assert(rest[before[m]] == keys[before[m]]);
                assert(lines[m] == had[m]);
            } else {
                assert(lines[m] =~= "0x"@ + hexadecimal(keys[n] as nat) + ": "@
                    + entries[keys[n]].file@ + ":"@ + decimal(entries[keys[n]].line as nat));
            }
        }
        assert forall|m: int, k: int| 0 <= m < k < at.len() implies #[trigger] at[m]
            < #[trigger] at[k] by {
            assert(at[m] == before[m]);
            if k < before.len() {
                assert(at[k] == before[k]);
            }
        }
        assert forall|i: int| 0 <= i < keys.len() && #[trigger] begins_line(
            entries,
            keys,
            i,
        ) implies at.contains(i) by {
            if i < n {
                assert(begins_line(entries, rest, i));
                assert(before.contains(i));
                let m = choose|m: int| 0 <= m < before.len() && before[m] == i;
                assert(at[m] == i);
            } else {
                assert(at[before.len() as int] == n);
            }
        }
        at
    }
}

/// The listing of addresses has a line for the first address and for every address whose source line is
/// not that of the address before it, in ascending order, and no other.
pub proof fn law_dump(vaddr_entry_map: VaddrEntryMap<'_>, lines: Seq<String>)
    requires
        views(lines) == dump_lines(
            entry_views(vaddr_entry_map@),
            ascending(vaddr_entry_map@.dom()),
        ),
    ensures
        exists|at: Seq<int>| #[trigger]
            lists_at(
                vaddr_entry_map@,
                ascending(vaddr_entry_map@.dom()),
                views(lines),
                at,
            ),
{
    let entries = vaddr_entry_map@;
    assert(entries.dom().finite());
    let keys = ascending(entries.dom());
    law_ascending(entries.dom());
    assert forall|i: int| 0 <= i < keys.len() implies entries.contains_key(#[trigger] keys[i]) by {
        assert(keys.to_set().contains(keys[i]));
    }
    let at = lemma_dump(entries, keys);
    assert(lists_at(entries, keys, views(lines), at));
}

proof fn lemma_first_match(dwarfs: Seq<Dwarf<'_>>, exec_sha256: Seq<char>, n: int)
    requires
        0 <= n <= dwarfs.len(),
    ensures
        match first_match(dwarfs, exec_sha256, n) {
            Some(k) => {
                &&& 0 <= k < n
                &&& dwarfs[k].so_hash@ == exec_sha256
                &&& forall|j: int| 0 <= j < k ==> (#[trigger] dwarfs[j]).so_hash@ != exec_sha256
            },
            None => forall|j: int| 0 <= j < n ==> (#[trigger] dwarfs[j]).so_hash@ != exec_sha256,
        },
    decreases n,
{
    if n > 0 {
        lemma_first_match(dwarfs, exec_sha256, n - 1);
    }
}

/// The object that is found has the hash and no object before it has; none is found only where none has.
pub proof fn law_matching(dwarfs: Seq<Dwarf<'_>>, exec_sha256: Seq<char>)
    ensures
        match matching(dwarfs, exec_sha256) {
            Some(k) => {
                &&& 0 <= k < dwarfs.len()
                &&& dwarfs[k].so_hash@ == exec_sha256
                &&& forall|j: int| 0 <= j < k ==> (#[trigger] dwarfs[j]).so_hash@ != exec_sha256
            },
            None => forall|j: int|
                0 <= j < dwarfs.len() ==> (#[trigger] dwarfs[j]).so_hash@ != exec_sha256,
        },
{
    lemma_first_match(dwarfs, exec_sha256, dwarfs.len() as int);
}

/// Whether `to` begins at the start address and has the distances of `from`.
pub open spec fn is_shifted(from: Seq<u64>, to: Seq<u64>, start_address: u64) -> bool {
    &&& to.len() == from.len()
    &&& from.len() > 0 ==> to[0] == start_address
    &&& forall|i: int| 0 <= i < from.len() ==> (#[trigger] to[i]) - to[0] == from[i] - from[0]
}

/// Addresses can be moved exactly when the start address is not below the first of them and there are
/// addresses that begin at it with the same distances; the moved addresses are these.
pub proof fn law_moved(vaddrs: Seq<u64>, start_address: u64)
    ensures
        can_move(vaddrs, start_address) <==> vaddrs.len() == 0 || start_address >= vaddrs[0]
            && exists|to: Seq<u64>| #[trigger] is_shifted(vaddrs, to, start_address),
        can_move(vaddrs, start_address) ==> is_shifted(
            vaddrs,
            moved(vaddrs, start_address),
            start_address,
        ),
{
    let m = moved(vaddrs, start_address);
    if can_move(vaddrs, start_address) {
        assert forall|i: int| 0 <= i < vaddrs.len() implies #[trigger] m[i] == vaddrs[i] + (
        start_address - vaddrs[0]) by {
            assert(vaddrs[i] + (start_address - vaddrs[0]) <= u64::MAX);
        }
        assert(is_shifted(vaddrs, m, start_address));
    }
    if vaddrs.len() > 0 && start_address >= vaddrs[0] && exists|to: Seq<u64>| #[trigger]
        is_shifted(vaddrs, to, start_address) {
        let to = choose|to: Seq<u64>| #[trigger] is_shifted(vaddrs, to, start_address);
        assert forall|i: int| 0 <= i < vaddrs.len() implies #[trigger] vaddrs[i] + (start_address
            - vaddrs[0]) <= u64::MAX by {
            assert(to[i] - to[0] == vaddrs[i] - vaddrs[0]);
        }
    }
}

/// A file has debug information when any of its sections has a name that begins with `.debug_`.
pub proof fn law_debug_sections(names: Vec<Option<String>>)
    ensures
        has_debug_section(names_view(Some(names))->0) <==> exists|i: int|
            0 <= i < names@.len() && (#[trigger] names@[i]) is Some && ".debug_"@.is_prefix_of(
                names@[i]->0@,
            ),
{
    let model = names_view(Some(names))->0;
    assert forall|i: int| 0 <= i < names@.len() implies (#[trigger] model[i]) == string_view(
        names@[i],
    ) by {}
    if has_debug_section(model) {
        let i = choose|i: int|
            0 <= i < model.len() && (#[trigger] model[i] matches Some(name) && starts_with(
                name,
                ".debug_"@,
            ));
        law_starts_with(names@[i]->0@, ".debug_"@);
    }
    if exists|i: int|
        0 <= i < names@.len() && (#[trigger] names@[i]) is Some && ".debug_"@.is_prefix_of(
            names@[i]->0@,
        ) {
        let i = choose|i: int|
            0 <= i < names@.len() && (#[trigger] names@[i]) is Some && ".debug_"@.is_prefix_of(
                names@[i]->0@,
            );
        law_starts_with(names@[i]->0@, ".debug_"@);
        assert(model[i] == Some(names@[i]->0@));
    }
}

/// Whether an entry says `text` of an attribute: it has the tag, and the attribute is the producer and
/// its string is `text`, or it is the language and that is called `text`.
pub open spec fn says(entry: EntryModel, tag: u16, attribute: u16, text: Seq<char>) -> bool {
    &&& entry.tag == tag
    &&& entry.attributes.contains_key(attribute)
    &&& attribute == 0x25 && entry.attributes[attribute].text == Some(text) || attribute == 0x13
        && entry.attributes[attribute].language == Some(text)
}

/// Whether an entry says nothing of an attribute.
pub open spec fn is_silent(entry: EntryModel, tag: u16, attribute: u16) -> bool {
    forall|text: Seq<char>| !#[trigger] says(entry, tag, attribute, text)
}

/// Whether the entries of a unit, where it can be read, say nothing of an attribute.
pub open spec fn is_silent_unit(unit: Option<Seq<EntryModel>>, tag: u16, attribute: u16) -> bool {
    unit is Some ==> forall|e: int|
        0 <= e < unit->0.len() ==> is_silent(#[trigger] unit->0[e], tag, attribute)
}

proof fn lemma_entry_text(entry: EntryModel, tag: u16, attribute: u16)
    ensures
        match entry_text(entry.tag, attribute_of(entry, attribute), tag, attribute) {
            Some(text) => forall|t: Seq<char>| #[trigger]
                says(entry, tag, attribute, t) <==> t == text,
            None => is_silent(entry, tag, attribute),
        },
{
}

proof fn lemma_silent_unit(entries: Seq<EntryModel>, tag: u16, attribute: u16)
    ensures
        unit_text(entries, tag, attribute) is None <==> is_silent_unit(
            Some(entries),
            tag,
            attribute,
        ),
    decreases entries.len(),
{
    if entries.len() > 0 {
        let rest = entries.drop_first();
        lemma_silent_unit(rest, tag, attribute);
        lemma_entry_text(entries[0], tag, attribute);
        let first = entry_text(entries[0].tag, attribute_of(entries[0], attribute), tag, attribute);
        if first is Some {
            assert(says(entries[0], tag, attribute, first->0));
            assert(!is_silent(Some(entries)->0[0], tag, attribute));
        } else {
            assert(is_silent(entries[0], tag, attribute));
            assert(unit_text(entries, tag, attribute) == unit_text(rest, tag, attribute));
            if is_silent_unit(Some(rest), tag, attribute) {
                assert forall|e: int| 0 <= e < entries.len() implies is_silent(
                    #[trigger] Some(entries)->0[e],
                    tag,
                    attribute,
                ) by {
                    if e > 0 {
                        assert(Some(rest)->0[e - 1] == entries[e]);
                    }
                }
            }
            if is_silent_unit(Some(entries), tag, attribute) {
                assert forall|e: int| 0 <= e < rest.len() implies is_silent(
                    #[trigger] Some(rest)->0[e],
                    tag,
                    attribute,
                ) by {
                    assert(Some(entries)->0[e + 1] == rest[e]);
                }
            }
        }
    }
}

proof fn lemma_unit_text(
    entries: Seq<EntryModel>,
    tag: u16,
    attribute: u16,
    e: int,
    text: Seq<char>,
)
    requires
        0 <= e < entries.len(),
        says(entries[e], tag, attribute, text),
        forall|f: int| 0 <= f < e ==> is_silent(#[trigger] entries[f], tag, attribute),
    ensures
        unit_text(entries, tag, attribute) == Some(text),
    decreases entries.len(),
{
    lemma_entry_text(entries[0], tag, attribute);
    if e > 0 {
        let rest = entries.drop_first();
        assert(is_silent(entries[0], tag, attribute));
        let first = entry_text(entries[0].tag, attribute_of(entries[0], attribute), tag, attribute);
        if first is Some {
            assert(says(entries[0], tag, attribute, first->0));
        }
        assert forall|f: int| 0 <= f < e - 1 implies is_silent(
            #[trigger] rest[f],
            tag,
            attribute,
        ) by {
            assert(rest[f] == entries[f + 1]);
        }
        lemma_unit_text(rest, tag, attribute, e - 1, text);
    }
}

/// What an object file says of an attribute is what the first entry says that says anything of it,
/// whichever unit and whichever entry that is.
pub proof fn law_attribute(
    units: Seq<Option<Seq<EntryModel>>>,
    tag: u16,
    attribute: u16,
    u: int,
    e: int,
    text: Seq<char>,
)
    requires
        0 <= u < units.len(),
        units[u] is Some,
        0 <= e < units[u]->0.len(),
        says(units[u]->0[e], tag, attribute, text),
        forall|f: int| 0 <= f < e ==> is_silent(#[trigger] units[u]->0[f], tag, attribute),
        forall|v: int| 0 <= v < u ==> is_silent_unit(#[trigger] units[v], tag, attribute),
    ensures
        units_text(units, tag, attribute) == Some(text),
    decreases units.len(),
{
    if u == 0 {
        lemma_unit_text(units[0]->0, tag, attribute, e, text);
    } else {
        let rest = units.drop_first();
        assert(is_silent_unit(units[0], tag, attribute));
        if units[0] is Some {
            lemma_silent_unit(units[0]->0, tag, attribute);
        }
        assert(rest[u - 1] == units[u]);
        assert forall|v: int| 0 <= v < u - 1 implies is_silent_unit(
            #[trigger] rest[v],
            tag,
            attribute,
        ) by {
            assert(rest[v] == units[v + 1]);
        }
        law_attribute(rest, tag, attribute, u - 1, e, text);
    }
}

/// An object file says nothing of an attribute only where none of its entries does.
pub proof fn law_no_attribute(units: Seq<Option<Seq<EntryModel>>>, tag: u16, attribute: u16)
    ensures
        units_text(units, tag, attribute) is None <==> forall|u: int|
            0 <= u < units.len() ==> is_silent_unit(#[trigger] units[u], tag, attribute),
    decreases units.len(),
{
    if units.len() > 0 {
        let rest = units.drop_first();
        law_no_attribute(rest, tag, attribute);
        if units[0] is Some {
            lemma_silent_unit(units[0]->0, tag, attribute);
        }
        assert forall|u: int| 0 <= u < rest.len() implies #[trigger] rest[u] == units[u + 1] by {}
        if is_silent_unit(units[0], tag, attribute) && forall|u: int|
            0 <= u < rest.len() ==> is_silent_unit(#[trigger] rest[u], tag, attribute) {
            assert forall|u: int| 0 <= u < units.len() implies is_silent_unit(
                #[trigger] units[u],
                tag,
                attribute,
            ) by {
                if u > 0 {
                    assert(rest[u - 1] == units[u]);
                }
            }
        }
    }
}

/// What an entry says of the producer is the string of its value, and of the language its name, if the
/// entry has the tag.
pub proof fn law_attribute_text(
    found_tag: u16,
    value: Option<AttributeValue>,
    tag: u16,
    attribute: u16,
    text: Option<String>,
)
    requires
        string_view(text) == entry_text(found_tag, value_view(value), tag, attribute),
    ensures
        value is None || found_tag != tag || (attribute != 0x25 && attribute != 0x13) ==> text is None,
        value is Some && found_tag == tag && attribute == 0x25 ==> (text is Some
            <==> value->0.text is Some) && (text is Some ==> text->0@ == value->0.text->0@),
        value is Some && found_tag == tag && attribute == 0x13 ==> (text is Some
            <==> value->0.language is Some) && (text is Some ==> text->0@
            == value->0.language->0@),
{
}

/// Of a file with debug information, the compilation units give the attributes.
pub proof fn law_unit_attributes(units: Seq<Option<Seq<EntryModel>>>, attribute: u16)
    ensures
        unit_attribute(Some(units), attribute) == units_text(units, 0x11, attribute),
        unit_attribute(None, attribute) is None,
{
}

/// Looking for an attribute gives what the object file says of it, or the error that fits.
pub proof fn law_attribute_found(
    units: Option<Seq<Option<Seq<EntryModel>>>>,
    tag: u16,
    attribute: u16,
    text: Result<String, CoverageError>,
)
    requires
        attribute_found(units, tag, attribute, text),
    ensures
        units is None ==> text == Err::<String, CoverageError>(CoverageError::NotAnObject),
        units is Some ==> (text is Ok <==> units_text(units->0, tag, attribute) is Some),
        units is Some && text is Ok ==> units_text(units->0, tag, attribute) == Some(text->Ok_0@),
        units is Some && text is Err ==> text == Err::<String, CoverageError>(
            CoverageError::NoAttribute { tag, attribute },
        ),
{
}

/// The begin of a section is its address; where there is no such section, the error names it.
pub proof fn law_section_begin(
    data: Seq<u8>,
    section: Seq<char>,
    address: Result<u64, CoverageError>,
)
    requires
        section_start(data, section, address),
    ensures
        match section_addresses(data) {
            None => address == Err::<u64, CoverageError>(CoverageError::NotAnObject),
            Some(sections) => {
                &&& address is Ok <==> sections.contains_key(encode_utf8(section))
                &&& address is Ok ==> address->Ok_0 == sections[encode_utf8(section)]
                &&& address is Err ==> (address->Err_0 matches CoverageError::NoSection {
                    section: missing,
                } && missing@ == section)
            },
        },
{
}

} // verus!
