//! Object files with debug information, and the source lines of their addresses.

use crate::debug_info::{
    any_debug_section, debug_units, find_location, get_dwarf_attribute, has_debug_section,
    located_view, may_find_location, object_entry, object_sections, section_names, start_address,
    units_text, EntryModel, LocationModel, SourceLocation, DW_AT_LANGUAGE, DW_AT_PRODUCER,
    DW_TAG_COMPILE_UNIT,
};
use crate::error::CoverageError;
use crate::order::{ascending, listed, str_same};
use crate::sources::{file_is_under, is_under};
use crate::text::{decimal, hexadecimal, push_decimal, push_hexadecimal, string_view, views};
use crate::util::{compute_hash, get_section_start_address, hex_text, section_start, sha256};
use addr2line::Loader;
use std::collections::BTreeMap;
use std::path::PathBuf;
use vstd::prelude::*;

verus! {

broadcast use vstd::std_specs::btree::group_btree_axioms;

/// `std::path::PathBuf`, carried through unchanged.
#[verifier::external_type_specification]
#[verifier::external_body]
pub struct ExPathBuf(PathBuf);

/// A file with debug information, and what it says of the compiler and the language.
#[derive(Debug)]
pub struct DebugPath {
    pub path: PathBuf,
    pub producer: Option<String>,
    pub lang: Option<String>,
}

/// What the compilation units of an object file say of an attribute, `None` where they say nothing.
pub open spec fn unit_attribute(
    units: Option<Seq<Option<Seq<EntryModel>>>>,
    attribute: u16,
) -> Option<Seq<char>> {
    match units {
        Some(units) => units_text(units, DW_TAG_COMPILE_UNIT, attribute),
        None => None,
    }
}

/// Recognises a file with debug information by its contents: an object file of which a section is
/// called `.debug_` and something.
pub fn debug_path(path: PathBuf, data: &[u8]) -> (found: Option<DebugPath>)
    ensures
        found is Some <==> (object_sections(data@) matches Some(names) && has_debug_section(names)),
        found matches Some(found) ==> {
            &&& found.path == path
            &&& string_view(found.producer) == unit_attribute(debug_units(data@), DW_AT_PRODUCER)
            &&& string_view(found.lang) == unit_attribute(debug_units(data@), DW_AT_LANGUAGE)
        },
{
    let names = match section_names(data) {
        Some(names) => names,
        None => {
            return None;
        },
    };
    let producer = get_dwarf_attribute(data, DW_TAG_COMPILE_UNIT, DW_AT_PRODUCER).ok();
    let lang = get_dwarf_attribute(data, DW_TAG_COMPILE_UNIT, DW_AT_LANGUAGE).ok();
    if any_debug_section(&names) {
        Some(DebugPath { path, producer, lang })
    } else {
        None
    }
}

/// A line of a source file.
#[derive(Clone, Copy, Debug)]
pub struct Entry<'a> {
    pub file: &'a str,
    pub line: u32,
}

impl<'a> View for Entry<'a> {
    type V = (Seq<char>, u32);

    open spec fn view(&self) -> (Seq<char>, u32) {
        (self.file@, self.line)
    }
}

/// The source lines of addresses.
pub type VaddrEntryMap<'a> = BTreeMap<u64, Entry<'a>>;

/// The views of the source lines of addresses.
pub open spec fn entry_views<'a>(entries: Map<u64, Entry<'a>>) -> Map<u64, (Seq<char>, u32)> {
    entries.map_values(|entry: Entry| entry@)
}

/// An address whose source file is known, and perhaps the line.
#[derive(Clone, Copy, Debug)]
pub struct Located<'a> {
    pub vaddr: u64,
    pub file: &'a str,
    pub line: Option<u32>,
}

/// The view of a located address.
pub struct LocatedModel {
    pub vaddr: u64,
    pub file: Seq<char>,
    pub line: Option<u32>,
}

impl<'a> View for Located<'a> {
    type V = LocatedModel;

    open spec fn view(&self) -> LocatedModel {
        LocatedModel { vaddr: self.vaddr, file: self.file@, line: self.line }
    }
}

/// The views of located addresses.
pub open spec fn located_views<'a>(located: Seq<Located<'a>>) -> Seq<LocatedModel> {
    located.map_values(|l: Located| l@)
}

/// What is kept of the answer to the question for the source location of an address: nothing
/// where there is no location or no file.
pub open spec fn located_model(vaddr: u64, found: Option<LocationModel>) -> Option<LocatedModel> {
    match found {
        Some(LocationModel { file: Some(file), line, .. }) => Some(
            LocatedModel { vaddr, file, line },
        ),
        _ => None,
    }
}

/// What is kept of the source location of an address.
pub fn located_at<'a>(vaddr: u64, found: Option<SourceLocation<'a>>) -> (located: Option<
    Located<'a>,
>)
    ensures
        match located {
            Some(located) => Some(located@),
            None => None,
        } == located_model(
            vaddr,
            match found {
                Some(found) => Some(found@),
                None => None,
            },
        ),
{
    match found {
        Some(location) => match location.file {
            Some(file) => Some(Located { vaddr, file, line: location.line }),
            None => None,
        },
        None => None,
    }
}

/// What is kept of the first `n` answers, of which number `i` is for address `8 * i`.
pub open spec fn located_list(
    answers: Seq<Result<Option<LocationModel>, Seq<char>>>,
    n: int,
) -> Seq<LocatedModel>
    decreases n,
{
    if n <= 0 {
        seq![]
    } else {
        let before = located_list(answers, n - 1);
        match answers[n - 1] {
            Ok(found) => match located_model((8 * (n - 1)) as u64, found) {
                Some(located) => before.push(located),
                None => before,
            },
            Err(_) => before,
        }
    }
}

/// Whether asking a loader for the source locations of the addresses 0, 8, 16 and so on below
/// `file_len` may give these answers: one for every address, or up to the first error.
pub open spec fn may_answer(
    loader: Loader,
    file_len: u64,
    answers: Seq<Result<Option<LocationModel>, Seq<char>>>,
) -> bool {
    &&& forall|i: int|
        0 <= i < answers.len() ==> 8 * i < file_len && may_find_location(
            loader,
            (8 * i) as u64,
            #[trigger] answers[i],
        )
    &&& forall|i: int| 0 <= i < answers.len() - 1 ==> #[trigger] answers[i] is Ok
    &&& 8 * answers.len() >= file_len || (answers.len() > 0 && answers.last() is Err)
}

/// Whether `error` is what remains of the answers: the error they end with, if they do.
pub open spec fn is_last_error(
    answers: Seq<Result<Option<LocationModel>, Seq<char>>>,
    error: Option<CoverageError>,
) -> bool {
    if answers.len() > 0 && answers.last() is Err {
        error matches Some(CoverageError::NoLocation { vaddr, reason }) && vaddr == 8 * (
        answers.len() - 1) && reason@ == answers.last()->Err_0
    } else {
        error is None
    }
}

/// Asks the debug information for the source locations of all instruction addresses below `file_len`.
/// Where it fails, what was found before the failing address comes with the error.
pub fn locate<'a>(loader: &'a Loader, file_len: u64) -> (found: (
    Vec<Located<'a>>,
    Option<CoverageError>,
))
    ensures
        exists|answers: Seq<Result<Option<LocationModel>, Seq<char>>>| #[trigger]
            may_answer(*loader, file_len, answers) && located_views(found.0@) == located_list(
                answers,
                answers.len() as int,
            ) && is_last_error(answers, found.1),
{
    let mut located: Vec<Located<'a>> = Vec::new();
    let ghost mut answers: Seq<Result<Option<LocationModel>, Seq<char>>> = seq![];
    let mut vaddr: u64 = 0;
    let mut done: bool = file_len == 0;
    assert(located_views(located@) == located_list(answers, 0));
    while !done
        invariant
            done ==> 8 * answers.len() >= file_len,
            !done ==> vaddr == 8 * answers.len() && vaddr < file_len,
            forall|i: int|
                0 <= i < answers.len() ==> 8 * i < file_len && may_find_location(
                    *loader,
                    (8 * i) as u64,
                    #[trigger] answers[i],
                ),
            forall|i: int| 0 <= i < answers.len() ==> #[trigger] answers[i] is Ok,
            located_views(located@) == located_list(answers, answers.len() as int),
        decreases
                if done {
                    0
                } else {
                    file_len - vaddr
                },
    {
        let ghost before = answers;
        let ghost had = located@;
        let found = find_location(loader, vaddr);
        proof {
            answers = answers.push(located_view(found));
            lemma_located_list_prefix(before, answers, before.len() as int);
        }
        match found {
            Err(reason) => {
                assert(may_answer(*loader, file_len, answers));
                return (located, Some(CoverageError::NoLocation { vaddr, reason }));
            },
            Ok(found) => {
                if let Some(l) = located_at(vaddr, found) {
                    located.push(l);
                    assert(located_views(located@) == located_views(had).push(l@));
                }
            },
        }
        if file_len - vaddr <= 8 {
            done = true;
        } else {
            vaddr = vaddr + 8;
        }
    }
    assert(may_answer(*loader, file_len, answers));
    (located, None)
}

/// What is kept of the first answers does not depend on later ones.
proof fn lemma_located_list_prefix(
    a: Seq<Result<Option<LocationModel>, Seq<char>>>,
    b: Seq<Result<Option<LocationModel>, Seq<char>>>,
    n: int,
)
    requires
        n <= a.len(),
        n <= b.len(),
        forall|i: int| 0 <= i < n ==> a[i] == b[i],
    ensures
        located_list(a, n) == located_list(b, n),
    decreases n,
{
    if n > 0 {
        lemma_located_list_prefix(a, b, n - 1);
    }
}

/// Whether a located address gets an entry: its line is known and, unless all files are wanted, its
/// file exists and lies under one of the source paths.
pub open spec fn is_kept(
    located: LocatedModel,
    exists_on_disk: bool,
    src_paths: Seq<Seq<char>>,
    all_files: bool,
) -> bool {
    &&& located.line is Some
    &&& all_files || (exists_on_disk && is_under(located.file, src_paths))
}

/// The entries of the first `n` located addresses.
pub open spec fn entry_map(
    located: Seq<LocatedModel>,
    on_disk: Seq<bool>,
    src_paths: Seq<Seq<char>>,
    all_files: bool,
    n: int,
) -> Map<u64, (Seq<char>, u32)>
    decreases n,
{
    if n <= 0 {
        Map::empty()
    } else {
        let before = entry_map(located, on_disk, src_paths, all_files, n - 1);
        let l = located[n - 1];
        if is_kept(l, on_disk[n - 1], src_paths, all_files) {
            before.insert(l.vaddr, (l.file, l.line->0))
        } else {
            before
        }
    }
}

/// Maps addresses to source lines. Unless `trace_disassemble` is set, files that do not exist and
/// files outside the source paths are left out; `on_disk` says for every located address whether its
/// file exists.
pub fn build_vaddr_entry_map<'a>(
    located: &Vec<Located<'a>>,
    on_disk: &Vec<bool>,
    src_paths: &Vec<String>,
    trace_disassemble: bool,
) -> (entries: VaddrEntryMap<'a>)
    requires
        trace_disassemble || on_disk@.len() == located@.len(),
    ensures
        entry_views(entries@) == entry_map(
            located_views(located@),
            on_disk@,
            views(src_paths@),
            trace_disassemble,
            located@.len() as int,
        ),
{
    let mut entries: VaddrEntryMap<'a> = BTreeMap::new();
    let ghost models = located_views(located@);
    assert(entry_views(entries@) =~= Map::empty());
    for i in 0..located.len()
        invariant
            models == located_views(located@),
            trace_disassemble || on_disk@.len() == located@.len(),
            entry_views(entries@) == entry_map(
                models,
                on_disk@,
                views(src_paths@),
                trace_disassemble,
                i as int,
            ),
    {
        let l = located[i];
        assert(models[i as int] == l@);
        if trace_disassemble || (on_disk[i] && file_is_under(l.file, src_paths)) {
            if let Some(line) = l.line {
                let ghost before = entries@;
                let entry = Entry { file: l.file, line };
                entries.insert(l.vaddr, entry);
                assert(entry_views(entries@) =~= entry_views(before).insert(l.vaddr, entry@));
            }
        }
    }
    entries
}

/// A source line as it is printed.
pub open spec fn line_text(entry: (Seq<char>, u32)) -> Seq<char> {
    entry.0 + ":"@ + decimal(entry.1 as nat)
}

/// Appends a source line as it is printed.
pub fn push_line(out: &mut String, file: &str, line: u32)
    ensures
        final(out)@ == old(out)@ + line_text((file@, line)),
{
    out.append(file);
    out.append(":");
    push_decimal(out, line as u64);
    assert(out@ =~= old(out)@ + line_text((file@, line)));
}

/// The listing of the addresses `keys`: each with its source line, but of neighbours with the same
/// line only the first.
pub open spec fn dump_lines(
    entries: Map<u64, (Seq<char>, u32)>,
    keys: Seq<u64>,
) -> Seq<Seq<char>>
    decreases keys.len(),
{
    if keys.len() == 0 {
        seq![]
    } else {
        let before = dump_lines(entries, keys.drop_last());
        let n = keys.len() - 1;
        let text = line_text(entries[keys[n]]);
        if n > 0 && line_text(entries[keys[n - 1]]) == text {
            before
        } else {
            before.push("0x"@ + hexadecimal(keys[n] as nat) + ": "@ + text)
        }
    }
}

/// Lists the addresses of a map in ascending order with their source lines. Addresses that follow one
/// with the same source line are left out.
pub fn dump_vaddr_entry_map(entries: &VaddrEntryMap<'_>) -> (lines: Vec<String>)
    ensures
        views(lines@) == dump_lines(entry_views(entries@), ascending(entries@.dom())),
{
    let pairs = listed(entries);
    let mut lines: Vec<String> = Vec::new();
    let mut prev = String::new();
    let ghost model = entry_views(entries@);
    let ghost keys = ascending(entries@.dom());
    assert(views(lines@) == dump_lines(model, keys.take(0)));
    for i in 0..pairs.len()
        invariant
            model == entry_views(entries@),
            pairs@.len() == keys.len(),
            forall|j: int|
                0 <= j < pairs@.len() ==> {
                    &&& (#[trigger] pairs@[j]).0 == keys[j]
                    &&& entries@.contains_key(pairs@[j].0)
                    &&& *pairs@[j].1 == entries@[pairs@[j].0]
                },
            i == 0 ==> prev@.len() == 0,
            i > 0 ==> prev@ == line_text(model[keys[i - 1]]),
            views(lines@) == dump_lines(model, keys.take(i as int)),
    {
        let (vaddr, entry) = pairs[i];
        let mut curr = String::new();
        push_line(&mut curr, entry.file, entry.line);
        proof {
            assert(model[keys[i as int]] == entry@);
            assert(curr@ =~= line_text(model[keys[i as int]]));
            assert(keys.take(i + 1).drop_last() == keys.take(i as int));
            reveal_strlit(":");
            if i > 0 {
                assert(keys.take(i + 1)[i - 1] == keys[i - 1]);
            }
        }
        if !str_same(prev.as_str(), curr.as_str()) {
            let mut line = String::new();
            line.append("0x");
            push_hexadecimal(&mut line, vaddr);
            line.append(": ");
            line.append(curr.as_str());
            let ghost had = lines@;
            lines.push(line);
            prev = curr;
            proof {
                assert(line@ =~= "0x"@ + hexadecimal(vaddr as nat) + ": "@ + curr@);
                assert(views(lines@) =~= views(had).push(line@));
            }
        }
    }
    assert(keys.take(keys.len() as int) == keys);
    lines
}

/// An object file with debug information and the shared object it describes.
pub struct Dwarf<'a> {
    pub debug_path: DebugPath,
    pub so_path: PathBuf,
    pub so_hash: String,
    pub start_address: u64,
    pub text_section_offset: u64,
    /// The bytes of the file with the debug information.
    pub data: &'a [u8],
    pub loader: &'a Loader,
    pub vaddr_entry_map: VaddrEntryMap<'a>,
}

impl<'a> Dwarf<'a> {
    /// Whether the recorded start address and the recorded begin of the code are those of the object
    /// file.
    pub open spec fn well_formed(self) -> bool {
        &&& object_entry(self.data@) == Some(self.start_address)
        &&& section_start(self.data@, ".text"@, Ok(self.text_section_offset))
    }
}

/// Where the shared object is looked for that a file with debug information describes: next to
/// `program.debug` under the name `program.so`, and next to `program.so.debug` without the last
/// extension.
#[derive(PartialEq, Eq, Clone, Copy, Structural, Debug)]
pub enum SoAttempt {
    WithSo,
    WithoutExtension,
}

/// Where the shared object is looked for after it could not be read. A second place is tried only if
/// there is no file in the first.
pub fn next_attempt(failed: SoAttempt, not_found: bool) -> (next: Option<SoAttempt>)
    ensures
        next == (if failed == SoAttempt::WithSo && not_found {
            Some(SoAttempt::WithoutExtension)
        } else {
            None
        }),
{
    if failed == SoAttempt::WithSo && not_found {
        Some(SoAttempt::WithoutExtension)
    } else {
        None
    }
}

/// Puts together what is known of an object file with debug information: the address at which its
/// program begins, the hash of the shared object that it describes and the address at which its code
/// begins come on top. The caller vouches for it that `data` are the bytes of the file that `loader`
/// was made for.
pub fn build_dwarf<'a>(
    debug_path: DebugPath,
    so_path: PathBuf,
    so_content: &[u8],
    data: &'a [u8],
    loader: &'a Loader,
    vaddr_entry_map: VaddrEntryMap<'a>,
) -> (dwarf: Result<Dwarf<'a>, CoverageError>)
    ensures
        object_entry(data@) is None ==> dwarf matches Err(CoverageError::NotAnObject),
        object_entry(data@) is Some ==> match dwarf {
            Ok(dwarf) => {
                &&& dwarf.well_formed()
                &&& dwarf.debug_path == debug_path
                &&& dwarf.so_path == so_path
                &&& dwarf.so_hash@ == hex_text(sha256(so_content@))
                &&& dwarf.data == data
                &&& dwarf.loader == loader
                &&& dwarf.vaddr_entry_map == vaddr_entry_map
            },
            Err(error) => section_start(data@, ".text"@, Err(error)),
        },
{
    let start_address: u64 = match start_address(data) {
        Ok(start_address) => start_address,
        Err(error) => {
            return Err(error);
        },
    };
    let so_hash = compute_hash(so_content);
    match get_section_start_address(data, ".text") {
        Ok(text_section_offset) => Ok(
            Dwarf {
                debug_path,
                so_path,
                so_hash,
                start_address,
                text_section_offset,
                data,
                loader,
                vaddr_entry_map,
            },
        ),
        Err(error) => Err(error),
    }
}

/// The first of the first `n` objects whose shared object has the given hash.
pub open spec fn first_match(dwarfs: Seq<Dwarf<'_>>, exec_sha256: Seq<char>, n: int) -> Option<int>
    decreases n,
{
    if n <= 0 {
        None
    } else {
        match first_match(dwarfs, exec_sha256, n - 1) {
            Some(i) => Some(i),
            None => if dwarfs[n - 1].so_hash@ == exec_sha256 {
                Some(n - 1)
            } else {
                None
            },
        }
    }
}

/// The first object whose shared object has the given hash.
pub open spec fn matching(dwarfs: Seq<Dwarf<'_>>, exec_sha256: Seq<char>) -> Option<int> {
    first_match(dwarfs, exec_sha256, dwarfs.len() as int)
}

/// The first object whose shared object has the given hash.
pub fn find_dwarf<'a, 'd>(dwarfs: &'a Vec<Dwarf<'d>>, exec_sha256: &str) -> (found: Option<
    &'a Dwarf<'d>,
>)
    ensures
        match matching(dwarfs@, exec_sha256@) {
            Some(k) => 0 <= k < dwarfs@.len() && found == Some(&dwarfs@[k]),
            None => found is None,
        },
{
    let mut found: Option<&'a Dwarf<'d>> = None;
    for i in 0..dwarfs.len()
        invariant
            match first_match(dwarfs@, exec_sha256@, i as int) {
                Some(k) => 0 <= k < i && found == Some(&dwarfs@[k]),
                None => found is None,
            },
    {
        if found.is_none() && str_same(dwarfs[i].so_hash.as_str(), exec_sha256) {
            found = Some(&dwarfs[i]);
        }
    }
    found
}

/// Whether the addresses can be moved so that the first becomes `start_address`: it is not below the
/// first address, and no address leaves the 64 bits.
pub open spec fn can_move(vaddrs: Seq<u64>, start_address: u64) -> bool {
    vaddrs.len() > 0 ==> {
        &&& start_address >= vaddrs[0]
        &&& forall|i: int|
            0 <= i < vaddrs.len() ==> #[trigger] vaddrs[i] + (start_address - vaddrs[0])
                <= u64::MAX
    }
}

/// The addresses, all moved by the same distance so that the first becomes `start_address`.
pub open spec fn moved(vaddrs: Seq<u64>, start_address: u64) -> Seq<u64> {
    vaddrs.map_values(|v: u64| (v + (start_address - vaddrs[0])) as u64)
}

/// Tests whether the addresses can be moved so that the first becomes `start_address`.
pub fn addresses_can_move(vaddrs: &Vec<u64>, start_address: u64) -> (b: bool)
    ensures
        b == can_move(vaddrs@, start_address),
{
    if vaddrs.len() == 0 {
        return true;
    }
    let first: u64 = vaddrs[0];
    if start_address < first {
        return false;
    }
    let shift: u64 = start_address - first;
    for i in 0..vaddrs.len()
        invariant
            vaddrs@.len() > 0,
            first == vaddrs@[0],
            first <= start_address,
            shift == start_address - first,
            forall|j: int| 0 <= j < i ==> #[trigger] vaddrs@[j] + shift <= u64::MAX,
    {
        if vaddrs[i] > u64::MAX - shift {
            assert(vaddrs@[i as int] + shift > u64::MAX);
            return false;
        }
    }
    true
}

/// Finds the object whose shared object was executed, by its hash, and moves the trace's addresses so
/// that the first becomes the object's start address.
pub fn find_applicable_dwarf<'a, 'd>(
    dwarfs: &'a Vec<Dwarf<'d>>,
    exec_sha256: &str,
    vaddrs: &mut Vec<u64>,
) -> (found: Result<&'a Dwarf<'d>, CoverageError>)
    requires
        matching(dwarfs@, exec_sha256@) matches Some(k) ==> can_move(
            old(vaddrs)@,
            dwarfs@[k].start_address,
        ),
    ensures
        match matching(dwarfs@, exec_sha256@) {
            None => {
                &&& found matches Err(CoverageError::NoExecutable { exec_sha256: hash }) && hash@
                    == exec_sha256@
                &&& final(vaddrs)@ == old(vaddrs)@
            },
            Some(k) => if old(vaddrs)@.len() == 0 {
                &&& found matches Err(CoverageError::EmptyTrace)
                &&& final(vaddrs)@ == old(vaddrs)@
            } else {
                &&& 0 <= k < dwarfs@.len()
                &&& found matches Ok(dwarf) && *dwarf == dwarfs@[k]
                &&& final(vaddrs)@ == moved(old(vaddrs)@, dwarfs@[k].start_address)
                &&& final(vaddrs)@[0] == dwarfs@[k].start_address
            },
        },
{
    let dwarf = match find_dwarf(dwarfs, exec_sha256) {
        Some(dwarf) => dwarf,
        None => {
            return Err(CoverageError::NoExecutable { exec_sha256: exec_sha256.to_owned() });
        },
    };
    if vaddrs.len() == 0 {
        return Err(CoverageError::EmptyTrace);
    }
    let ghost before = vaddrs@;
    let shift: u64 = dwarf.start_address - vaddrs[0];
    let count: usize = vaddrs.len();
    for i in 0..count
        invariant
            count == before.len(),
            vaddrs@.len() == before.len(),
            before.len() > 0,
            can_move(before, dwarf.start_address),
            shift == dwarf.start_address - before[0],
            forall|j: int| 0 <= j < i ==> #[trigger] vaddrs@[j] == before[j] + shift,
            forall|j: int| i <= j < vaddrs@.len() ==> #[trigger] vaddrs@[j] == before[j],
    {
        let vaddr: u64 = vaddrs[i];
        assert(before[i as int] + shift <= u64::MAX);
        vaddrs.set(i, vaddr + shift);
    }
    assert(vaddrs@ =~= moved(before, dwarf.start_address));
    Ok(dwarf)
}

/// Moving the addresses of a trace brings the first to the start address, keeps all distances between
/// addresses, and moves nothing a second time.
pub proof fn law_moved_trace(vaddrs: Seq<u64>, start_address: u64)
    requires
        vaddrs.len() > 0,
        can_move(vaddrs, start_address),
    ensures
        moved(vaddrs, start_address).len() == vaddrs.len(),
        moved(vaddrs, start_address)[0] == start_address,
        forall|i: int, j: int|
            0 <= i < vaddrs.len() && 0 <= j < vaddrs.len() ==> #[trigger] moved(
                vaddrs,
                start_address,
            )[i] - #[trigger] moved(vaddrs, start_address)[j] == vaddrs[i] - vaddrs[j],
        moved(moved(vaddrs, start_address), start_address) == moved(vaddrs, start_address),
{
    let m = moved(vaddrs, start_address);
    assert forall|i: int| 0 <= i < vaddrs.len() implies #[trigger] m[i] == vaddrs[i] + (
    start_address - vaddrs[0]) by {
        assert(vaddrs[i] + (start_address - vaddrs[0]) <= u64::MAX);
    }
    assert(moved(m, start_address) =~= m);
}

/// Whether located address number `i` is one with that address and that source line, and gets an
/// entry.
pub open spec fn is_entry_at(
    located: Seq<LocatedModel>,
    on_disk: Seq<bool>,
    src_paths: Seq<Seq<char>>,
    all_files: bool,
    i: int,
    vaddr: u64,
    entry: (Seq<char>, u32),
) -> bool {
    &&& located[i].vaddr == vaddr
    &&& is_kept(located[i], on_disk[i], src_paths, all_files)
    &&& entry == (located[i].file, located[i].line->0)
}

/// The addresses that are located are instruction addresses below the length of the file, in ascending
/// order and each once.
pub proof fn law_located_addresses(
    loader: Loader,
    file_len: u64,
    answers: Seq<Result<Option<LocationModel>, Seq<char>>>,
    n: int,
)
    requires
        may_answer(loader, file_len, answers),
        0 <= n <= answers.len(),
    ensures
        ({
            let located = located_list(answers, n);
            &&& forall|i: int|
                0 <= i < located.len() ==> (#[trigger] located[i]).vaddr % 8 == 0 && located[i].vaddr
                    < 8 * n && located[i].vaddr < file_len
            &&& forall|i: int, j: int|
                0 <= i < j < located.len() ==> (#[trigger] located[i]).vaddr < (
                #[trigger] located[j]).vaddr
        }),
    decreases n,
{
    if n > 0 {
        law_located_addresses(loader, file_len, answers, n - 1);
        let before = located_list(answers, n - 1);
        let answer = answers[n - 1];
        assert(8 * (n - 1) < file_len);
        if let Ok(found) = answer {
            if let Some(l) = located_model((8 * (n - 1)) as u64, found) {
                assert(located_list(answers, n) == before.push(l));
            }
        }
    }
}

/// An address has an entry exactly when it was located and is kept, and the entry is its source line.
pub proof fn law_entries_are_kept_lines(
    located: Seq<LocatedModel>,
    on_disk: Seq<bool>,
    src_paths: Seq<Seq<char>>,
    all_files: bool,
    n: int,
    vaddr: u64,
    entry: (Seq<char>, u32),
)
    requires
        0 <= n <= located.len(),
        forall|i: int, j: int|
            0 <= i < j < located.len() ==> (#[trigger] located[i]).vaddr != (
            #[trigger] located[j]).vaddr,
    ensures
        ({
            let map = entry_map(located, on_disk, src_paths, all_files, n);
            (map.contains_key(vaddr) && map[vaddr] == entry) <==> exists|i: int|
                0 <= i < n && #[trigger] is_entry_at(
                    located,
                    on_disk,
                    src_paths,
                    all_files,
                    i,
                    vaddr,
                    entry,
                )
        }),
    decreases n,
{
    if n > 0 {
        law_entries_are_kept_lines(located, on_disk, src_paths, all_files, n - 1, vaddr, entry);
        let last = located[n - 1];
        let kept = is_kept(last, on_disk[n - 1], src_paths, all_files);
        if vaddr == last.vaddr && kept {
            let map = entry_map(located, on_disk, src_paths, all_files, n);
            if map[vaddr] == entry {
                assert(is_entry_at(
                    located,
                    on_disk,
                    src_paths,
                    all_files,
                    n - 1,
                    vaddr,
                    entry,
                ));
            }
            assert forall|i: int| 0 <= i < n - 1 implies !#[trigger] is_entry_at(
                located,
                on_disk,
                src_paths,
                all_files,
                i,
                vaddr,
                entry,
            ) by {
                assert(located[i].vaddr != located[n - 1].vaddr);
            }
        }
    }
}

} // verus!
