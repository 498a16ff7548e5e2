//! The annotated disassembly: every executed instruction with its source line.

use crate::dwarf::{entry_views, line_text, push_line, Dwarf, VaddrEntryMap};
use crate::error::CoverageError;
use crate::order::str_same;
use crate::sources::{file_mentions, mentions};
use crate::text::{
    chars_of, decimal, hexadecimal, line_at, lines, push_decimal, push_hexadecimal, split_lines,
    string_of, string_view, trim, trim_chars, views,
};
use vstd::prelude::*;

verus! {

/// The number of an instruction as the disassembly counts it: from the begin of the code, in
/// instructions.
pub open spec fn instruction_number(pc: u64, text_section_offset: u64) -> nat {
    ((pc - text_section_offset) / 8) as nat
}

/// The number of an instruction as the disassembly counts it.
fn number_of(pc: u64, text_section_offset: u64) -> (number: u64)
    requires
        pc >= text_section_offset,
    ensures
        number == instruction_number(pc, text_section_offset),
{
    (pc - text_section_offset) / 8
}

/// The number of an instruction as the disassembly counts it. The addresses of a trace do not count
/// from the begin of the code.
pub fn pc_in_disassemble(pc_in_trace: u64, dwarf: &Dwarf<'_>) -> (pc: Result<u64, CoverageError>)
    requires
        pc_in_trace >= dwarf.text_section_offset,
    ensures
        pc matches Ok(pc) && pc == instruction_number(pc_in_trace, dwarf.text_section_offset),
{
    Ok(number_of(pc_in_trace, dwarf.text_section_offset))
}

/// A source file as it was found on this machine.
pub struct Source {
    /// The name that the debug information gives it.
    pub file: String,
    /// Its lines, none where it was not found.
    pub lines: Vec<String>,
    /// The path at which it was found if not under its own name, and otherwise empty.
    pub mapped_path: String,
}

/// The view of a source file.
pub struct SourceModel {
    pub file: Seq<char>,
    pub lines: Seq<Seq<char>>,
    pub mapped_path: Seq<char>,
}

impl View for Source {
    type V = SourceModel;

    open spec fn view(&self) -> SourceModel {
        SourceModel {
            file: self.file@,
            lines: views(self.lines@),
            mapped_path: self.mapped_path@,
        }
    }
}

/// The views of source files.
pub open spec fn source_views(sources: Seq<Source>) -> Seq<SourceModel> {
    sources.map_values(|s: Source| s@)
}

/// A source file that was not found.
pub open spec fn missing_source(file: Seq<char>) -> SourceModel {
    SourceModel { file, lines: seq![], mapped_path: seq![] }
}

/// What is known of a source file: its contents where it can be read under its own name, and
/// otherwise the contents of the file at the mapped path, unless that is the same path.
pub open spec fn resolved_source(
    file: Seq<char>,
    content: Option<Seq<char>>,
    mapped_path: Seq<char>,
    mapped_content: Option<Seq<char>>,
) -> SourceModel {
    if content is Some {
        SourceModel { file, lines: lines(content->0), mapped_path: seq![] }
    } else if mapped_path != file && mapped_content is Some {
        SourceModel { file, lines: lines(mapped_content->0), mapped_path }
    } else {
        missing_source(file)
    }
}

/// Puts together what is known of a source file.
pub fn resolve_source(
    file: &str,
    content: Option<String>,
    mapped_path: &str,
    mapped_content: Option<String>,
) -> (source: Source)
    ensures
        source@ == resolved_source(
            file@,
            string_view(content),
            mapped_path@,
            string_view(mapped_content),
        ),
{
    if let Some(content) = content {
        let source = Source {
            file: file.to_owned(),
            lines: split_lines(content.as_str()),
            mapped_path: String::new(),
        };
        assert(source@.mapped_path =~= seq![]);
        return source;
    }
    if !str_same(mapped_path, file) {
        if let Some(content) = mapped_content {
            return Source {
                file: file.to_owned(),
                lines: split_lines(content.as_str()),
                mapped_path: mapped_path.to_owned(),
            };
        }
    }
    let source = Source {
        file: file.to_owned(),
        lines: Vec::new(),
        mapped_path: String::new(),
    };
    assert(source@.mapped_path =~= seq![]);
    assert(source@.lines =~= seq![]);
    source
}

/// The source file of the given name, from number `i` on.
pub open spec fn source_from(sources: Seq<SourceModel>, file: Seq<char>, i: int) -> SourceModel
    decreases sources.len() - i,
{
    if i < 0 || i >= sources.len() {
        missing_source(file)
    } else if sources[i].file == file {
        sources[i]
    } else {
        source_from(sources, file, i + 1)
    }
}

/// The number of the source file of the given name.
fn find_source(sources: &Vec<Source>, file: &str) -> (found: Option<usize>)
    ensures
        match found {
            Some(i) => i < sources@.len() && source_views(sources@)[i as int] == source_from(
                source_views(sources@),
                file@,
                0,
            ),
            None => source_from(source_views(sources@), file@, 0) == missing_source(file@),
        },
{
    let ghost models = source_views(sources@);
    for i in 0..sources.len()
        invariant
            models == source_views(sources@),
            source_from(models, file@, i as int) == source_from(models, file@, 0),
    {
        assert(models[i as int] == sources@[i as int]@);
        if str_same(sources[i].file.as_str(), file) {
            return Some(i);
        }
    }
    None
}

/// The source code of a line, counted from 1 as in the debug information; line 0 stands for line 1.
pub open spec fn code_of(source: SourceModel, line: u32) -> Seq<char> {
    trim(
        line_at(
            source.lines,
            if line == 0 {
                0
            } else {
                line - 1
            },
        ),
    )
}

/// Where a source line is: under the name that the debug information gives, and at the mapped path if
/// it was found there.
pub open spec fn location_text(source: SourceModel, line: u32) -> Seq<char> {
    if source.mapped_path.len() == 0 {
        line_text((source.file, line))
    } else {
        line_text((source.file, line)) + " -> "@ + line_text((source.mapped_path, line))
    }
}

/// The colour of a source file: one for files that mention a source path and one for all others.
pub open spec fn file_color(file: Seq<char>, src_paths: Seq<Seq<char>>) -> Seq<char> {
    if mentions(file, src_paths) {
        "\x1b[35m"@
    } else {
        "\x1b[34m"@
    }
}

/// An executed instruction: its number, its address and its disassembly.
pub open spec fn instruction_text(
    pc: u64,
    text_section_offset: u64,
    disassembly: Seq<char>,
) -> Seq<char> {
    "["@ + decimal(instruction_number(pc, text_section_offset)) + "] (0x"@ + hexadecimal(pc as nat)
        + ") "@ + disassembly
}

/// The source line of an instruction.
pub open spec fn source_text(
    source: SourceModel,
    line: u32,
    src_paths: Seq<Seq<char>>,
    colorize: bool,
) -> Seq<char> {
    if colorize {
        "\n  \x1b[33msrc:\x1b[0m "@ + file_color(source.file, src_paths) + location_text(
            source,
            line,
        ) + "\x1b[0m\n  \x1b[36mcode:\x1b[0m \x1b[32m"@ + code_of(source, line) + "\x1b[0m"@
    } else {
        "\n  src: "@ + location_text(source, line) + "\n  code: "@ + code_of(source, line)
    }
}

/// What is printed for step `i` of a trace.
pub open spec fn step_text(
    src_paths: Seq<Seq<char>>,
    disassembly: Seq<Seq<char>>,
    vaddrs: Seq<u64>,
    dwarf: Dwarf<'_>,
    sources: Seq<SourceModel>,
    colorize: bool,
    i: int,
) -> Seq<char> {
    let entries = entry_views(dwarf.vaddr_entry_map@);
    let pc = vaddrs[i];
    let text = instruction_text(pc, dwarf.text_section_offset, line_at(disassembly, i));
    if entries.contains_key(pc) {
        let (file, line) = entries[pc];
        text + source_text(source_from(sources, file, 0), line, src_paths, colorize)
    } else {
        text
    }
}

/// Line number `n` of a list of lines, empty where there is none.
fn get_line(lines: &Vec<String>, n: usize) -> (line: &str)
    ensures
        line@ == line_at(views(lines@), n as int),
{
    if n < lines.len() {
        assert(views(lines@)[n as int] == lines@[n as int]@);
        lines[n].as_str()
    } else {
        proof {
            reveal_strlit("");
        }
        assert(""@ =~= seq![]);
        ""
    }
}

/// Appends the location of a source line.
fn push_location(out: &mut String, source: &Source, line: u32)
    ensures
        final(out)@ == old(out)@ + location_text(source@, line),
{
    push_line(out, source.file.as_str(), line);
    let mapped = chars_of(source.mapped_path.as_str());
    if mapped.len() > 0 {
        out.append(" -> ");
        push_line(out, source.mapped_path.as_str(), line);
    }
    assert(out@ =~= old(out)@ + location_text(source@, line));
}

/// Appends the source line of an instruction.
fn push_source(
    out: &mut String,
    source: &Source,
    line: u32,
    src_paths: &Vec<String>,
    colorize: bool,
)
    ensures
        final(out)@ == old(out)@ + source_text(source@, line, views(src_paths@), colorize),
{
    let n: usize = if line == 0 {
        0
    } else {
        (line - 1) as usize
    };
    let code = chars_of(get_line(&source.lines, n));
    let code = string_of(trim_chars(code.as_slice()));
    assert(code@ == code_of(source@, line));
    if colorize {
        out.append("\n  \x1b[33msrc:\x1b[0m ");
        if file_mentions(source.file.as_str(), src_paths) {
            out.append("\x1b[35m");
        } else {
            out.append("\x1b[34m");
        }
        push_location(out, source, line);
        out.append("\x1b[0m\n  \x1b[36mcode:\x1b[0m \x1b[32m");
        out.append(code.as_str());
        out.append("\x1b[0m");
    } else {
        out.append("\n  src: ");
        push_location(out, source, line);
        out.append("\n  code: ");
        out.append(code.as_str());
    }
    assert(out@ =~= old(out)@ + source_text(source@, line, views(src_paths@), colorize));
}

/// Tests whether all addresses lie behind the begin of the code.
pub fn trace_is_in_text(vaddrs: &Vec<u64>, text_section_offset: u64) -> (b: bool)
    ensures
        b == (forall|i: int|
            0 <= i < vaddrs@.len() ==> #[trigger] vaddrs@[i] >= text_section_offset),
{
    for i in 0..vaddrs.len()
        invariant
            forall|j: int| 0 <= j < i ==> #[trigger] vaddrs@[j] >= text_section_offset,
    {
        if vaddrs[i] < text_section_offset {
            assert(vaddrs@[i as int] < text_section_offset);
            return false;
        }
    }
    true
}

/// Annotates a trace: every step with the line of the disassembly that has its number and, where it
/// is known, with its source line.
pub fn trace_disassemble(
    src_paths: &Vec<String>,
    disassembly: &str,
    vaddrs: &Vec<u64>,
    dwarf: &Dwarf<'_>,
    sources: &Vec<Source>,
    colorize: bool,
) -> (printed: Vec<String>)
    requires
        forall|i: int|
            0 <= i < vaddrs@.len() ==> #[trigger] vaddrs@[i] >= dwarf.text_section_offset,
    ensures
        printed@.len() == vaddrs@.len(),
        forall|i: int|
            0 <= i < vaddrs@.len() ==> (#[trigger] printed@[i])@ == step_text(
                views(src_paths@),
                lines(disassembly@),
                vaddrs@,
                *dwarf,
                source_views(sources@),
                colorize,
                i,
            ),
{
    let disassembly = split_lines(disassembly);
    let mut printed: Vec<String> = Vec::new();
    let ghost code = views(disassembly@);
    let ghost models = source_views(sources@);
    let ghost entries = entry_views(dwarf.vaddr_entry_map@);
    for i in 0..vaddrs.len()
        invariant
            forall|j: int|
                0 <= j < vaddrs@.len() ==> #[trigger] vaddrs@[j] >= dwarf.text_section_offset,
            code == views(disassembly@),
            models == source_views(sources@),
            entries == entry_views(dwarf.vaddr_entry_map@),
            printed@.len() == i,
            forall|j: int|
                0 <= j < printed@.len() ==> (#[trigger] printed@[j])@ == step_text(
                    views(src_paths@),
                    code,
                    vaddrs@,
                    *dwarf,
                    models,
                    colorize,
                    j,
                ),
    {
        let pc: u64 = vaddrs[i];
        let mut text = String::new();
        text.append("[");
        push_decimal(&mut text, number_of(pc, dwarf.text_section_offset));
        text.append("] (0x");
        push_hexadecimal(&mut text, pc);
        text.append(") ");
        text.append(get_line(&disassembly, i));
        assert(text@ =~= instruction_text(
            pc,
            dwarf.text_section_offset,
            line_at(code, i as int),
        ));
        if let Some(entry) = dwarf.vaddr_entry_map.get(&pc) {
            assert(entries[pc] == entry@);
            match find_source(sources, entry.file) {
                Some(k) => {
                    assert(models[k as int] == sources@[k as int]@);
                    push_source(&mut text, &sources[k], entry.line, src_paths, colorize);
                },
                None => {
                    let source = Source {
                        file: entry.file.to_owned(),
                        lines: Vec::new(),
                        mapped_path: String::new(),
                    };
                    assert(source@.mapped_path =~= seq![]);
                    assert(source@.lines =~= seq![]);
                    push_source(&mut text, &source, entry.line, src_paths, colorize);
                },
            }
        }
        printed.push(text);
    }
    printed
}

/// The source files of the first `n` steps, each once, in the order in which they are first reached.
pub open spec fn files_reached(
    entries: Map<u64, (Seq<char>, u32)>,
    vaddrs: Seq<u64>,
    n: int,
) -> Seq<Seq<char>>
    decreases n,
{
    if n <= 0 {
        seq![]
    } else {
        let before = files_reached(entries, vaddrs, n - 1);
        let pc = vaddrs[n - 1];
        if entries.contains_key(pc) && !before.contains(entries[pc].0) {
            before.push(entries[pc].0)
        } else {
            before
        }
    }
}

/// Tests whether `file` is one of the names.
fn has_name(files: &Vec<String>, file: &str) -> (b: bool)
    ensures
        b == views(files@).contains(file@),
{
    for i in 0..files.len()
        invariant
            forall|j: int| 0 <= j < i ==> #[trigger] views(files@)[j] != file@,
    {
        assert(views(files@)[i as int] == files@[i as int]@);
        if str_same(files[i].as_str(), file) {
            return true;
        }
    }
    false
}

/// Lists the source files that a trace reaches.
pub fn source_files(vaddr_entry_map: &VaddrEntryMap<'_>, vaddrs: &Vec<u64>) -> (files: Vec<String>)
    ensures
        views(files@) == files_reached(
            entry_views(vaddr_entry_map@),
            vaddrs@,
            vaddrs@.len() as int,
        ),
{
    let mut files: Vec<String> = Vec::new();
    let ghost entries = entry_views(vaddr_entry_map@);
    assert(views(files@) =~= seq![]);
    for i in 0..vaddrs.len()
        invariant
            entries == entry_views(vaddr_entry_map@),
            views(files@) == files_reached(entries, vaddrs@, i as int),
    {
        let pc: u64 = vaddrs[i];
        if let Some(entry) = vaddr_entry_map.get(&pc) {
            assert(entries[pc] == entry@);
            if !has_name(&files, entry.file) {
                let ghost before = files@;
                files.push(entry.file.to_owned());
                assert(views(files@) =~= views(before).push(entry.file@));
            }
        }
    }
    files
}

/// All source files that are printed are reached, each is listed once, and no other is listed.
pub proof fn law_files_reached(entries: Map<u64, (Seq<char>, u32)>, vaddrs: Seq<u64>, n: int)
    requires
        0 <= n <= vaddrs.len(),
    ensures
        files_reached(entries, vaddrs, n).no_duplicates(),
        forall|file: Seq<char>| #[trigger]
            files_reached(entries, vaddrs, n).contains(file) <==> exists|i: int|
                0 <= i < n && entries.contains_key(#[trigger] vaddrs[i]) && entries[vaddrs[i]].0
                    == file,
    decreases n,
{
    if n > 0 {
        law_files_reached(entries, vaddrs, n - 1);
        let before = files_reached(entries, vaddrs, n - 1);
        let after = files_reached(entries, vaddrs, n);
        assert forall|file: Seq<char>| #[trigger] after.contains(file) <==> exists|i: int|
            0 <= i < n && entries.contains_key(#[trigger] vaddrs[i]) && entries[vaddrs[i]].0
                == file by {
            if after.contains(file) && !before.contains(file) {
                assert(after.last() == file);
                assert(entries.contains_key(vaddrs[n - 1]) && entries[vaddrs[n - 1]].0 == file);
            }
            if before.contains(file) {
                let k = choose|k: int| 0 <= k < before.len() && before[k] == file;
                assert(after[k] == file);
            }
            if entries.contains_key(vaddrs[n - 1]) && entries[vaddrs[n - 1]].0 == file {
                if !before.contains(file) {
                    assert(after.last() == file);
                }
            }
        }
    }
}

} // verus!
