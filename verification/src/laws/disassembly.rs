//! Laws of the annotated disassembly.

use crate::dwarf::{entry_views, Dwarf, Entry};
use crate::laws::coverage::law_entries;
use crate::laws::dwarf::{holds_path, law_file_mentions_paths};
use crate::text::{decimal, hexadecimal, line_at, lines, string_view, trim, views};
use crate::trace_disassemble::{
    code_of, file_color, files_reached, instruction_number, law_files_reached, location_text,
    resolved_source, source_from, source_views, step_text, Source, SourceModel,
};
use vstd::prelude::*;

verus! {

/// The number of an instruction counts whole instructions of eight bytes from the begin of the code.
pub proof fn law_instruction_number(pc: u64, text_section_offset: u64)
    requires
        pc >= text_section_offset,
    ensures
        8 * instruction_number(pc, text_section_offset) <= pc - text_section_offset < 8
            * instruction_number(pc, text_section_offset) + 8,
{
}

/// A line of a list is the line of that number, and empty behind the end.
pub proof fn law_line_at(lines: Seq<String>, n: int)
    requires
        0 <= n,
    ensures
        n < lines.len() ==> line_at(views(lines), n) == lines[n]@,
        n >= lines.len() ==> line_at(views(lines), n).len() == 0,
{
}

/// A source file that can be read has the lines of its contents; one that cannot has those of the file
/// at the mapped path, if that is another path and can be read, and otherwise none.
pub proof fn law_resolved_source(
    file: Seq<char>,
    content: Option<String>,
    mapped_path: Seq<char>,
    mapped_content: Option<String>,
    source: Source,
)
    requires
        source@ == resolved_source(
            file,
            string_view(content),
            mapped_path,
            string_view(mapped_content),
        ),
    ensures
        source.file@ == file,
        content is Some ==> views(source.lines@) == lines(content->0@) && source.mapped_path@.len()
            == 0,
        content is None && mapped_content is Some && mapped_path != file ==> views(source.lines@)
            == lines(mapped_content->0@) && source.mapped_path@ == mapped_path,
        content is None && (mapped_content is None || mapped_path == file) ==> source.lines@.len()
            == 0 && source.mapped_path@.len() == 0,
{
    assert(views(source.lines@).len() == source.lines@.len());
}

proof fn lemma_source_from(sources: Seq<SourceModel>, file: Seq<char>, k: int, i: int)
    requires
        0 <= k <= i <= sources.len(),
        forall|j: int| 0 <= j < i ==> (#[trigger] sources[j]).file != file,
        i < sources.len() ==> sources[i].file == file,
    ensures
        i < sources.len() ==> source_from(sources, file, k) == sources[i],
        i == sources.len() ==> source_from(sources, file, k) == (SourceModel {
            file,
            lines: seq![],
            mapped_path: seq![],
        }),
    decreases i - k,
{
    if k < i {
        lemma_source_from(sources, file, k + 1, i);
    }
}

/// The source file of a name is the first of that name, whichever number it has.
pub proof fn law_source_of_name(sources: Seq<Source>, file: Seq<char>, i: int)
    requires
        0 <= i < sources.len(),
        sources[i].file@ == file,
        forall|j: int| 0 <= j < i ==> (#[trigger] sources[j]).file@ != file,
    ensures
        source_from(source_views(sources), file, 0) == (SourceModel {
            file,
            lines: views(sources[i].lines@),
            mapped_path: sources[i].mapped_path@,
        }),
{
    let models = source_views(sources);
    assert forall|j: int| 0 <= j < i implies (#[trigger] models[j]).file != file by {
        assert(models[j].file == sources[j].file@);
    }
    assert(models[i] == sources[i]@);
    lemma_source_from(models, file, 0, i);
}

/// Nothing is known of a source file of which none has the name.
pub proof fn law_unknown_source(sources: Seq<Source>, file: Seq<char>)
    requires
        forall|j: int| 0 <= j < sources.len() ==> (#[trigger] sources[j]).file@ != file,
    ensures
        source_from(source_views(sources), file, 0) == (SourceModel {
            file,
            lines: seq![],
            mapped_path: seq![],
        }),
{
    let models = source_views(sources);
    assert forall|j: int| 0 <= j < models.len() implies (#[trigger] models[j]).file != file by {
        assert(models[j].file == sources[j].file@);
    }
    lemma_source_from(models, file, 0, models.len() as int);
}

/// The source code of a line is that line, counted from 1, without white space at its ends. Line 0 stands
/// for the first line, and a line behind the end is empty.
pub proof fn law_code(source: SourceModel, line: u32)
    ensures
        line > source.lines.len() ==> code_of(source, line).len() == 0,
        0 < line <= source.lines.len() ==> code_of(source, line) == trim(source.lines[line - 1]),
        line == 0 && source.lines.len() > 0 ==> code_of(source, line) == trim(source.lines[0]),
        line == 0 && source.lines.len() == 0 ==> code_of(source, line).len() == 0,
{
    assert(trim(Seq::<char>::empty()).len() == 0);
}

/// A source line is named by its file and its number, and by the path at which it was found if that is
/// another.
pub proof fn law_location(source: SourceModel, line: u32)
    ensures
        source.mapped_path.len() == 0 ==> location_text(source, line) == source.file + ":"@ + decimal(
            line as nat,
        ),
        source.mapped_path.len() > 0 ==> location_text(source, line) == source.file + ":"@ + decimal(
            line as nat,
        ) + " -> "@ + (source.mapped_path + ":"@ + decimal(line as nat)),
{
}

/// The colour of a file depends on whether any of the source paths is a stretch of its name.
pub proof fn law_file_color(file: Seq<char>, src_paths: Seq<String>)
    ensures
        file_color(file, views(src_paths)) == if holds_path(file, src_paths) {
            "\x1b[35m"@
        } else {
            "\x1b[34m"@
        },
{
    law_file_mentions_paths(file, src_paths);
}

/// What is printed for a step whose source line is not known.
pub proof fn law_step_without_source(
    src_paths: Seq<String>,
    disassembly: Seq<char>,
    vaddrs: Seq<u64>,
    dwarf: Dwarf<'_>,
    sources: Seq<Source>,
    colorize: bool,
    i: int,
)
    requires
        0 <= i < vaddrs.len(),
        !dwarf.vaddr_entry_map@.contains_key(vaddrs[i]),
    ensures
        step_text(
            views(src_paths),
            lines(disassembly),
            vaddrs,
            dwarf,
            source_views(sources),
            colorize,
            i,
        ) == "["@ + decimal(instruction_number(vaddrs[i], dwarf.text_section_offset)) + "] (0x"@
            + hexadecimal(vaddrs[i] as nat) + ") "@ + line_at(lines(disassembly), i),
{
    law_entries(dwarf.vaddr_entry_map@);
    assert(!entry_views(dwarf.vaddr_entry_map@).dom().contains(vaddrs[i]));
}

/// What is printed for a step whose source line is known, without colours and with them.
pub proof fn law_step_with_source(
    src_paths: Seq<String>,
    disassembly: Seq<char>,
    vaddrs: Seq<u64>,
    dwarf: Dwarf<'_>,
    sources: Seq<Source>,
    i: int,
)
    requires
        0 <= i < vaddrs.len(),
        dwarf.vaddr_entry_map@.contains_key(vaddrs[i]),
    ensures
        ({
            let pc = vaddrs[i];
            let entry = dwarf.vaddr_entry_map@[pc];
            let source = source_from(source_views(sources), entry.file@, 0);
            let step = |colorize: bool|
                step_text(
                    views(src_paths),
                    lines(disassembly),
                    vaddrs,
                    dwarf,
                    source_views(sources),
                    colorize,
                    i,
                );
            let head = "["@ + decimal(instruction_number(pc, dwarf.text_section_offset)) + "] (0x"@
                + hexadecimal(pc as nat) + ") "@ + line_at(lines(disassembly), i);
            let color = if holds_path(source.file, src_paths) {
                "\x1b[35m"@
            } else {
                "\x1b[34m"@
            };
            &&& step(false) == head + ("\n  src: "@ + location_text(source, entry.line)
                + "\n  code: "@ + code_of(source, entry.line))
            &&& step(true) == head + ("\n  \x1b[33msrc:\x1b[0m "@ + color + location_text(
                source,
                entry.line,
            ) + "\x1b[0m\n  \x1b[36mcode:\x1b[0m \x1b[32m"@ + code_of(source, entry.line)
                + "\x1b[0m"@)
        }),
{
    let pc = vaddrs[i];
    law_entries(dwarf.vaddr_entry_map@);
    assert(entry_views(dwarf.vaddr_entry_map@).dom().contains(pc));
    let source = source_from(source_views(sources), dwarf.vaddr_entry_map@[pc].file@, 0);
    law_file_color(source.file, src_paths);
}

/// Whether step `i` of a trace is in the file.
pub open spec fn is_in(
    entries: Map<u64, Entry<'_>>,
    vaddrs: Seq<u64>,
    i: int,
    file: Seq<char>,
) -> bool {
    entries.contains_key(vaddrs[i]) && entries[vaddrs[i]].file@ == file
}

/// Whether one of the first `n` steps of a trace is in the file.
pub open spec fn is_reached(
    entries: Map<u64, Entry<'_>>,
    vaddrs: Seq<u64>,
    n: int,
    file: Seq<char>,
) -> bool {
    exists|i: int| 0 <= i < n && #[trigger] is_in(entries, vaddrs, i, file)
}

proof fn lemma_reached(
    entries: Map<u64, Entry<'_>>,
    vaddrs: Seq<u64>,
    n: int,
    file: Seq<char>,
)
    requires
        0 <= n <= vaddrs.len(),
    ensures
        files_reached(entry_views(entries), vaddrs, n).contains(file) <==> is_reached(
            entries,
            vaddrs,
            n,
            file,
        ),
{
    let model = entry_views(entries);
    law_entries(entries);
    law_files_reached(model, vaddrs, n);
    if files_reached(model, vaddrs, n).contains(file) {
        let i = choose|i: int|
            0 <= i < n && model.contains_key(#[trigger] vaddrs[i]) && model[vaddrs[i]].0 == file;
        assert(entries.dom().contains(vaddrs[i]));
        assert(entries.contains_key(vaddrs[i]));
        assert(is_in(entries, vaddrs, i, file));
    }
    if is_reached(entries, vaddrs, n, file) {
        let i = choose|i: int| 0 <= i < n && #[trigger] is_in(entries, vaddrs, i, file);
        assert(model.dom().contains(vaddrs[i]));
        assert(model.contains_key(vaddrs[i]) && model[vaddrs[i]].0 == file);
    }
}

/// Whether each of the files is reached before every step in a file behind it.
pub open spec fn in_order_of_reach(
    entries: Map<u64, Entry<'_>>,
    vaddrs: Seq<u64>,
    n: int,
    files: Seq<Seq<char>>,
) -> bool {
    forall|a: int, b: int, j: int|
        0 <= a < b < files.len() && 0 <= j < n && #[trigger] is_in(entries, vaddrs, j, files[b])
            ==> is_reached(entries, vaddrs, j, #[trigger] files[a])
}

proof fn lemma_order_of_reach(entries: Map<u64, Entry<'_>>, vaddrs: Seq<u64>, n: int)
    requires
        0 <= n <= vaddrs.len(),
    ensures
        in_order_of_reach(
            entries,
            vaddrs,
            n,
            files_reached(entry_views(entries), vaddrs, n),
        ),
    decreases n,
{
    if n > 0 {
        let m = n - 1;
        let model = entry_views(entries);
        let before = files_reached(model, vaddrs, m);
        let files = files_reached(model, vaddrs, n);
        lemma_order_of_reach(entries, vaddrs, m);
        assert forall|a: int, b: int, j: int|
            0 <= a < b < files.len() && 0 <= j < n && #[trigger] is_in(
                entries,
                vaddrs,
                j,
                files[b],
            ) implies is_reached(entries, vaddrs, j, #[trigger] files[a]) by {
            assert(files[a] == before[a]);
            if j < m {
                lemma_reached(entries, vaddrs, m, files[b]);
                assert(is_reached(entries, vaddrs, m, files[b]));
                if b == before.len() {
                    assert(before.contains(files[b]));
                    assert(false);
                }
                assert(files[b] == before[b]);
                assert(is_in(entries, vaddrs, j, before[b]));
                assert(is_reached(entries, vaddrs, j, before[a]));
            } else {
                lemma_reached(entries, vaddrs, m, files[a]);
                assert(before.contains(before[a]));
            }
        }
    }
}

/// The source files of a trace are those that its steps are in, each once, in the order in which they
/// are reached first.
pub proof fn law_source_files(
    entries: Map<u64, Entry<'_>>,
    vaddrs: Seq<u64>,
    files: Seq<String>,
)
    requires
        views(files) == files_reached(entry_views(entries), vaddrs, vaddrs.len() as int),
    ensures
        forall|file: Seq<char>| #[trigger]
            views(files).contains(file) <==> is_reached(
                entries,
                vaddrs,
                vaddrs.len() as int,
                file,
            ),
        views(files).no_duplicates(),
        in_order_of_reach(entries, vaddrs, vaddrs.len() as int, views(files)),
{
    let n = vaddrs.len() as int;
    law_files_reached(entry_views(entries), vaddrs, n);
    lemma_order_of_reach(entries, vaddrs, n);
    assert forall|file: Seq<char>| #[trigger]
        views(files).contains(file) <==> is_reached(entries, vaddrs, n, file) by {
        lemma_reached(entries, vaddrs, n, file);
    }
}

} // verus!
