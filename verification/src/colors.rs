//! What colour codes do to a text: nothing, once they are taken out.

use crate::dwarf::{entry_views, line_text, Dwarf};
use crate::text::{decimal, hexadecimal, line_at};
use crate::trace_disassemble::{
    code_of, file_color, instruction_number, instruction_text, location_text, source_from,
    source_text, step_text, SourceModel,
};
use vstd::prelude::*;

verus! {

/// The character that colour codes begin with.
pub open spec fn escape() -> char {
    '\x1b'
}

/// Whether the text has no escape characters.
pub open spec fn is_plain(s: Seq<char>) -> bool {
    forall|i: int| 0 <= i < s.len() ==> #[trigger] s[i] != escape()
}

/// The position behind the first `m` from position `i` on, 0 where there is none.
pub open spec fn code_end(s: Seq<char>, i: int) -> int
    decreases s.len() - i,
{
    if i >= s.len() {
        0
    } else if s[i] == 'm' {
        i + 1
    } else {
        code_end(s, i + 1)
    }
}

/// The length of the colour code that a text begins with, 0 where it begins with none. A colour code
/// is an escape character, an opening bracket and what follows up to the first `m`.
pub open spec fn code_len(s: Seq<char>) -> int {
    if s.len() >= 2 && s[0] == escape() && s[1] == '[' {
        code_end(s, 2)
    } else {
        0
    }
}

/// A colour code is no longer than the text it begins.
pub proof fn lemma_code_end(s: Seq<char>, i: int)
    ensures
        code_end(s, i) <= s.len(),
    decreases s.len() - i,
{
    if i < s.len() && s[i] != 'm' {
        lemma_code_end(s, i + 1);
    }
}

/// The text without its colour codes.
pub open spec fn without_colors(s: Seq<char>) -> Seq<char>
    decreases s.len(),
{
    proof {
        lemma_code_end(s, 2);
    }
    if s.len() == 0 {
        seq![]
    } else if code_len(s) > 0 {
        without_colors(s.skip(code_len(s)))
    } else {
        seq![s[0]] + without_colors(s.drop_first())
    }
}

/// A text without escape characters stays.
proof fn lemma_plain(p: Seq<char>, t: Seq<char>)
    requires
        is_plain(p),
    ensures
        without_colors(p + t) == p + without_colors(t),
    decreases p.len(),
{
    if p.len() == 0 {
        assert(p + t =~= t);
        assert(p + without_colors(t) =~= without_colors(t));
    } else {
        assert((p + t)[0] == p[0]);
        assert(p[0] != escape());
        assert((p + t).drop_first() =~= p.drop_first() + t);
        assert forall|i: int| 0 <= i < p.drop_first().len() implies #[trigger] p.drop_first()[i]
            != escape() by {
            assert(p[i + 1] != escape());
        }
        lemma_plain(p.drop_first(), t);
        assert(p =~= seq![p[0]] + p.drop_first());
        assert(p + without_colors(t) =~= seq![p[0]] + (p.drop_first() + without_colors(t)));
    }
}

/// Whether the text is one colour code.
pub open spec fn is_code(c: Seq<char>) -> bool {
    &&& c.len() >= 3
    &&& c[0] == escape()
    &&& c[1] == '['
    &&& c.last() == 'm'
    &&& forall|i: int| 2 <= i < c.len() - 1 ==> #[trigger] c[i] != 'm'
}

proof fn lemma_end_of_code(s: Seq<char>, i: int, end: int)
    requires
        2 <= i < end <= s.len(),
        s[end - 1] == 'm',
        forall|j: int| i <= j < end - 1 ==> #[trigger] s[j] != 'm',
    ensures
        code_end(s, i) == end,
    decreases end - i,
{
    if i < end - 1 {
        lemma_end_of_code(s, i + 1, end);
    }
}

/// A colour code is taken out.
proof fn lemma_code(c: Seq<char>, t: Seq<char>)
    requires
        is_code(c),
    ensures
        without_colors(c + t) == without_colors(t),
{
    let s = c + t;
    assert forall|j: int| 2 <= j < c.len() - 1 implies #[trigger] s[j] != 'm' by {
        assert(s[j] == c[j]);
    }
    lemma_end_of_code(s, 2, c.len() as int);
    assert(s.skip(c.len() as int) =~= t);
}

proof fn lemma_decimal_is_plain(n: nat)
    ensures
        is_plain(decimal(n)),
    decreases n,
{
    if n >= 10 {
        lemma_decimal_is_plain(n / 10);
    }
}

proof fn lemma_hexadecimal_is_plain(n: nat)
    ensures
        is_plain(hexadecimal(n)),
    decreases n,
{
    if n >= 16 {
        lemma_hexadecimal_is_plain(n / 16);
    }
}

/// Whether a text does not end inside a colour code of its own: whatever follows it keeps its colour
/// codes to itself.
pub open spec fn is_closed(t: Seq<char>) -> bool {
    forall|u: Seq<char>| #[trigger]
        without_colors(t + u) == without_colors(t) + without_colors(u)
}

/// A text without escape characters has no colour codes and does not end inside one.
pub proof fn law_plain_texts_stay(t: Seq<char>)
    requires
        is_plain(t),
    ensures
        without_colors(t) == t,
        is_closed(t),
{
    let none = Seq::<char>::empty();
    lemma_plain(t, none);
    assert(t + none =~= t);
    assert(without_colors(none) =~= none);
    assert(t + without_colors(none) =~= t);
    assert forall|u: Seq<char>| #[trigger] without_colors(t + u) == without_colors(t)
        + without_colors(u) by {
        lemma_plain(t, u);
    }
}

/// A whole colour code is taken out, and a text does not end inside it.
pub proof fn law_whole_codes_are_closed(c: Seq<char>)
    requires
        is_code(c),
    ensures
        without_colors(c) == Seq::<char>::empty(),
        is_closed(c),
{
    let none = Seq::<char>::empty();
    lemma_code(c, none);
    assert(c + none =~= c);
    assert(without_colors(none) =~= none);
    assert forall|u: Seq<char>| #[trigger] without_colors(c + u) == without_colors(c)
        + without_colors(u) by {
        lemma_code(c, u);
        assert(none + without_colors(u) =~= without_colors(u));
    }
}

/// A text that is made of two texts neither of which ends inside a colour code does not either.
pub proof fn law_closed_texts_join(a: Seq<char>, b: Seq<char>)
    requires
        is_closed(a),
        is_closed(b),
    ensures
        is_closed(a + b),
        without_colors(a + b) == without_colors(a) + without_colors(b),
{
    assert forall|u: Seq<char>| #[trigger] without_colors((a + b) + u) == without_colors(a + b)
        + without_colors(u) by {
        assert((a + b) + u =~= a + (b + u));
        assert(without_colors(a + (b + u)) == without_colors(a) + without_colors(b + u));
        assert(without_colors(a) + (without_colors(b) + without_colors(u)) =~= (without_colors(a)
            + without_colors(b)) + without_colors(u));
    }
}

proof fn lemma_line_text_is_closed(file: Seq<char>, line: u32)
    requires
        is_closed(file),
    ensures
        is_closed(line_text((file, line))),
{
    lemma_decimal_is_plain(line as nat);
    reveal_strlit(":");
    law_plain_texts_stay(":"@);
    law_plain_texts_stay(decimal(line as nat));
    law_closed_texts_join(file, ":"@);
    law_closed_texts_join(file + ":"@, decimal(line as nat));
}

proof fn lemma_location_is_closed(source: SourceModel, line: u32)
    requires
        is_closed(source.file),
        is_closed(source.mapped_path),
    ensures
        is_closed(location_text(source, line)),
{
    lemma_line_text_is_closed(source.file, line);
    lemma_line_text_is_closed(source.mapped_path, line);
    reveal_strlit(" -> ");
    law_plain_texts_stay(" -> "@);
    law_closed_texts_join(line_text((source.file, line)), " -> "@);
    law_closed_texts_join(
        line_text((source.file, line)) + " -> "@,
        line_text((source.mapped_path, line)),
    );
}

proof fn lemma_instruction_is_closed(pc: u64, text_section_offset: u64, disassembly: Seq<char>)
    requires
        is_closed(disassembly),
    ensures
        is_closed(instruction_text(pc, text_section_offset, disassembly)),
{
    let number = decimal(instruction_number(pc, text_section_offset));
    let address = hexadecimal(pc as nat);
    lemma_decimal_is_plain(instruction_number(pc, text_section_offset));
    lemma_hexadecimal_is_plain(pc as nat);
    reveal_strlit("[");
    reveal_strlit("] (0x");
    reveal_strlit(") ");
    let head = "["@ + number + "] (0x"@ + address + ") "@;
    assert(is_plain(head));
    law_plain_texts_stay(head);
    law_closed_texts_join(head, disassembly);
}

/// What is left of the coloured words before a source location.
proof fn lemma_location_label(t: Seq<char>)
    ensures
        without_colors("\n  \x1b[33msrc:\x1b[0m "@ + t) == "\n  src: "@ + without_colors(t),
{
    reveal_strlit("\n  \x1b[33msrc:\x1b[0m ");
    reveal_strlit("\n  src: ");
    let a = seq!['\n', ' ', ' '];
    let c = seq!['\x1b', '[', '3', '3', 'm'];
    let b = seq!['s', 'r', 'c', ':'];
    let d = seq!['\x1b', '[', '0', 'm'];
    let e = seq![' '];
    assert("\n  \x1b[33msrc:\x1b[0m "@ + t =~= a + (c + (b + (d + (e + t)))));
    lemma_plain(a, c + (b + (d + (e + t))));
    lemma_code(c, b + (d + (e + t)));
    lemma_plain(b, d + (e + t));
    lemma_code(d, e + t);
    lemma_plain(e, t);
    assert(a + (b + (e + without_colors(t))) =~= "\n  src: "@ + without_colors(t));
}

/// What is left of the coloured words between a source location and the source code.
proof fn lemma_code_label(t: Seq<char>)
    ensures
        without_colors("\x1b[0m\n  \x1b[36mcode:\x1b[0m \x1b[32m"@ + t) == "\n  code: "@
            + without_colors(t),
{
    reveal_strlit("\x1b[0m\n  \x1b[36mcode:\x1b[0m \x1b[32m");
    reveal_strlit("\n  code: ");
    let d = seq!['\x1b', '[', '0', 'm'];
    let a = seq!['\n', ' ', ' '];
    let c = seq!['\x1b', '[', '3', '6', 'm'];
    let b = seq!['c', 'o', 'd', 'e', ':'];
    let e = seq![' '];
    let g = seq!['\x1b', '[', '3', '2', 'm'];
    assert("\x1b[0m\n  \x1b[36mcode:\x1b[0m \x1b[32m"@ + t =~= d + (a + (c + (b + (d + (e + (g
        + t)))))));
    lemma_code(d, a + (c + (b + (d + (e + (g + t))))));
    lemma_plain(a, c + (b + (d + (e + (g + t)))));
    lemma_code(c, b + (d + (e + (g + t))));
    lemma_plain(b, d + (e + (g + t)));
    lemma_code(d, e + (g + t));
    lemma_plain(e, g + t);
    lemma_code(g, t);
    assert(a + (b + (e + without_colors(t))) =~= "\n  code: "@ + without_colors(t));
}

/// What is left of the colour of a source file.
proof fn lemma_file_color(file: Seq<char>, src_paths: Seq<Seq<char>>, t: Seq<char>)
    ensures
        without_colors(file_color(file, src_paths) + t) == without_colors(t),
{
    reveal_strlit("\x1b[35m");
    reveal_strlit("\x1b[34m");
    lemma_code(file_color(file, src_paths), t);
}

/// The coloured and the plain source line behind a text, without colours.
proof fn lemma_source_without_colors(
    head: Seq<char>,
    source: SourceModel,
    line: u32,
    src_paths: Seq<Seq<char>>,
)
    requires
        is_closed(head),
        is_closed(source.file),
        is_closed(source.mapped_path),
        is_closed(code_of(source, line)),
    ensures
        without_colors(head + source_text(source, line, src_paths, true)) == without_colors(
            head + source_text(source, line, src_paths, false),
        ),
{
    let a = "\n  \x1b[33msrc:\x1b[0m "@;
    let f = file_color(source.file, src_paths);
    let l = location_text(source, line);
    let b = "\x1b[0m\n  \x1b[36mcode:\x1b[0m \x1b[32m"@;
    let c = code_of(source, line);
    let z = "\x1b[0m"@;
    let p = "\n  src: "@;
    let q = "\n  code: "@;
    let none = Seq::<char>::empty();
    assert(without_colors(none) =~= none);
    lemma_location_is_closed(source, line);
    assert(head + source_text(source, line, src_paths, true) =~= head + (a + (f + (l + (b + (c + (z
        + none)))))));
    assert(without_colors(head + (a + (f + (l + (b + (c + (z + none))))))) == without_colors(head)
        + without_colors(a + (f + (l + (b + (c + (z + none)))))));
    lemma_location_label(f + (l + (b + (c + (z + none)))));
    lemma_file_color(source.file, src_paths, l + (b + (c + (z + none))));
    assert(without_colors(l + (b + (c + (z + none)))) == without_colors(l) + without_colors(
        b + (c + (z + none)),
    ));
    lemma_code_label(c + (z + none));
    assert(without_colors(c + (z + none)) == without_colors(c) + without_colors(z + none));
    reveal_strlit("\x1b[0m");
    lemma_code(z, none);
    reveal_strlit("\n  src: ");
    reveal_strlit("\n  code: ");
    assert(head + source_text(source, line, src_paths, false) =~= head + (p + (l + (q + (c
        + none)))));
    assert(without_colors(head + (p + (l + (q + (c + none))))) == without_colors(head)
        + without_colors(p + (l + (q + (c + none)))));
    lemma_plain(p, l + (q + (c + none)));
    assert(without_colors(l + (q + (c + none))) == without_colors(l) + without_colors(
        q + (c + none),
    ));
    lemma_plain(q, c + none);
    assert(without_colors(c + none) == without_colors(c) + without_colors(none));
}

/// Whether the texts that step `i` of a trace is printed with do not end inside colour codes of their
/// own. Where the step has no source line, they may.
pub open spec fn step_is_closed(
    disassembly: Seq<Seq<char>>,
    vaddrs: Seq<u64>,
    dwarf: Dwarf<'_>,
    sources: Seq<SourceModel>,
    i: int,
) -> bool {
    let entries = entry_views(dwarf.vaddr_entry_map@);
    entries.contains_key(vaddrs[i]) ==> {
        let (file, line) = entries[vaddrs[i]];
        let source = source_from(sources, file, 0);
        &&& is_closed(line_at(disassembly, i))
        &&& is_closed(source.file)
        &&& is_closed(source.mapped_path)
        &&& is_closed(code_of(source, line))
    }
}

/// With colours and without, the same is printed for a step once all colour codes are taken out,
/// unless one of the texts ends inside a colour code of its own.
pub proof fn law_colors_change_nothing_else(
    src_paths: Seq<Seq<char>>,
    disassembly: Seq<Seq<char>>,
    vaddrs: Seq<u64>,
    dwarf: Dwarf<'_>,
    sources: Seq<SourceModel>,
    i: int,
)
    requires
        step_is_closed(disassembly, vaddrs, dwarf, sources, i),
    ensures
        without_colors(step_text(src_paths, disassembly, vaddrs, dwarf, sources, true, i))
            == without_colors(
            step_text(src_paths, disassembly, vaddrs, dwarf, sources, false, i),
        ),
{
    let entries = entry_views(dwarf.vaddr_entry_map@);
    let pc = vaddrs[i];
    if entries.contains_key(pc) {
        let (file, line) = entries[pc];
        let source = source_from(sources, file, 0);
        let head = instruction_text(pc, dwarf.text_section_offset, line_at(disassembly, i));
        lemma_instruction_is_closed(pc, dwarf.text_section_offset, line_at(disassembly, i));
        lemma_source_without_colors(head, source, line, src_paths);
    }
}

/// A source file that is looked up has the name that it is looked up by.
proof fn lemma_source_name(sources: Seq<SourceModel>, file: Seq<char>, i: int)
    ensures
        source_from(sources, file, i).file == file,
    decreases sources.len() - i,
{
    if 0 <= i < sources.len() && sources[i].file != file {
        lemma_source_name(sources, file, i + 1);
    }
}

/// Whether what is printed for step `i` with colours is `before`, the colour of its source file and
/// `behind`.
pub open spec fn surrounds_file_color(
    src_paths: Seq<Seq<char>>,
    disassembly: Seq<Seq<char>>,
    vaddrs: Seq<u64>,
    dwarf: Dwarf<'_>,
    sources: Seq<SourceModel>,
    i: int,
    before: Seq<char>,
    behind: Seq<char>,
) -> bool {
    step_text(src_paths, disassembly, vaddrs, dwarf, sources, true, i) == before + file_color(
        entry_views(dwarf.vaddr_entry_map@)[vaddrs[i]].0,
        src_paths,
    ) + behind
}

/// The source paths decide nothing but the colour of the source file of a step, and without colours
/// nothing at all.
pub proof fn law_source_paths_choose_the_color(
    a: Seq<Seq<char>>,
    b: Seq<Seq<char>>,
    disassembly: Seq<Seq<char>>,
    vaddrs: Seq<u64>,
    dwarf: Dwarf<'_>,
    sources: Seq<SourceModel>,
    i: int,
)
    ensures
        step_text(a, disassembly, vaddrs, dwarf, sources, false, i) == step_text(
            b,
            disassembly,
            vaddrs,
            dwarf,
            sources,
            false,
            i,
        ),
        if entry_views(dwarf.vaddr_entry_map@).contains_key(vaddrs[i]) {
            exists|before: Seq<char>, behind: Seq<char>| #[trigger]
                surrounds_file_color(
                    a,
                    disassembly,
                    vaddrs,
                    dwarf,
                    sources,
                    i,
                    before,
                    behind,
                ) && surrounds_file_color(
                    b,
                    disassembly,
                    vaddrs,
                    dwarf,
                    sources,
                    i,
                    before,
                    behind,
                )
        } else {
            step_text(a, disassembly, vaddrs, dwarf, sources, true, i) == step_text(
                b,
                disassembly,
                vaddrs,
                dwarf,
                sources,
                true,
                i,
            )
        },
{
    let entries = entry_views(dwarf.vaddr_entry_map@);
    let pc = vaddrs[i];
    if entries.contains_key(pc) {
        let (file, line) = entries[pc];
        let source = source_from(sources, file, 0);
        lemma_source_name(sources, file, 0);
        let before = instruction_text(pc, dwarf.text_section_offset, line_at(disassembly, i))
            + "\n  \x1b[33msrc:\x1b[0m "@;
        let behind = location_text(source, line) + "\x1b[0m\n  \x1b[36mcode:\x1b[0m \x1b[32m"@
            + code_of(source, line) + "\x1b[0m"@;
        assert(step_text(a, disassembly, vaddrs, dwarf, sources, true, i) =~= before + file_color(
            file,
            a,
        ) + behind);
        assert(step_text(b, disassembly, vaddrs, dwarf, sources, true, i) =~= before + file_color(
            file,
            b,
        ) + behind);
        assert(surrounds_file_color(a, disassembly, vaddrs, dwarf, sources, i, before, behind));
    }
}

} // verus!
