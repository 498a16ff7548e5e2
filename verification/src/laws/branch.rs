//! Laws of branch coverage.

use crate::branch::{
    always_fits, branch_views, branches_found, frame_line, frame_lines, law_branch_numbers,
    law_fit_traces, may_find_frames, model_line, model_lines, occurrences, steps_of, Branch, Branches,
    FrameDetails, Steps,
};
use crate::debug_info::{may_find_frame, section_addresses, FrameModel};
use crate::dwarf::Dwarf;
use crate::error::CoverageError;
use crate::opcode::{is_conditional, is_jump_class, jump_offset, opcode};
use crate::util::section_begin;
use vstd::prelude::*;
use vstd::utf8::encode_utf8;

verus! {

/// Whether an opcode is that of a conditional jump: its low three bits are 5 or 6, and it is none of
/// the unconditional jumps 0x05 and 0x06, the calls 0x85 and 0x8d and the exit 0x95.
pub open spec fn jumps_on_condition(op: int) -> bool {
    &&& op % 8 == 5 || op % 8 == 6
    &&& op != 0x05
    &&& op != 0x06
    &&& op != 0x85
    &&& op != 0x8d
    &&& op != 0x95
}

/// Of all opcodes these are conditional jumps: every one whose low three bits are 5 or 6, but the
/// unconditional jumps, the calls and the exit.
pub proof fn law_conditional_opcodes(op: u8)
    ensures
        is_conditional(op as int) <==> (op % 8 == 5 || op % 8 == 6) && op != 0x05 && op != 0x06 && op
            != 0x85 && op != 0x8d && op != 0x95,
        is_jump_class(op as int) <==> op % 8 == 5 || op % 8 == 6,
{
}

/// The opcode of an instruction word is its lowest byte, and its offset is the signed number in its
/// third and fourth byte.
pub proof fn law_instruction_words(op: u8, registers: u8, offset: int, immediate: u32)
    requires
        -0x8000 <= offset < 0x8000,
    ensures
        ({
            let low = if offset < 0 {
                offset + 0x1_0000
            } else {
                offset
            };
            let word = (op + 0x100 * registers + 0x1_0000 * low + 0x1_0000_0000 * immediate) as u64;
            opcode(word) == op && jump_offset(word) == offset
        }),
{
}

/// Whether step `i` is an execution of a conditional jump of which the source line and the registers
/// behind it are known.
pub open spec fn is_branch_step(
    vaddrs: Seq<u64>,
    insns: Seq<u64>,
    regs: Seq<[u64; 12]>,
    lines: Seq<Option<(Option<Seq<char>>, Option<u32>)>>,
    i: int,
) -> bool {
    &&& 0 <= i < vaddrs.len()
    &&& i + 1 < regs.len()
    &&& lines[i] is Some
    &&& jumps_on_condition(insns[i] as int % 0x100)
}

/// The signed number in the third and fourth byte of an instruction word.
pub open spec fn signed_offset(insn: u64) -> int {
    let low = insn as int / 0x1_0000 % 0x1_0000;
    if low >= 0x8000 {
        low - 0x1_0000
    } else {
        low
    }
}

/// The address of the target of the jump at address `v`: so many instructions of eight bytes behind the
/// next instruction as its offset says.
pub open spec fn target_of(v: u64, insn: u64) -> int {
    (v + (signed_offset(insn) + 1) * 8) % 0x1_0000_0000_0000_0000
}

/// Whether step `i` goes on at the target of its jump: the program counter behind it, which counts
/// instructions of eight bytes from the begin of the code, is the target's.
pub open spec fn goes_to_target(
    vaddrs: Seq<u64>,
    insns: Seq<u64>,
    regs: Seq<[u64; 12]>,
    text_offset: u64,
    i: int,
) -> bool {
    regs[i + 1]@[11] * 8 % 0x1_0000_0000_0000_0000 + text_offset == target_of(vaddrs[i], insns[i])
}

/// How many of the first `n` numbers have a property.
pub open spec fn how_many(n: int, p: spec_fn(int) -> bool) -> nat {
    Seq::new(n as nat, |i: int| i).filter(p).len()
}

/// Whether a branch has that file and that line, as far as they are known.
pub open spec fn has_line(branch: Branch, line: (Option<Seq<char>>, Option<u32>)) -> bool {
    &&& match branch.file {
        Some(file) => line.0 == Some(file@),
        None => line.0 is None,
    }
    &&& branch.line == line.1
}

/// Whether `branches` are the branches of a trace. There is one at every address at which a
/// conditional jump was executed. It was taken as often as such a step went on at the target, and it
/// fell through as often as one did not or the target is the next instruction. It has the source line
/// of its first step, and branches are numbered from 1 in the order of their first steps.
pub open spec fn are_branches_of(
    vaddrs: Seq<u64>,
    insns: Seq<u64>,
    regs: Seq<[u64; 12]>,
    text_offset: u64,
    lines: Seq<Option<(Option<Seq<char>>, Option<u32>)>>,
    branches: Map<u64, Branch>,
) -> bool {
    let is_step = |i: int| is_branch_step(vaddrs, insns, regs, lines, i);
    let to_target = |i: int| goes_to_target(vaddrs, insns, regs, text_offset, i);
    &&& forall|i: int| #[trigger]
        is_branch_step(vaddrs, insns, regs, lines, i) ==> branches.contains_key(vaddrs[i])
    &&& forall|v: u64| #[trigger]
        branches.contains_key(v) ==> {
            let branch = branches[v];
            &&& branch.goto_taken == how_many(
                vaddrs.len() as int,
                |i: int| is_step(i) && vaddrs[i] == v && to_target(i),
            )
            &&& branch.next_taken == how_many(
                vaddrs.len() as int,
                |i: int|
                    is_step(i) && vaddrs[i] == v && (!to_target(i) || target_of(
                        vaddrs[i],
                        insns[i],
                    ) == vaddrs[i] + 8),
            )
            &&& exists|i: int|
                {
                    &&& #[trigger] is_branch_step(vaddrs, insns, regs, lines, i)
                    &&& vaddrs[i] == v
                    &&& forall|j: int| 0 <= j < i && #[trigger] is_step(j) ==> vaddrs[j] != v
                    &&& has_line(branch, lines[i]->0)
                }
            &&& 1 <= branch.branch_id <= branches.dom().len()
        }
    &&& forall|i: int, v: u64|
        #![trigger is_branch_step(vaddrs, insns, regs, lines, i), branches.contains_key(v)]
        is_branch_step(vaddrs, insns, regs, lines, i) && branches.contains_key(v) && (forall|j: int|
            0 <= j <= i && #[trigger] is_step(j) ==> vaddrs[j] != v) ==> branches[vaddrs[i]].branch_id
            < branches[v].branch_id
}

/// The first of the first `n` recorded steps at an address.
proof fn lemma_least(s: Steps, v: u64, n: int)
    ensures
        match s.first(v, n) {
            Some(i) => {
                &&& 0 <= i < n
                &&& s.recorded(i)
                &&& s.vaddrs[i] == v
                &&& forall|j: int| 0 <= j < i && #[trigger] s.recorded(j) ==> s.vaddrs[j] != v
            },
            None => forall|j: int| 0 <= j < n && #[trigger] s.recorded(j) ==> s.vaddrs[j] != v,
        },
    decreases n,
{
    if n > 0 {
        lemma_least(s, v, n - 1);
    }
}

/// Counting one number more.
proof fn lemma_how_many(n: int, p: spec_fn(int) -> bool)
    requires
        n > 0,
    ensures
        how_many(n, p) == how_many(n - 1, p) + if p(n - 1) {
            1int
        } else {
            0int
        },
{
    reveal(Seq::filter);
    let all = Seq::new(n as nat, |i: int| i);
    assert(all.drop_last() =~= Seq::new((n - 1) as nat, |i: int| i));
}

proof fn lemma_goto_count(s: Steps, v: u64, n: int, p: spec_fn(int) -> bool)
    requires
        0 <= n,
        forall|i: int|
            0 <= i < n ==> (#[trigger] p(i) <==> s.recorded(i) && s.vaddrs[i] == v && s.goto_hit(i)),
    ensures
        s.goto_count(v, n) == how_many(n, p),
    decreases n,
{
    if n > 0 {
        lemma_goto_count(s, v, n - 1, p);
        lemma_how_many(n, p);
        assert(p(n - 1) <==> s.recorded(n - 1) && s.vaddrs[n - 1] == v && s.goto_hit(n - 1));
    } else {
        reveal(Seq::filter);
        assert(Seq::new(0, |i: int| i).filter(p).len() == 0);
    }
}

proof fn lemma_next_count(s: Steps, v: u64, n: int, p: spec_fn(int) -> bool)
    requires
        0 <= n,
        forall|i: int|
            0 <= i < n ==> (#[trigger] p(i) <==> s.recorded(i) && s.vaddrs[i] == v && s.next_hit(i)),
    ensures
        s.next_count(v, n) == how_many(n, p),
    decreases n,
{
    if n > 0 {
        lemma_next_count(s, v, n - 1, p);
        lemma_how_many(n, p);
        assert(p(n - 1) <==> s.recorded(n - 1) && s.vaddrs[n - 1] == v && s.next_hit(n - 1));
    } else {
        reveal(Seq::filter);
        assert(Seq::new(0, |i: int| i).filter(p).len() == 0);
    }
}

/// The branches that the step model gives are the branches of the trace.
proof fn lemma_branches(s: Steps, branches: Map<u64, Branch>)
    requires
        s.frames.len() == s.vaddrs.len(),
        branch_views(branches) == s.branches(s.vaddrs.len() as int),
    ensures
        are_branches_of(s.vaddrs, s.insns, s.regs, s.text_offset, s.frames, branches),
{
    let n = s.vaddrs.len() as int;
    let (vaddrs, insns, regs, lines) = (s.vaddrs, s.insns, s.regs, s.frames);
    let views = branch_views(branches);
    let is_step = |i: int| is_branch_step(vaddrs, insns, regs, lines, i);
    let to_target = |i: int| goes_to_target(vaddrs, insns, regs, s.text_offset, i);
    law_branch_numbers(s, n);
    assert(views.dom() =~= branches.dom());
    assert forall|i: int| #[trigger] is_branch_step(vaddrs, insns, regs, lines, i) <==> s.recorded(
        i,
    ) by {}
    assert forall|i: int| s.recorded(i) implies goes_to_target(
        vaddrs,
        insns,
        regs,
        s.text_offset,
        i,
    ) == #[trigger] s.goto_hit(i) && s.next_hit(i) == (!s.goto_hit(i) || target_of(
        vaddrs[i],
        insns[i],
    ) == vaddrs[i] + 8) by {
        assert((signed_offset(insns[i]) + 1) * 8 == 8 * jump_offset(insns[i]) + 8);
    }
    assert forall|i: int| #[trigger]
        is_branch_step(vaddrs, insns, regs, lines, i) implies branches.contains_key(vaddrs[i]) by {
        lemma_least(s, vaddrs[i], n);
        assert(s.recorded(i));
        assert(views.contains_key(vaddrs[i]));
    }
    assert forall|v: u64| #[trigger] branches.contains_key(v) implies {
        let branch = branches[v];
        &&& branch.goto_taken == how_many(
            n,
            |i: int| is_step(i) && vaddrs[i] == v && to_target(i),
        )
        &&& branch.next_taken == how_many(
            n,
            |i: int|
                is_step(i) && vaddrs[i] == v && (!to_target(i) || target_of(vaddrs[i], insns[i]) == vaddrs[i] + 8),
        )
        &&& exists|i: int|
            {
                &&& #[trigger] is_branch_step(vaddrs, insns, regs, lines, i)
                &&& vaddrs[i] == v
                &&& forall|j: int| 0 <= j < i && #[trigger] is_step(j) ==> vaddrs[j] != v
                &&& has_line(branch, lines[i]->0)
            }
        &&& 1 <= branch.branch_id <= branches.dom().len()
    } by {
        let branch = branches[v];
        assert(views.contains_key(v) && views[v] == branch@);
        assert(branch@ == s.branch(v, n));
        lemma_goto_count(s, v, n, |i: int| is_step(i) && vaddrs[i] == v && to_target(i));
        lemma_next_count(
            s,
            v,
            n,
            |i: int|
                is_step(i) && vaddrs[i] == v && (!to_target(i) || target_of(vaddrs[i], insns[i]) == vaddrs[i] + 8),
        );
        lemma_least(s, v, n);
        let i = s.first(v, n)->0;
        assert(is_branch_step(vaddrs, insns, regs, lines, i));
        assert forall|j: int| 0 <= j < i && #[trigger] is_step(j) implies vaddrs[j] != v by {
            assert(s.recorded(j));
        }
    }
    assert forall|i: int, v: u64|
        #![trigger is_branch_step(vaddrs, insns, regs, lines, i), branches.contains_key(v)]
        is_branch_step(vaddrs, insns, regs, lines, i) && branches.contains_key(v) && (forall|j: int|
            0 <= j <= i && #[trigger] is_step(j) ==> vaddrs[j] != v) implies branches[vaddrs[i]].branch_id
        < branches[v].branch_id by {
        let w = vaddrs[i];
        assert(views.contains_key(v) && views.contains_key(w));
        assert(s.branches(n).contains_key(v) && s.branches(n).contains_key(w));
        lemma_least(s, v, n);
        lemma_least(s, w, n);
        let a = s.first(w, n)->0;
        let b = s.first(v, n)->0;
        assert(s.recorded(i));
        assert(a <= i);
        assert(is_step(b));
        assert(b > i);
        assert(views[v] == branches[v]@ && views[w] == branches[w]@);
    }
}

/// The branches that are computed from given frames are the branches of the trace.
pub proof fn law_branches_from_frames(
    vaddrs: Seq<u64>,
    insns: Seq<u64>,
    regs: Seq<[u64; 12]>,
    text_offset: u64,
    frames: Seq<Option<FrameDetails<'_>>>,
    lines: Seq<Option<(Option<Seq<char>>, Option<u32>)>>,
    branches: Map<u64, Branch>,
)
    requires
        frames.len() == vaddrs.len(),
        lines.len() == vaddrs.len(),
        forall|i: int|
            0 <= i < lines.len() ==> #[trigger] lines[i] == match frames[i] {
                Some(details) => Some(
                    (
                        match details.file_name {
                            Some(name) => Some(name@),
                            None => None,
                        },
                        details.line_num,
                    ),
                ),
                None => None,
            },
        ({
            let s = steps_of(vaddrs, insns, regs, text_offset, frame_lines(frames));
            branch_views(branches) == s.branches(vaddrs.len() as int)
        }),
    ensures
        are_branches_of(vaddrs, insns, regs, text_offset, lines, branches),
{
    let s = steps_of(vaddrs, insns, regs, text_offset, frame_lines(frames));
    assert forall|i: int| 0 <= i < lines.len() implies lines[i] == #[trigger] s.frames[i] by {
        assert(s.frames[i] == frame_line(frames[i]));
    }
    assert(s.frames =~= lines);
    lemma_branches(s, branches);
}

/// Whether `line` may be the source line of the innermost frame that the debug information gives for
/// an address, `None` where there is no frame.
pub open spec fn may_be_line(
    loader: addr2line::Loader,
    vaddr: u64,
    line: Option<(Option<Seq<char>>, Option<u32>)>,
) -> bool {
    exists|frame: Option<FrameModel>| #[trigger]
        may_find_frame(loader, vaddr, frame) && line == match frame {
            Some(frame) => match frame.location {
                Some(location) => Some((location.file, location.line)),
                None => Some((None, None)),
            },
            None => None,
        }
}

/// Whether `lines` may be the source lines of the innermost frames that the debug information gives
/// for the addresses.
pub open spec fn may_be_lines(
    loader: addr2line::Loader,
    vaddrs: Seq<u64>,
    lines: Seq<Option<(Option<Seq<char>>, Option<u32>)>>,
) -> bool {
    &&& lines.len() == vaddrs.len()
    &&& forall|i: int|
        0 <= i < vaddrs.len() ==> may_be_line(loader, vaddrs[i], #[trigger] lines[i])
}

/// The branches that are found with the frames of the debug information are the branches of the
/// trace, with the source lines that the debug information gives.
pub proof fn law_branches_found(
    vaddrs: Seq<u64>,
    insns: Seq<u64>,
    regs: Seq<[u64; 12]>,
    dwarf: Dwarf<'_>,
    branches: Branches,
)
    requires
        branches_found(vaddrs, insns, regs, dwarf, Ok(branches)),
    ensures
        exists|lines: Seq<Option<(Option<Seq<char>>, Option<u32>)>>| #[trigger]
            may_be_lines(*dwarf.loader, vaddrs, lines) && are_branches_of(
                vaddrs,
                insns,
                regs,
                section_addresses(dwarf.data@)->0[encode_utf8(".text"@)],
                lines,
                branches@,
            ),
{
    let text_offset = section_begin(dwarf.data@, ".text"@);
    let frames = choose|frames: Seq<Option<FrameModel>>|
        {
            &&& #[trigger] may_find_frames(*dwarf.loader, vaddrs, frames)
            &&& branch_views(branches@) == steps_of(
                vaddrs,
                insns,
                regs,
                text_offset,
                model_lines(frames),
            ).branches(vaddrs.len() as int)
        };
    let s = steps_of(vaddrs, insns, regs, text_offset, model_lines(frames));
    let lines = s.frames;
    assert forall|i: int| 0 <= i < vaddrs.len() implies may_be_line(
        *dwarf.loader,
        vaddrs[i],
        #[trigger] lines[i],
    ) by {
        assert(may_find_frame(*dwarf.loader, vaddrs[i], frames[i]));
        assert(lines[i] == model_line(frames[i]));
    }
    assert(may_be_lines(*dwarf.loader, vaddrs, lines));
    lemma_branches(s, branches@);
}

/// Branches are found exactly where the object file has a code section; the error names the section
/// that is missing.
pub proof fn law_branches_need_code(
    vaddrs: Seq<u64>,
    insns: Seq<u64>,
    regs: Seq<[u64; 12]>,
    dwarf: Dwarf<'_>,
    branches: Result<Branches, CoverageError>,
)
    requires
        branches_found(vaddrs, insns, regs, dwarf, branches),
    ensures
        match section_addresses(dwarf.data@) {
            Some(sections) => {
                &&& branches is Ok <==> sections.contains_key(encode_utf8(".text"@))
                &&& branches matches Err(error) ==> (error matches CoverageError::NoSection {
                    section,
                } && section@ == ".text"@)
            },
            None => branches == Err::<Branches, CoverageError>(CoverageError::NotAnObject),
        },
{
}

/// A 64-bit number read as a signed one.
pub open spec fn as_signed(v: u64) -> int {
    if v >= 0x8000_0000_0000_0000 {
        v - 0x1_0000_0000_0000_0000
    } else {
        v as int
    }
}

/// Whether step `i` can be computed. It must not be at the last address. Where its frame is known, its
/// instruction word must be there, and where that is a jump, the next address and the target, summed
/// up as signed numbers, and the address at which execution goes on must fit in 64 bits.
pub open spec fn is_computable(
    vaddrs: Seq<u64>,
    insns: Seq<u64>,
    regs: Seq<[u64; 12]>,
    text_offset: u64,
    has_frame: bool,
    i: int,
) -> bool {
    &&& vaddrs[i] != 0xffff_ffff_ffff_ffff
    &&& has_frame ==> {
        &&& i < insns.len()
        &&& (insns[i] as int % 8 == 5 || insns[i] as int % 8 == 6) ==> {
            &&& vaddrs[i] <= 0xffff_ffff_ffff_fff7
            &&& -0x8000_0000_0000_0000 <= as_signed(vaddrs[i]) + 8 * signed_offset(insns[i])
            &&& as_signed(vaddrs[i]) + 8 * signed_offset(insns[i]) + 8 <= 0x7fff_ffff_ffff_ffff
            &&& i + 1 < regs.len() ==> regs[i + 1]@[11] * 8 % 0x1_0000_0000_0000_0000 + text_offset
                <= 0xffff_ffff_ffff_ffff
        }
    }
}

proof fn lemma_counts_at_most(s: Steps, v: u64, n: int)
    requires
        0 <= n,
    ensures
        s.goto_count(v, n) <= n,
        s.next_count(v, n) <= n,
    decreases n,
{
    if n > 0 {
        lemma_counts_at_most(s, v, n - 1);
    }
}

/// The branches of a trace of no more than `u32::MAX` steps can be computed exactly when each of its
/// steps can.
pub proof fn law_computable_traces(s: Steps, n: int)
    requires
        0 <= n <= s.vaddrs.len(),
        n <= 0xffff_ffff,
    ensures
        s.fits(n) <==> forall|i: int|
            0 <= i < n ==> #[trigger] is_computable(
                s.vaddrs,
                s.insns,
                s.regs,
                s.text_offset,
                s.frames[i] is Some,
                i,
            ),
{
    assert forall|v: u64| #[trigger] s.goto_count(v, n) <= u32::MAX && s.next_count(v, n)
        <= u32::MAX by {
        lemma_counts_at_most(s, v, n);
    }
    assert(s.counts_fit(n));
    if s.fits(n) {
        assert forall|i: int| 0 <= i < n implies #[trigger] is_computable(
            s.vaddrs,
            s.insns,
            s.regs,
            s.text_offset,
            s.frames[i] is Some,
            i,
        ) by {
            assert(s.vaddrs[i] < u64::MAX);
            if s.frames[i] is Some {
                assert(s.in_bounds(i));
            }
        }
    }
    if forall|i: int|
        0 <= i < n ==> #[trigger] is_computable(
            s.vaddrs,
            s.insns,
            s.regs,
            s.text_offset,
            s.frames[i] is Some,
            i,
        ) {
        assert forall|i: int| 0 <= i < n implies #[trigger] s.vaddrs[i] < u64::MAX by {
            assert(is_computable(
                s.vaddrs,
                s.insns,
                s.regs,
                s.text_offset,
                s.frames[i] is Some,
                i,
            ));
        }
        assert forall|i: int| 0 <= i < n && s.frames[i] is Some implies #[trigger] s.in_bounds(
            i,
        ) by {
            assert(is_computable(
                s.vaddrs,
                s.insns,
                s.regs,
                s.text_offset,
                s.frames[i] is Some,
                i,
            ));
        }
    }
}

proof fn lemma_occurrences_at_most(vaddrs: Seq<u64>, v: u64, n: int)
    requires
        0 <= n,
    ensures
        occurrences(vaddrs, v, n) <= n,
    decreases n,
{
    if n > 0 {
        lemma_occurrences_at_most(vaddrs, v, n - 1);
    }
}

/// Whatever the debug information says, the branches of a trace of no more than `u32::MAX` steps can
/// be computed if each of its steps can.
pub proof fn law_ordinary_traces(
    loader: addr2line::Loader,
    vaddrs: Seq<u64>,
    insns: Seq<u64>,
    regs: Seq<[u64; 12]>,
    text_offset: u64,
)
    requires
        vaddrs.len() <= 0xffff_ffff,
        forall|i: int|
            0 <= i < vaddrs.len() ==> #[trigger] is_computable(
                vaddrs,
                insns,
                regs,
                text_offset,
                true,
                i,
            ),
    ensures
        always_fits(loader, vaddrs, insns, regs, text_offset),
{
    let s = steps_of(vaddrs, insns, regs, text_offset, seq![]);
    assert forall|i: int| 0 <= i < vaddrs.len() implies #[trigger] s.in_bounds(i) by {
        assert(is_computable(vaddrs, insns, regs, text_offset, true, i));
    }
    assert forall|i: int| 0 <= i < vaddrs.len() implies #[trigger] vaddrs[i] < u64::MAX by {
        assert(is_computable(vaddrs, insns, regs, text_offset, true, i));
    }
    assert forall|v: u64| #[trigger] occurrences(vaddrs, v, vaddrs.len() as int) <= u32::MAX by {
        lemma_occurrences_at_most(vaddrs, v, vaddrs.len() as int);
    }
    law_fit_traces(loader, vaddrs, insns, regs, text_offset);
}

} // verus!
