//! Branch coverage: which conditional jumps of a trace were taken, and which fell through.

use crate::debug_info::{
    first_frame, found_view, may_find_frame, FrameModel, LoaderFrame,
};
use crate::dwarf::Dwarf;
use crate::error::CoverageError;
use crate::opcode::{
    in_jump_class, is_conditional, is_conditional_jump, is_jump_class, jump_offset, jump_offset_of,
    opcode, opcode_of,
};
use crate::text::{str_view, string_view};
use crate::util::{get_section_start_address, has_section, section_begin, section_start};
use std::collections::BTreeMap;
use vstd::prelude::*;

verus! {

broadcast use vstd::std_specs::btree::group_btree_axioms;

/// What is known of the function frame at an address.
#[derive(Debug)]
pub struct FrameDetails<'a> {
    pub dw_die_offset: Option<u64>,
    pub demangled_function_name: Option<String>,
    pub file_name: Option<&'a str>,
    pub line_num: Option<u32>,
    pub column: Option<u32>,
}

/// Flattens a frame of the debug information. A function whose name cannot be read is called
/// `cant_demangle`; a frame without a location has neither file nor line nor column.
pub fn get_frame_details<'a>(frame: LoaderFrame<'a>) -> (details: FrameDetails<'a>)
    ensures
        details.dw_die_offset == frame.dw_die_offset,
        string_view(details.demangled_function_name) == (match frame@.function {
            Some(Some(name)) => Some(name),
            Some(None) => Some("cant_demangle"@),
            None => None,
        }),
        frame.location matches Some(location) ==> {
            &&& str_view(details.file_name) == str_view(location.file)
            &&& details.line_num == location.line
            &&& details.column == location.column
        },
        frame.location is None ==> {
            &&& details.file_name is None
            &&& details.line_num is None
            &&& details.column is None
        },
{
    let demangled_function_name = match frame.function {
        Some(Some(name)) => Some(name),
        Some(None) => Some("cant_demangle".to_owned()),
        None => None,
    };
    match frame.location {
        Some(location) => FrameDetails {
            dw_die_offset: frame.dw_die_offset,
            demangled_function_name,
            file_name: location.file,
            line_num: location.line,
            column: location.column,
        },
        None => FrameDetails {
            dw_die_offset: frame.dw_die_offset,
            demangled_function_name,
            file_name: None,
            line_num: None,
            column: None,
        },
    }
}

/// A conditional jump of the program: where it stands in the source, how often execution went on
/// with the next instruction and how often with the jump's target, and the number of the branch.
#[derive(PartialEq, Clone, Debug)]
pub struct Branch {
    pub file: Option<String>,
    pub line: Option<u32>,
    pub next_taken: u32,
    pub goto_taken: u32,
    pub branch_id: u64,
}

/// The view of a branch.
pub struct BranchModel {
    pub file: Option<Seq<char>>,
    pub line: Option<u32>,
    pub next_taken: nat,
    pub goto_taken: nat,
    pub branch_id: nat,
}

impl View for Branch {
    type V = BranchModel;

    open spec fn view(&self) -> BranchModel {
        BranchModel {
            file: string_view(self.file),
            line: self.line,
            next_taken: self.next_taken as nat,
            goto_taken: self.goto_taken as nat,
            branch_id: self.branch_id as nat,
        }
    }
}

impl Default for Branch {
    /// A branch without source location and without hits.
    fn default() -> (branch: Self)
        ensures
            branch@ == (BranchModel {
                file: None,
                line: None,
                next_taken: 0,
                goto_taken: 0,
                branch_id: 0,
            }),
    {
        Branch { file: None, line: None, next_taken: 0, goto_taken: 0, branch_id: 0 }
    }
}

impl Branch {
    /// A branch that was not hit yet.
    pub fn new(file: Option<&str>, line: Option<u32>, branch_id: u64) -> (branch: Self)
        ensures
            branch@ == (BranchModel {
                file: str_view(file),
                line,
                next_taken: 0,
                goto_taken: 0,
                branch_id: branch_id as nat,
            }),
    {
        let file = match file {
            Some(name) => Some(name.to_owned()),
            None => None,
        };
        Branch { file, line, next_taken: 0, goto_taken: 0, branch_id }
    }
}

/// The branches of a program by address.
pub type Branches = BTreeMap<u64, Branch>;

/// The views of the branches by address.
pub open spec fn branch_views(branches: Map<u64, Branch>) -> Map<u64, BranchModel> {
    branches.map_values(|branch: Branch| branch@)
}

/// A trace as branch coverage sees it: for every executed instruction its address and its word, the
/// registers before every instruction (the program counter last, in instructions), the address at
/// which the program's code begins, and for every instruction the file and line of the innermost
/// function frame, `None` where there is no frame.
pub struct Steps {
    pub vaddrs: Seq<u64>,
    pub insns: Seq<u64>,
    pub regs: Seq<[u64; 12]>,
    pub text_offset: u64,
    pub frames: Seq<Option<(Option<Seq<char>>, Option<u32>)>>,
}

/// Twice the sign bit of a 64-bit number.
pub open spec fn word_size() -> int {
    0x1_0000_0000_0000_0000
}

/// A 64-bit number read as a signed one.
pub open spec fn signed(x: u64) -> int {
    if x <= i64::MAX {
        x as int
    } else {
        x - word_size()
    }
}

impl Steps {
    /// Whether step `i` is an execution of a conditional jump of which both the source frame and the
    /// following program counter are known.
    pub open spec fn recorded(self, i: int) -> bool {
        &&& 0 <= i < self.vaddrs.len()
        &&& self.frames[i] is Some
        &&& is_conditional(opcode(self.insns[i]))
        &&& i + 1 < self.regs.len()
    }

    /// The address to which the jump of step `i` goes when it is taken.
    pub open spec fn goto_pc(self, i: int) -> int {
        (self.vaddrs[i] + 8 * jump_offset(self.insns[i]) + 8) % word_size()
    }

    /// The address of the instruction that was executed after step `i`.
    pub open spec fn next_pc(self, i: int) -> int {
        8 * self.regs[i + 1]@[11] % word_size() + self.text_offset
    }

    /// Whether step `i` reached the jump's target.
    pub open spec fn goto_hit(self, i: int) -> bool {
        self.next_pc(i) == self.goto_pc(i)
    }

    /// Whether step `i` went on with the next instruction. A jump to the next instruction does both.
    pub open spec fn next_hit(self, i: int) -> bool {
        !self.goto_hit(i) || self.goto_pc(i) == self.vaddrs[i] + 8
    }

    /// The first of the first `n` steps that is recorded at address `v`.
    pub open spec fn first(self, v: u64, n: int) -> Option<int>
        decreases n,
    {
        if n <= 0 {
            None
        } else {
            match self.first(v, n - 1) {
                Some(i) => Some(i),
                None => if self.recorded(n - 1) && self.vaddrs[n - 1] == v {
                    Some(n - 1)
                } else {
                    None
                },
            }
        }
    }

    /// How many of the first `n` steps at address `v` reached the jump's target.
    pub open spec fn goto_count(self, v: u64, n: int) -> nat
        decreases n,
    {
        if n <= 0 {
            0
        } else if self.recorded(n - 1) && self.vaddrs[n - 1] == v && self.goto_hit(n - 1) {
            self.goto_count(v, n - 1) + 1
        } else {
            self.goto_count(v, n - 1)
        }
    }

    /// How many of the first `n` steps at address `v` went on with the next instruction.
    pub open spec fn next_count(self, v: u64, n: int) -> nat
        decreases n,
    {
        if n <= 0 {
            0
        } else if self.recorded(n - 1) && self.vaddrs[n - 1] == v && self.next_hit(n - 1) {
            self.next_count(v, n - 1) + 1
        } else {
            self.next_count(v, n - 1)
        }
    }

    /// How many addresses the first `n` steps record.
    pub open spec fn distinct(self, n: int) -> nat
        decreases n,
    {
        if n <= 0 {
            0
        } else if self.recorded(n - 1) && self.first(self.vaddrs[n - 1], n - 1) is None {
            self.distinct(n - 1) + 1
        } else {
            self.distinct(n - 1)
        }
    }

    /// The branch at address `v` after `n` steps. It has the source location of the frame at its
    /// first recorded step, and branches are numbered from 1 in the order of these steps.
    pub open spec fn branch(self, v: u64, n: int) -> BranchModel {
        let first = self.first(v, n)->0;
        let (file, line) = self.frames[first]->0;
        BranchModel {
            file,
            line,
            next_taken: self.next_count(v, n),
            goto_taken: self.goto_count(v, n),
            branch_id: self.distinct(first + 1),
        }
    }

    /// The branches after `n` steps.
    pub open spec fn branches(self, n: int) -> Map<u64, BranchModel> {
        Map::new(|v: u64| self.first(v, n) is Some, |v: u64| self.branch(v, n))
    }

    /// Whether the addresses that step `i` leads to can be computed: its instruction word is there,
    /// and, where it is a jump, the address behind it, the jump's target (a signed sum) and the
    /// following address fit in 64 bits.
    pub open spec fn in_bounds(self, i: int) -> bool {
        let v = self.vaddrs[i];
        let jump = 8 * jump_offset(self.insns[i]);
        &&& i < self.insns.len()
        &&& is_jump_class(opcode(self.insns[i])) ==> {
            &&& v + 8 <= u64::MAX
            &&& i64::MIN <= signed(v) + jump <= i64::MAX - 8
            &&& i + 1 < self.regs.len() ==> self.next_pc(i) <= u64::MAX
        }
    }

    /// Whether every hit count fits in 32 bits after `n` steps.
    pub open spec fn counts_fit(self, n: int) -> bool {
        forall|v: u64|
            #![trigger self.goto_count(v, n)]
            #![trigger self.next_count(v, n)]
            self.goto_count(v, n) <= u32::MAX && self.next_count(v, n) <= u32::MAX
    }

    /// Whether the branches of the first `n` steps can be computed: no step is at the last address, for
    /// which no frame can be looked up, every step with a frame leads to addresses that can be
    /// computed, and every hit count fits in 32 bits.
    pub open spec fn fits(self, n: int) -> bool {
        &&& forall|i: int| 0 <= i < n ==> #[trigger] self.vaddrs[i] < u64::MAX
        &&& forall|i: int| 0 <= i < n && self.frames[i] is Some ==> #[trigger] self.in_bounds(i)
        &&& self.counts_fit(n)
    }
}

/// A step that is not recorded changes nothing.
proof fn lemma_not_recorded(s: Steps, i: int)
    requires
        0 <= i,
        !s.recorded(i),
    ensures
        s.branches(i + 1) == s.branches(i),
        s.distinct(i + 1) == s.distinct(i),
        s.counts_fit(i + 1) == s.counts_fit(i),
{
    assert forall|v: u64| #[trigger] s.goto_count(v, i + 1) == s.goto_count(v, i) by {}
    assert forall|v: u64| #[trigger] s.next_count(v, i + 1) == s.next_count(v, i) by {}
    if s.counts_fit(i + 1) {
        assert forall|v: u64| #[trigger] s.goto_count(v, i) <= u32::MAX && s.next_count(v, i)
            <= u32::MAX by {
            assert(s.goto_count(v, i + 1) <= u32::MAX);
        }
    }
    assert forall|v: u64| s.first(v, i + 1) == s.first(v, i) && s.branch(v, i + 1) == s.branch(
        v,
        i,
    ) by {}
    assert(s.branches(i + 1) =~= s.branches(i));
}

/// Hit counts only grow.
proof fn lemma_counts_grow(s: Steps, v: u64, i: int, n: int)
    requires
        i <= n,
    ensures
        s.goto_count(v, i) <= s.goto_count(v, n),
        s.next_count(v, i) <= s.next_count(v, n),
    decreases n - i,
{
    if i < n {
        lemma_counts_grow(s, v, i, n - 1);
    }
}

/// There are no more branches than steps.
proof fn lemma_distinct_bound(s: Steps, n: int)
    requires
        0 <= n,
    ensures
        s.distinct(n) <= n,
    decreases n,
{
    if n > 0 {
        lemma_distinct_bound(s, n - 1);
    }
}

/// A first step lies among the steps that were looked at, and without one there are no hits.
proof fn lemma_first(s: Steps, v: u64, n: int)
    ensures
        s.first(v, n) matches Some(i) ==> 0 <= i < n && s.recorded(i) && s.vaddrs[i] == v,
        s.first(v, n) is None ==> s.goto_count(v, n) == 0 && s.next_count(v, n) == 0,
    decreases n,
{
    if n > 0 {
        lemma_first(s, v, n - 1);
    }
}

/// The jump's target, computed with the wrapping operations of 64-bit numbers.
fn goto_address(vaddr: u64, insn: u64) -> (pc: u64)
    ensures
        pc == (vaddr + 8 * jump_offset(insn) + 8) % word_size(),
{
    let distance: i64 = jump_offset_of(insn) * 8 + 8;
    if distance >= 0 {
        vaddr.wrapping_add(distance as u64)
    } else {
        vaddr.wrapping_sub((-distance) as u64)
    }
}

/// Takes step `i` of `s`, which has a frame, into the branches found in the steps before it. Where a
/// hit count would not fit, the result is `false`.
#[verifier::spinoff_prover]
fn record_step(
    branches: &mut Branches,
    total: &mut u64,
    file: Option<&str>,
    line: Option<u32>,
    vaddr: u64,
    insn: u64,
    next_regs: Option<&[u64; 12]>,
    text_offset: u64,
    Ghost(s): Ghost<Steps>,
    Ghost(i): Ghost<int>,
) -> (fits: bool)
    requires
        0 <= i < s.vaddrs.len() <= u64::MAX,
        s.vaddrs[i] == vaddr,
        s.insns[i] == insn,
        s.text_offset == text_offset,
        s.frames[i] == Some((str_view(file), line)),
        next_regs is Some <==> i + 1 < s.regs.len(),
        next_regs matches Some(regs) ==> s.regs[i + 1] == *regs,
        s.in_bounds(i),
        s.counts_fit(i),
        branch_views(old(branches)@) == s.branches(i),
        *old(total) == s.distinct(i),
    ensures
        fits == s.counts_fit(i + 1),
        fits ==> branch_views(final(branches)@) == s.branches(i + 1),
        fits ==> *final(total) == s.distinct(i + 1),
{
    if !is_conditional_jump(opcode_of(insn)) {
        proof {
            lemma_not_recorded(s, i);
        }
        return true;
    }
    let regs = match next_regs {
        Some(regs) => regs,
        None => {
            proof {
                lemma_not_recorded(s, i);
            }
            return true;
        },
    };
    let goto_pc: u64 = goto_address(vaddr, insn);
    let next_pc: u64 = regs[11].wrapping_mul(8) + text_offset;
    let ghost before = branches@;
    proof {
        lemma_distinct_bound(s, i + 1);
        assert(branch_views(before).contains_key(vaddr) == s.branches(i).contains_key(vaddr));
    }
    let mut branch = match branches.remove(&vaddr) {
        Some(branch) => {
            assert(branch@ == branch_views(before)[vaddr]);
            branch
        },
        None => {
            *total = *total + 1;
            Branch::new(file, line, *total)
        },
    };
    proof {
        lemma_first(s, vaddr, i);
        assert(branch.goto_taken == s.goto_count(vaddr, i));
        assert(branch.next_taken == s.next_count(vaddr, i));
        assert(s.goto_hit(i) == (next_pc == goto_pc));
    }
    // A jump to the next instruction goes both ways.
    let goto_hit: bool = next_pc == goto_pc;
    let next_hit: bool = !goto_hit || goto_pc == vaddr + 8;
    if goto_hit {
        if branch.goto_taken == u32::MAX {
            assert(s.goto_count(vaddr, i + 1) > u32::MAX);
            return false;
        }
        branch.goto_taken = branch.goto_taken + 1;
    }
    if next_hit {
        if branch.next_taken == u32::MAX {
            assert(s.next_count(vaddr, i + 1) > u32::MAX);
            return false;
        }
        branch.next_taken = branch.next_taken + 1;
    }
    proof {
        assert(branch@ == s.branch(vaddr, i + 1));
        assert forall|v: u64| #[trigger] s.goto_count(v, i + 1) <= u32::MAX && s.next_count(v, i + 1)
            <= u32::MAX by {
            if v != vaddr {
                assert(s.goto_count(v, i) <= u32::MAX);
            }
        }
        assert(s.counts_fit(i + 1));
    }
    branches.insert(vaddr, branch);
    proof {
        let after = branch_views(branches@);
        assert forall|v: u64| #[trigger] after.contains_key(v) == s.branches(i + 1).contains_key(v)
            && (after.contains_key(v) ==> after[v] == s.branches(i + 1)[v]) by {
            if v != vaddr {
                assert(branches@.contains_key(v) == before.contains_key(v));
                assert(branch_views(before).contains_key(v) == s.branches(i).contains_key(v));
                if before.contains_key(v) {
                    assert(branch_views(before)[v] == s.branches(i)[v]);
                }
            }
        }
        assert(after =~= s.branches(i + 1));
    }
    true
}

/// A trace with the frames of its instructions.
pub open spec fn steps_of(
    vaddrs: Seq<u64>,
    insns: Seq<u64>,
    regs: Seq<[u64; 12]>,
    text_offset: u64,
    frames: Seq<Option<(Option<Seq<char>>, Option<u32>)>>,
) -> Steps {
    Steps { vaddrs, insns, regs, text_offset, frames }
}

/// The file and line of a frame.
pub open spec fn frame_line(frame: Option<FrameDetails<'_>>) -> Option<
    (Option<Seq<char>>, Option<u32>),
> {
    match frame {
        Some(details) => Some((str_view(details.file_name), details.line_num)),
        None => None,
    }
}

/// The files and lines of frames.
pub open spec fn frame_lines(frames: Seq<Option<FrameDetails<'_>>>) -> Seq<
    Option<(Option<Seq<char>>, Option<u32>)>,
> {
    frames.map_values(|frame: Option<FrameDetails>| frame_line(frame))
}

/// Tests whether the addresses that a step leads to can be computed.
fn step_fits(
    vaddr: u64,
    insn: u64,
    next_regs: Option<&[u64; 12]>,
    text_offset: u64,
    Ghost(s): Ghost<Steps>,
    Ghost(i): Ghost<int>,
) -> (b: bool)
    requires
        0 <= i < s.vaddrs.len(),
        i < s.insns.len(),
        s.vaddrs[i] == vaddr,
        s.insns[i] == insn,
        s.text_offset == text_offset,
        next_regs is Some <==> i + 1 < s.regs.len(),
        next_regs matches Some(regs) ==> s.regs[i + 1] == *regs,
    ensures
        b == s.in_bounds(i),
{
    if !in_jump_class(opcode_of(insn)) {
        return true;
    }
    if vaddr > u64::MAX - 8 {
        return false;
    }
    let from: i128 = if vaddr <= 0x7fff_ffff_ffff_ffff {
        vaddr as i128
    } else {
        vaddr as i128 - 0x1_0000_0000_0000_0000
    };
    let to: i128 = from + 8 * jump_offset_of(insn) as i128;
    if to < -0x8000_0000_0000_0000 || to > 0x7fff_ffff_ffff_fff7 {
        return false;
    }
    match next_regs {
        Some(regs) => regs[11].wrapping_mul(8) <= u64::MAX - text_offset,
        None => true,
    }
}

/// The registers after step `i`, where they are known.
fn next_row(regs: &Vec<[u64; 12]>, i: usize) -> (row: Option<&[u64; 12]>)
    ensures
        row == (if i + 1 < regs@.len() {
            Some(&regs@[i + 1])
        } else {
            None
        }),
{
    if regs.len() > 0 && i < regs.len() - 1 {
        Some(&regs[i + 1])
    } else {
        None
    }
}

/// Takes step `i` of a trace, with its frame where it has one, into the branches found in the steps
/// before it. Where the step cannot be computed or a hit count would not fit, the result is `false`.
fn take_step(
    branches: &mut Branches,
    total: &mut u64,
    frame: &Option<FrameDetails<'_>>,
    vaddrs: &Vec<u64>,
    insns: &Vec<u64>,
    regs: &Vec<[u64; 12]>,
    text_offset: u64,
    i: usize,
    Ghost(s): Ghost<Steps>,
) -> (fits: bool)
    requires
        i < vaddrs@.len(),
        s == steps_of(vaddrs@, insns@, regs@, text_offset, s.frames),
        s.frames[i as int] == frame_line(*frame),
        s.fits(i as int),
        branch_views(old(branches)@) == s.branches(i as int),
        *old(total) == s.distinct(i as int),
    ensures
        fits == s.fits(i + 1),
        fits ==> branch_views(final(branches)@) == s.branches(i + 1),
        fits ==> *final(total) == s.distinct(i + 1),
{
    if vaddrs[i] == u64::MAX {
        assert(s.vaddrs[i as int] == u64::MAX);
        return false;
    }
    let details = match frame {
        Some(details) => details,
        None => {
            proof {
                lemma_not_recorded(s, i as int);
            }
            return true;
        },
    };
    if i >= insns.len() {
        assert(!s.in_bounds(i as int));
        return false;
    }
    let next_regs: Option<&[u64; 12]> = next_row(regs, i);
    assert(vaddrs.len() == vaddrs@.len());
    if !step_fits(vaddrs[i], insns[i], next_regs, text_offset, Ghost(s), Ghost(i as int)) {
        return false;
    }
    record_step(
        branches,
        total,
        details.file_name,
        details.line_num,
        vaddrs[i],
        insns[i],
        next_regs,
        text_offset,
        Ghost(s),
        Ghost(i as int),
    )
}

/// Where a trace fits, its first steps do.
proof fn lemma_fits_prefix(s: Steps, m: int, n: int)
    requires
        m <= n,
        s.fits(n),
    ensures
        s.fits(m),
{
    assert forall|v: u64| #[trigger] s.goto_count(v, m) <= u32::MAX && s.next_count(v, m)
        <= u32::MAX by {
        lemma_counts_grow(s, v, m, n);
        assert(s.goto_count(v, n) <= u32::MAX);
    }
}

/// The branches of a trace, given the innermost function frame at every instruction. The result is
/// `None` where they cannot be computed.
pub fn branches_from_frames(
    vaddrs: &Vec<u64>,
    insns: &Vec<u64>,
    regs: &Vec<[u64; 12]>,
    text_offset: u64,
    frames: &Vec<Option<FrameDetails<'_>>>,
) -> (branches: Option<Branches>)
    requires
        frames@.len() == vaddrs@.len(),
    ensures
        ({
            let s = steps_of(vaddrs@, insns@, regs@, text_offset, frame_lines(frames@));
            let n = vaddrs@.len() as int;
            &&& branches is Some <==> s.fits(n)
            &&& branches matches Some(branches) ==> branch_views(branches@) == s.branches(n)
        }),
{
    let ghost s = steps_of(vaddrs@, insns@, regs@, text_offset, frame_lines(frames@));
    let mut branches: Branches = BTreeMap::new();
    let mut total: u64 = 0;
    assert(branch_views(branches@) =~= s.branches(0));
    for i in 0..vaddrs.len()
        invariant
            s == steps_of(vaddrs@, insns@, regs@, text_offset, frame_lines(frames@)),
            frames@.len() == vaddrs@.len(),
            s.fits(i as int),
            branch_views(branches@) == s.branches(i as int),
            total == s.distinct(i as int),
    {
        assert(s.frames[i as int] == frame_line(frames@[i as int]));
        if !take_step(
            &mut branches,
            &mut total,
            &frames[i],
            vaddrs,
            insns,
            regs,
            text_offset,
            i,
            Ghost(s),
        ) {
            proof {
                if s.fits(s.vaddrs.len() as int) {
                    lemma_fits_prefix(s, i + 1, s.vaddrs.len() as int);
                }
            }
            return None;
        }
    }
    Some(branches)
}

/// How many of the first `n` addresses are `v`.
pub open spec fn occurrences(vaddrs: Seq<u64>, v: u64, n: int) -> nat
    decreases n,
{
    if n <= 0 {
        0
    } else if vaddrs[n - 1] == v {
        occurrences(vaddrs, v, n - 1) + 1
    } else {
        occurrences(vaddrs, v, n - 1)
    }
}

/// Whether the frames of all addresses can be looked up: there is none for the last address.
pub open spec fn can_look_up(vaddrs: Seq<u64>) -> bool {
    forall|i: int| 0 <= i < vaddrs.len() ==> #[trigger] vaddrs[i] < u64::MAX
}

/// Whether the branches of a trace can be computed whatever frames its instructions have: the frames
/// can be looked up, the addresses that every step leads to can be computed, and no instruction is executed so often that
/// a hit count would not fit in 32 bits.
pub open spec fn trace_fits(
    vaddrs: Seq<u64>,
    insns: Seq<u64>,
    regs: Seq<[u64; 12]>,
    text_offset: u64,
) -> bool {
    &&& can_look_up(vaddrs)
    &&& forall|i: int|
        0 <= i < vaddrs.len() ==> #[trigger] steps_of(
            vaddrs,
            insns,
            regs,
            text_offset,
            seq![],
        ).in_bounds(i)
    &&& forall|v: u64| #[trigger] occurrences(vaddrs, v, vaddrs.len() as int) <= u32::MAX
}

/// A branch is hit no more often than its instruction is executed.
proof fn lemma_counts_bounded(s: Steps, v: u64, n: int)
    ensures
        s.goto_count(v, n) <= occurrences(s.vaddrs, v, n),
        s.next_count(v, n) <= occurrences(s.vaddrs, v, n),
    decreases n,
{
    if n > 0 {
        lemma_counts_bounded(s, v, n - 1);
    }
}

/// The branches of the first steps do not depend on the frames of later ones.
proof fn lemma_frames_agree(a: Steps, b: Steps, v: u64, n: int)
    requires
        a.vaddrs == b.vaddrs,
        a.insns == b.insns,
        a.regs == b.regs,
        a.text_offset == b.text_offset,
        forall|i: int| 0 <= i < n ==> a.frames[i] == b.frames[i],
    ensures
        a.first(v, n) == b.first(v, n),
        a.goto_count(v, n) == b.goto_count(v, n),
        a.next_count(v, n) == b.next_count(v, n),
        a.distinct(n) == b.distinct(n),
    decreases n,
{
    if n > 0 {
        lemma_frames_agree(a, b, v, n - 1);
        lemma_frames_agree(a, b, a.vaddrs[n - 1], n - 1);
    }
}

/// The branches of the first steps do not depend on the frames of later ones.
proof fn lemma_branches_agree(a: Steps, b: Steps, n: int)
    requires
        0 <= n,
        a.vaddrs == b.vaddrs,
        a.insns == b.insns,
        a.regs == b.regs,
        a.text_offset == b.text_offset,
        forall|i: int| 0 <= i < n ==> a.frames[i] == b.frames[i],
    ensures
        a.branches(n) == b.branches(n),
        a.distinct(n) == b.distinct(n),
{
    assert forall|v: u64|
        a.first(v, n) == b.first(v, n) && (a.first(v, n) is Some ==> a.branch(v, n) == b.branch(
            v,
            n,
        )) by {
        lemma_frames_agree(a, b, v, n);
        lemma_first(a, v, n);
        if let Some(first) = a.first(v, n) {
            lemma_frames_agree(a, b, v, first + 1);
        }
    }
    lemma_frames_agree(a, b, 0, n);
    assert(a.branches(n) =~= b.branches(n));
}

/// The file and line of a frame of the debug information.
pub open spec fn model_line(frame: Option<FrameModel>) -> Option<
    (Option<Seq<char>>, Option<u32>),
> {
    match frame {
        Some(frame) => match frame.location {
            Some(location) => Some((location.file, location.line)),
            None => Some((None, None)),
        },
        None => None,
    }
}

/// The files and lines of frames of the debug information.
pub open spec fn model_lines(frames: Seq<Option<FrameModel>>) -> Seq<
    Option<(Option<Seq<char>>, Option<u32>)>,
> {
    frames.map_values(|frame: Option<FrameModel>| model_line(frame))
}

/// Whether the first steps fit does not depend on the frames of later ones.
proof fn lemma_fits_agree(a: Steps, b: Steps, n: int)
    requires
        0 <= n,
        a.vaddrs == b.vaddrs,
        a.insns == b.insns,
        a.regs == b.regs,
        a.text_offset == b.text_offset,
        forall|i: int| 0 <= i < n ==> a.frames[i] == b.frames[i],
        a.fits(n),
    ensures
        b.fits(n),
{
    assert forall|v: u64| #[trigger] b.goto_count(v, n) <= u32::MAX && b.next_count(v, n)
        <= u32::MAX by {
        lemma_frames_agree(a, b, v, n);
        assert(a.goto_count(v, n) <= u32::MAX);
    }
    assert forall|i: int| 0 <= i < n && b.frames[i] is Some implies #[trigger] b.in_bounds(i) by {
        assert(a.frames[i] is Some);
        assert(a.in_bounds(i));
    }
}

/// Whether these may be the innermost frames that the debug information gives for the first
/// addresses.
pub open spec fn may_find_first_frames(
    loader: addr2line::Loader,
    vaddrs: Seq<u64>,
    frames: Seq<Option<FrameModel>>,
) -> bool {
    &&& frames.len() <= vaddrs.len()
    &&& forall|i: int|
        0 <= i < frames.len() ==> may_find_frame(loader, vaddrs[i], #[trigger] frames[i])
}

/// Whether these may be the innermost frames that the debug information gives for all addresses.
pub open spec fn may_find_frames(
    loader: addr2line::Loader,
    vaddrs: Seq<u64>,
    frames: Seq<Option<FrameModel>>,
) -> bool {
    frames.len() == vaddrs.len() && may_find_first_frames(loader, vaddrs, frames)
}

/// Whether the branches of a trace can be computed with its first steps having these frames.
pub open spec fn fits_with(
    vaddrs: Seq<u64>,
    insns: Seq<u64>,
    regs: Seq<[u64; 12]>,
    text_offset: u64,
    frames: Seq<Option<FrameModel>>,
) -> bool {
    steps_of(vaddrs, insns, regs, text_offset, model_lines(frames)).fits(frames.len() as int)
}

/// Whether the branches of a trace can be computed with any frames that the debug information may
/// give, and all frames can be looked up.
pub open spec fn always_fits(
    loader: addr2line::Loader,
    vaddrs: Seq<u64>,
    insns: Seq<u64>,
    regs: Seq<[u64; 12]>,
    text_offset: u64,
) -> bool {
    &&& can_look_up(vaddrs)
    &&& forall|frames: Seq<Option<FrameModel>>| #[trigger]
        may_find_first_frames(loader, vaddrs, frames) ==> fits_with(
            vaddrs,
            insns,
            regs,
            text_offset,
            frames,
        )
}

/// Whether looking for the branches of a trace may give `branches`: an error where the object has no
/// code section, and otherwise the branches that the trace has with frames that the debug
/// information may give.
pub open spec fn branches_found(
    vaddrs: Seq<u64>,
    insns: Seq<u64>,
    regs: Seq<[u64; 12]>,
    dwarf: Dwarf<'_>,
    branches: Result<Branches, CoverageError>,
) -> bool {
    if has_section(dwarf.data@, ".text"@) {
        branches matches Ok(branches) && exists|frames: Seq<Option<FrameModel>>|
            {
                &&& #[trigger] may_find_frames(*dwarf.loader, vaddrs, frames)
                &&& branch_views(branches@) == steps_of(
                    vaddrs,
                    insns,
                    regs,
                    section_begin(dwarf.data@, ".text"@),
                    model_lines(frames),
                ).branches(vaddrs.len() as int)
            }
    } else {
        branches matches Err(error) && section_start(dwarf.data@, ".text"@, Err(error))
    }
}

/// The branches of a trace. The frames come from the debug information; only the innermost frame of
/// an address counts, as there are no registers for the frames around it. The result is `None` where
/// the branches cannot be computed.
pub fn checked_branches(
    vaddrs: &Vec<u64>,
    insns: &Vec<u64>,
    regs: &Vec<[u64; 12]>,
    dwarf: &Dwarf<'_>,
) -> (branches: Option<Result<Branches, CoverageError>>)
    ensures
        branches matches Some(branches) ==> branches_found(vaddrs@, insns@, regs@, *dwarf, branches),
        branches is None ==> has_section(dwarf.data@, ".text"@) && !always_fits(
            *dwarf.loader,
            vaddrs@,
            insns@,
            regs@,
            section_begin(dwarf.data@, ".text"@),
        ),
{
    let text_offset: u64 = match get_section_start_address(dwarf.data, ".text") {
        Ok(text_offset) => text_offset,
        Err(error) => {
            return Some(Err(error));
        },
    };
    let mut branches: Branches = BTreeMap::new();
    let mut total: u64 = 0;
    let ghost mut found: Seq<Option<FrameModel>> = seq![];
    let ghost base = steps_of(vaddrs@, insns@, regs@, text_offset, seq![]);
    assert(branch_views(branches@) =~= base.branches(0));
    for i in 0..vaddrs.len()
        invariant
            base == steps_of(vaddrs@, insns@, regs@, text_offset, seq![]),
            has_section(dwarf.data@, ".text"@),
            text_offset == section_begin(dwarf.data@, ".text"@),
            found.len() == i,
            may_find_first_frames(*dwarf.loader, vaddrs@, found),
            ({
                let s = Steps { frames: model_lines(found), ..base };
                &&& s.fits(i as int)
                &&& branch_views(branches@) == s.branches(i as int)
                &&& total == s.distinct(i as int)
            }),
    {
        if vaddrs[i] == u64::MAX {
            assert(!can_look_up(vaddrs@));
            return None;
        }
        let ghost before = Steps { frames: model_lines(found), ..base };
        let frame = first_frame(dwarf.loader, vaddrs[i]);
        let ghost model = found_view(frame);
        proof {
            found = found.push(model);
        }
        let ghost s = Steps { frames: model_lines(found), ..base };
        proof {
            lemma_branches_agree(before, s, i as int);
            lemma_fits_agree(before, s, i as int);
            assert(s.frames[i as int] == model_line(model));
            assert(s == steps_of(vaddrs@, insns@, regs@, text_offset, model_lines(found)));
        }
        let details = match frame {
            Some(frame) => Some(get_frame_details(frame)),
            None => None,
        };
        if !take_step(
            &mut branches,
            &mut total,
            &details,
            vaddrs,
            insns,
            regs,
            text_offset,
            i,
            Ghost(s),
        ) {
            proof {
                assert(may_find_first_frames(*dwarf.loader, vaddrs@, found));
                assert(!fits_with(vaddrs@, insns@, regs@, text_offset, found));
            }
            return None;
        }
    }
    proof {
        assert(may_find_frames(*dwarf.loader, vaddrs@, found));
        let s = Steps { frames: model_lines(found), ..base };
        assert(s == steps_of(vaddrs@, insns@, regs@, text_offset, model_lines(found)));
    }
    Some(Ok(branches))
}

/// The branches of a trace whose branches can be computed.
pub fn get_branches(
    vaddrs: &Vec<u64>,
    insns: &Vec<u64>,
    regs: &Vec<[u64; 12]>,
    dwarf: &Dwarf<'_>,
) -> (branches: Result<Branches, CoverageError>)
    requires
        has_section(dwarf.data@, ".text"@) ==> always_fits(
            *dwarf.loader,
            vaddrs@,
            insns@,
            regs@,
            section_begin(dwarf.data@, ".text"@),
        ),
    ensures
        branches_found(vaddrs@, insns@, regs@, *dwarf, branches),
{
    match checked_branches(vaddrs, insns, regs, dwarf) {
        Some(branches) => branches,
        None => vstd::pervasive::unreached(),
    }
}

/// An address occurs no more often in the first steps than in all.
proof fn lemma_occurrences_grow(vaddrs: Seq<u64>, v: u64, i: int, n: int)
    requires
        i <= n,
    ensures
        occurrences(vaddrs, v, i) <= occurrences(vaddrs, v, n),
    decreases n - i,
{
    if i < n {
        lemma_occurrences_grow(vaddrs, v, i, n - 1);
    }
}

/// The branches of a trace can be computed whatever frames the debug information gives, if the
/// addresses that every step leads to can be computed and no instruction is executed so often that a
/// hit count would not fit.
pub proof fn law_fit_traces(
    loader: addr2line::Loader,
    vaddrs: Seq<u64>,
    insns: Seq<u64>,
    regs: Seq<[u64; 12]>,
    text_offset: u64,
)
    requires
        trace_fits(vaddrs, insns, regs, text_offset),
    ensures
        always_fits(loader, vaddrs, insns, regs, text_offset),
{
    let base = steps_of(vaddrs, insns, regs, text_offset, seq![]);
    assert forall|frames: Seq<Option<FrameModel>>| #[trigger]
        may_find_first_frames(loader, vaddrs, frames) implies fits_with(
        vaddrs,
        insns,
        regs,
        text_offset,
        frames,
    ) by {
        let n = frames.len() as int;
        let s = steps_of(vaddrs, insns, regs, text_offset, model_lines(frames));
        assert forall|i: int| 0 <= i < n && s.frames[i] is Some implies #[trigger] s.in_bounds(
            i,
        ) by {
            assert(base.in_bounds(i));
        }
        assert forall|v: u64| #[trigger] s.goto_count(v, n) <= u32::MAX && s.next_count(v, n)
            <= u32::MAX by {
            lemma_counts_bounded(s, v, n);
            lemma_occurrences_grow(vaddrs, v, n, vaddrs.len() as int);
            assert(occurrences(vaddrs, v, vaddrs.len() as int) <= u32::MAX);
        }
    }
}

/// A step that is the first at its address stays the first.
proof fn lemma_first_stays(s: Steps, v: u64, m: int, n: int)
    requires
        m <= n,
        s.first(v, m) is Some,
    ensures
        s.first(v, n) == s.first(v, m),
    decreases n - m,
{
    if m < n {
        lemma_first_stays(s, v, m, n - 1);
    }
}

/// The number of branches only grows.
proof fn lemma_distinct_grows(s: Steps, m: int, n: int)
    requires
        m <= n,
    ensures
        s.distinct(m) <= s.distinct(n),
    decreases n - m,
{
    if m < n {
        lemma_distinct_grows(s, m, n - 1);
    }
}

/// A step that is the first at its address makes a new branch.
proof fn lemma_first_counts(s: Steps, v: u64, n: int)
    requires
        s.first(v, n) is Some,
    ensures
        s.distinct(s.first(v, n)->0 + 1) == s.distinct(s.first(v, n)->0) + 1,
    decreases n,
{
    lemma_first(s, v, n);
    let first = s.first(v, n)->0;
    if s.first(v, n - 1) is Some {
        lemma_first_counts(s, v, n - 1);
    }
}

/// Every reported branch was executed: at least one of its directions was taken.
pub proof fn law_branches_are_hit(s: Steps, n: int)
    requires
        0 <= n,
    ensures
        forall|v: u64| #[trigger]
            s.branches(n).contains_key(v) ==> s.branches(n)[v].next_taken
                + s.branches(n)[v].goto_taken >= 1,
{
    assert forall|v: u64| #[trigger] s.branches(n).contains_key(v) implies s.branches(
        n,
    )[v].next_taken + s.branches(n)[v].goto_taken >= 1 by {
        let first = s.first(v, n)->0;
        lemma_first(s, v, n);
        assert(s.goto_hit(first) || s.next_hit(first));
        assert(s.goto_count(v, first + 1) + s.next_count(v, first + 1) >= 1);
        lemma_counts_grow(s, v, first + 1, n);
    }
}

/// How many of the first `n` steps are recorded at address `v`.
pub open spec fn executions(s: Steps, v: u64, n: int) -> nat
    decreases n,
{
    if n <= 0 {
        0
    } else if s.recorded(n - 1) && s.vaddrs[n - 1] == v {
        executions(s, v, n - 1) + 1
    } else {
        executions(s, v, n - 1)
    }
}

/// Every execution of a conditional jump counts for one direction, unless its target is the next
/// instruction: then it counts for both.
pub proof fn law_hits_add_up(s: Steps, v: u64, n: int)
    requires
        0 <= n,
    ensures
        executions(s, v, n) <= s.next_count(v, n) + s.goto_count(v, n) <= 2 * executions(s, v, n),
        (forall|i: int|
            0 <= i < n && s.recorded(i) && s.vaddrs[i] == v ==> #[trigger] s.goto_pc(i) != v + 8)
            ==> s.next_count(v, n) + s.goto_count(v, n) == executions(s, v, n),
    decreases n,
{
    if n > 0 {
        law_hits_add_up(s, v, n - 1);
        if s.recorded(n - 1) && s.vaddrs[n - 1] == v {
            let goto_pc = s.goto_pc(n - 1);
            assert(s.goto_hit(n - 1) || s.next_hit(n - 1));
        }
    }
}

/// Whether the branches of a part of a trace stay in the branches of the whole: with their source
/// lines and their numbers, and with hit counts that are not lower.
pub open spec fn grows_to(part: Map<u64, BranchModel>, whole: Map<u64, BranchModel>) -> bool {
    forall|v: u64| #[trigger]
        part.contains_key(v) ==> {
            &&& whole.contains_key(v)
            &&& whole[v].file == part[v].file
            &&& whole[v].line == part[v].line
            &&& whole[v].branch_id == part[v].branch_id
            &&& whole[v].next_taken >= part[v].next_taken
            &&& whole[v].goto_taken >= part[v].goto_taken
        }
}

/// Whether one of the branches has the number `k`.
pub open spec fn has_number(branches: Map<u64, BranchModel>, k: nat) -> bool {
    exists|v: u64| #[trigger] branches.contains_key(v) && branches[v].branch_id == k
}

/// Whether branches are numbered from 1 without gaps, each with its own number.
pub open spec fn is_numbered(branches: Map<u64, BranchModel>) -> bool {
    &&& branches.dom().finite()
    &&& forall|v: u64| #[trigger]
        branches.contains_key(v) ==> 1 <= branches[v].branch_id <= branches.dom().len()
    &&& forall|v: u64, w: u64|
        #![trigger branches.contains_key(v), branches.contains_key(w)]
        branches.contains_key(v) && branches.contains_key(w) && v != w ==> branches[v].branch_id
            != branches[w].branch_id
    &&& forall|k: nat| 1 <= k <= branches.dom().len() ==> #[trigger] has_number(branches, k)
}

/// The branches that a trace has reached stay when it goes on, with their source lines and their
/// numbers, and their hit counts never fall.
pub proof fn law_branches_grow(s: Steps, m: int, n: int)
    requires
        0 <= m <= n,
    ensures
        grows_to(s.branches(m), s.branches(n)),
{
    let part = s.branches(m);
    let whole = s.branches(n);
    assert forall|v: u64| #[trigger] part.contains_key(v) implies {
        &&& whole.contains_key(v)
        &&& whole[v].file == part[v].file
        &&& whole[v].line == part[v].line
        &&& whole[v].branch_id == part[v].branch_id
        &&& whole[v].next_taken >= part[v].next_taken
        &&& whole[v].goto_taken >= part[v].goto_taken
    } by {
        lemma_first_stays(s, v, m, n);
        lemma_counts_grow(s, v, m, n);
    }
}

/// The branches are numbered from 1 without gaps, in the order in which they were first executed, and
/// no two have the same number.
pub proof fn law_branch_numbers(s: Steps, n: int)
    requires
        0 <= n,
    ensures
        is_numbered(s.branches(n)),
        forall|v: u64, w: u64|
            #![trigger s.branches(n).contains_key(v), s.branches(n).contains_key(w)]
            s.branches(n).contains_key(v) && s.branches(n).contains_key(w) ==> (s.branches(
                n,
            )[v].branch_id < s.branches(n)[w].branch_id <==> s.first(v, n)->0 < s.first(w, n)->0),
{
    lemma_branch_total(s, n);
    assert forall|k: nat| 1 <= k <= s.branches(n).dom().len() implies #[trigger] has_number(
        s.branches(n),
        k,
    ) by {
        lemma_number_used(s, n, k);
    }
    assert forall|v: u64| #[trigger] s.branches(n).contains_key(v) implies 1 <= s.branches(
        n,
    )[v].branch_id <= s.branches(n).dom().len() by {
        lemma_first(s, v, n);
        lemma_first_counts(s, v, n);
        lemma_distinct_grows(s, s.first(v, n)->0 + 1, n);
    }
    assert forall|v: u64, w: u64|
        #![trigger s.branches(n).contains_key(v), s.branches(n).contains_key(w)]
        s.branches(n).contains_key(v) && s.branches(n).contains_key(w) implies (s.branches(
        n,
    )[v].branch_id < s.branches(n)[w].branch_id <==> s.first(v, n)->0 < s.first(w, n)->0) && (v != w
        ==> s.branches(n)[v].branch_id != s.branches(n)[w].branch_id) by {
        lemma_first(s, v, n);
        lemma_first(s, w, n);
        lemma_first_counts(s, v, n);
        lemma_first_counts(s, w, n);
        let a = s.first(v, n)->0;
        let b = s.first(w, n)->0;
        if a < b {
            lemma_distinct_grows(s, a + 1, b);
        }
        if b < a {
            lemma_distinct_grows(s, b + 1, a);
        }
    }
}

/// Every number up to the number of recorded addresses is the number of a branch.
proof fn lemma_number_used(s: Steps, n: int, k: nat)
    requires
        0 <= n,
        1 <= k <= s.distinct(n),
    ensures
        has_number(s.branches(n), k),
    decreases n,
{
    if n > 0 {
        if k <= s.distinct(n - 1) {
            lemma_number_used(s, n - 1, k);
            let v = choose|v: u64| #[trigger]
                s.branches(n - 1).contains_key(v) && s.branches(n - 1)[v].branch_id == k;
            law_branches_grow(s, n - 1, n);
            assert(s.branches(n).contains_key(v) && s.branches(n)[v].branch_id == k);
        } else {
            let v = s.vaddrs[n - 1];
            assert(s.first(v, n) == Some(n - 1));
            assert(s.branches(n).contains_key(v) && s.branches(n)[v].branch_id == k);
        }
    }
}

/// There are as many branches as addresses were recorded.
proof fn lemma_branch_total(s: Steps, n: int)
    requires
        0 <= n,
    ensures
        s.branches(n).dom().finite(),
        s.branches(n).dom().len() == s.distinct(n),
    decreases n,
{
    if n == 0 {
        assert(s.branches(0).dom() =~= Set::empty());
    } else {
        lemma_branch_total(s, n - 1);
        let v = s.vaddrs[n - 1];
        if s.recorded(n - 1) && s.first(v, n - 1) is None {
            assert forall|w: u64| s.branches(n).dom().contains(w) == s.branches(
                n - 1,
            ).dom().insert(v).contains(w) by {}
            assert(s.branches(n).dom() =~= s.branches(n - 1).dom().insert(v));
        } else {
            assert forall|w: u64| s.branches(n).dom().contains(w) == s.branches(
                n - 1,
            ).dom().contains(w) by {}
            assert(s.branches(n).dom() =~= s.branches(n - 1).dom());
        }
    }
}

/// The first `k` rows of a trace.
pub open spec fn cut(s: Steps, k: int) -> Steps {
    Steps {
        vaddrs: s.vaddrs.take(k),
        insns: s.insns.take(k),
        regs: s.regs.take(k),
        text_offset: s.text_offset,
        frames: s.frames.take(k),
    }
}

/// Whether a trace has an instruction word, registers and a frame or its absence for every step.
pub open spec fn is_complete(s: Steps) -> bool {
    &&& s.insns.len() == s.vaddrs.len()
    &&& s.regs.len() == s.vaddrs.len()
    &&& s.frames.len() == s.vaddrs.len()
}

/// Before its last row, a cut trace does not differ from the whole.
proof fn lemma_cut_agrees(s: Steps, k: int, v: u64, n: int)
    requires
        is_complete(s),
        0 <= n < k <= s.vaddrs.len(),
    ensures
        cut(s, k).first(v, n) == s.first(v, n),
        cut(s, k).goto_count(v, n) == s.goto_count(v, n),
        cut(s, k).next_count(v, n) == s.next_count(v, n),
        cut(s, k).distinct(n) == s.distinct(n),
    decreases n,
{
    if n > 0 {
        lemma_cut_agrees(s, k, v, n - 1);
        lemma_cut_agrees(s, k, s.vaddrs[n - 1], n - 1);
        let c = cut(s, k);
        assert(c.vaddrs[n - 1] == s.vaddrs[n - 1]);
        assert(c.insns[n - 1] == s.insns[n - 1]);
        assert(c.regs[n] == s.regs[n]);
        assert(c.recorded(n - 1) == s.recorded(n - 1));
        assert(c.goto_pc(n - 1) == s.goto_pc(n - 1));
        assert(c.next_pc(n - 1) == s.next_pc(n - 1));
    }
}

/// The last step of a trace says nothing, as the registers behind it are not known: the branches of the
/// first `k` rows are those of the first `k - 1` steps of the whole trace.
pub proof fn law_cut_trace(s: Steps, k: int)
    requires
        is_complete(s),
        1 <= k <= s.vaddrs.len(),
    ensures
        cut(s, k).branches(k) == s.branches(k - 1),
{
    let c = cut(s, k);
    let m = k - 1;
    lemma_not_recorded(c, m);
    assert forall|v: u64|
        c.first(v, m) == s.first(v, m) && (c.first(v, m) is Some ==> c.branch(v, m) == s.branch(
            v,
            m,
        )) by {
        lemma_cut_agrees(s, k, v, m);
        lemma_first(s, v, m);
        if let Some(first) = s.first(v, m) {
            lemma_cut_agrees(s, k, v, first + 1);
            assert(c.frames[first] == s.frames[first]);
        }
    }
    assert(c.branches(m) =~= s.branches(m));
}

/// Whether the debug information can give one frame only for every address of a trace, so that every
/// lookup of it gives the same.
pub open spec fn frames_are_fixed(loader: addr2line::Loader, vaddrs: Seq<u64>) -> bool {
    forall|i: int, f: Option<FrameModel>, g: Option<FrameModel>|
        0 <= i < vaddrs.len() && #[trigger] may_find_frame(loader, vaddrs[i], f)
            && #[trigger] may_find_frame(loader, vaddrs[i], g) ==> f == g
}

/// Whatever the debug information answers, the branches that are found in a trace are numbered from 1
/// without gaps, each with its own number.
pub proof fn law_found_branches_are_numbered(
    vaddrs: Seq<u64>,
    insns: Seq<u64>,
    regs: Seq<[u64; 12]>,
    dwarf: Dwarf<'_>,
    branches: Branches,
)
    requires
        branches_found(vaddrs, insns, regs, dwarf, Ok(branches)),
    ensures
        is_numbered(branch_views(branches@)),
{
    let n = vaddrs.len() as int;
    let frames = lemma_frames_behind(vaddrs, insns, regs, dwarf, branches);
    law_branch_numbers(
        steps_of(
            vaddrs,
            insns,
            regs,
            section_begin(dwarf.data@, ".text"@),
            model_lines(frames),
        ),
        n,
    );
}

/// The frames that found branches come from.
proof fn lemma_frames_behind(
    vaddrs: Seq<u64>,
    insns: Seq<u64>,
    regs: Seq<[u64; 12]>,
    dwarf: Dwarf<'_>,
    branches: Branches,
) -> (frames: Seq<Option<FrameModel>>)
    requires
        branches_found(vaddrs, insns, regs, dwarf, Ok(branches)),
    ensures
        may_find_frames(*dwarf.loader, vaddrs, frames),
        branch_views(branches@) == steps_of(
            vaddrs,
            insns,
            regs,
            section_begin(dwarf.data@, ".text"@),
            model_lines(frames),
        ).branches(vaddrs.len() as int),
{
    choose|frames: Seq<Option<FrameModel>>|
        {
            &&& #[trigger] may_find_frames(*dwarf.loader, vaddrs, frames)
            &&& branch_views(branches@) == steps_of(
                vaddrs,
                insns,
                regs,
                section_begin(dwarf.data@, ".text"@),
                model_lines(frames),
            ).branches(vaddrs.len() as int)
        }
}

/// The branches that are found in the first `k` rows of a trace stay in those that are found in the
/// whole trace, unless the debug information answers otherwise when it is asked again for one of the
/// addresses before row `k`.
pub proof fn law_branches_of_a_cut_trace(
    vaddrs: Seq<u64>,
    insns: Seq<u64>,
    regs: Seq<[u64; 12]>,
    dwarf: Dwarf<'_>,
    k: int,
    part: Branches,
    full: Branches,
)
    requires
        insns.len() == vaddrs.len(),
        regs.len() == vaddrs.len(),
        0 <= k <= vaddrs.len(),
        k > 0 ==> frames_are_fixed(*dwarf.loader, vaddrs.take(k - 1)),
        branches_found(vaddrs.take(k), insns.take(k), regs.take(k), dwarf, Ok(part)),
        branches_found(vaddrs, insns, regs, dwarf, Ok(full)),
    ensures
        grows_to(branch_views(part@), branch_views(full@)),
        is_numbered(branch_views(full@)),
{
    let text_offset = section_begin(dwarf.data@, ".text"@);
    let n = vaddrs.len() as int;
    law_found_branches_are_numbered(vaddrs, insns, regs, dwarf, full);
    let few = lemma_frames_behind(vaddrs.take(k), insns.take(k), regs.take(k), dwarf, part);
    let all = lemma_frames_behind(vaddrs, insns, regs, dwarf, full);
    let s = steps_of(vaddrs, insns, regs, text_offset, model_lines(all));
    let c = steps_of(
        vaddrs.take(k),
        insns.take(k),
        regs.take(k),
        text_offset,
        model_lines(few),
    );
    if k > 0 {
        let m = k - 1;
        let d = cut(s, k);
        assert forall|i: int| 0 <= i < m implies c.frames[i] == d.frames[i] by {
            assert(vaddrs.take(k)[i] == vaddrs[i]);
            assert(vaddrs.take(m)[i] == vaddrs[i]);
            assert(may_find_frame(*dwarf.loader, vaddrs.take(m)[i], few[i]));
            assert(may_find_frame(*dwarf.loader, vaddrs.take(m)[i], all[i]));
        }
        // The last row is not recorded, whatever its frame.
        lemma_not_recorded(c, m);
        lemma_not_recorded(d, m);
        lemma_branches_agree(c, d, m);
        law_cut_trace(s, k);
        law_branches_grow(s, m, n);
    } else {
        assert(c.branches(0) =~= Map::<u64, BranchModel>::empty());
    }
}

} // verus!
