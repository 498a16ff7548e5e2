//! The parts of an SBPF instruction word that branch coverage looks at.

use solana_sbpf::ebpf;
use vstd::prelude::*;

verus! {

/// The opcode of an instruction word: its lowest byte.
pub open spec fn opcode(insn: u64) -> int {
    insn as int % 0x100
}

/// The branch offset of an instruction word, in instructions: its third and fourth byte as a signed
/// 16-bit number, so that backward jumps are negative.
pub open spec fn jump_offset(insn: u64) -> int {
    let raw = insn as int / 0x1_0000 % 0x1_0000;
    if raw < 0x8000 {
        raw
    } else {
        raw - 0x1_0000
    }
}

/// Whether the opcode belongs to one of the two classes of jumps.
pub open spec fn is_jump_class(op: int) -> bool {
    op % 8 == 0x05 || op % 8 == 0x06
}

/// Whether the opcode is a jump that may or may not be taken: a jump other than the unconditional
/// ones, the calls and the exit.
pub open spec fn is_conditional(op: int) -> bool {
    is_jump_class(op) && op != 0x05 && op != 0x06 && op != 0x8d && op != 0x85 && op != 0x95
}

/// `solana_sbpf::ebpf::LD_DW_IMM`, the load of a 64-bit immediate: 0x18.
#[verifier::external_body]
fn ld_dw_imm() -> (op: u8)
    ensures
        op == 0x18,
{
    ebpf::LD_DW_IMM
}

/// `solana_sbpf::ebpf::BPF_JMP64`, the class of 64-bit jumps: 0x05.
#[verifier::external_body]
fn bpf_jmp64() -> (op: u8)
    ensures
        op == 0x05,
{
    ebpf::BPF_JMP64
}

/// `solana_sbpf::ebpf::BPF_JMP32`, the class of 32-bit jumps: 0x06.
#[verifier::external_body]
fn bpf_jmp32() -> (op: u8)
    ensures
        op == 0x06,
{
    ebpf::BPF_JMP32
}

/// `solana_sbpf::ebpf::CALL_REG`, the call through a register: 0x8d.
#[verifier::external_body]
fn call_reg() -> (op: u8)
    ensures
        op == 0x8d,
{
    ebpf::CALL_REG
}

/// `solana_sbpf::ebpf::CALL_IMM`, the call of an immediate: 0x85.
#[verifier::external_body]
fn call_imm() -> (op: u8)
    ensures
        op == 0x85,
{
    ebpf::CALL_IMM
}

/// `solana_sbpf::ebpf::EXIT`, the return from a function: 0x95.
#[verifier::external_body]
fn exit() -> (op: u8)
    ensures
        op == 0x95,
{
    ebpf::EXIT
}

/// The opcode of an instruction word.
pub fn opcode_of(insn: u64) -> (op: u8)
    ensures
        op == opcode(insn),
        op as int == insn as int % 0x100,
{
    (insn % 0x100) as u8
}

/// The branch offset of an instruction word, in instructions.
pub fn jump_offset_of(insn: u64) -> (offset: i64)
    ensures
        offset == jump_offset(insn),
        -0x8000 <= offset < 0x8000,
        (insn as int / 0x1_0000 - offset) % 0x1_0000 == 0,
{
    let raw: i64 = (insn / 0x1_0000 % 0x1_0000) as i64;
    if raw < 0x8000 {
        raw
    } else {
        raw - 0x1_0000
    }
}

/// Tests whether the opcode belongs to one of the two classes of jumps.
pub fn in_jump_class(op: u8) -> (b: bool)
    ensures
        b == is_jump_class(op as int),
        b == (op % 8 == 5 || op % 8 == 6),
{
    // A wide load spans two slots, but a trace holds executed addresses: the second slot is not
    // among them.
    if op == ld_dw_imm() {
        return false;
    }
    let class: u8 = op % 8;
    class == bpf_jmp32() || class == bpf_jmp64()
}

/// Tests whether the opcode is a jump that may or may not be taken.
pub fn is_conditional_jump(op: u8) -> (b: bool)
    ensures
        b == is_conditional(op as int),
        b == ((op % 8 == 5 || op % 8 == 6) && op != 0x05 && op != 0x06 && op != 0x85 && op != 0x8d
            && op != 0x95),
{
    in_jump_class(op) && op != bpf_jmp32() && op != bpf_jmp64() && op != call_reg() && op
        != call_imm() && op != exit()
}

} // verus!
