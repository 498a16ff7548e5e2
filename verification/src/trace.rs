//! The files of a register trace.

use byteorder::{ByteOrder, LittleEndian};
use vstd::prelude::*;
use vstd::slice::slice_subrange;

verus! {

/// The 64-bit number that stands in `data` at byte `at`, least significant byte first.
pub open spec fn word_at(data: Seq<u8>, at: int) -> u64 {
    (data[at] + 0x100 * data[at + 1] + 0x1_0000 * data[at + 2] + 0x100_0000 * data[at + 3]
        + 0x1_0000_0000 * data[at + 4] + 0x100_0000_0000 * data[at + 5] + 0x1_0000_0000_0000 * data[
    at + 6] + 0x100_0000_0000_0000 * data[at + 7]) as u64
}

/// `byteorder::LittleEndian::read_u64`: the number in the first eight bytes, least significant byte
/// first. It panics on fewer bytes.
#[verifier::external_body]
fn read_u64(bytes: &[u8]) -> (word: u64)
    requires
        bytes@.len() >= 8,
    ensures
        word == word_at(bytes@, 0),
{
    LittleEndian::read_u64(bytes)
}

/// The number at byte `at`.
fn read_word(data: &[u8], at: usize) -> (word: u64)
    requires
        at + 8 <= data@.len(),
    ensures
        word == word_at(data@, at as int),
{
    let bytes = slice_subrange(data, at, data.len());
    assert(word_at(bytes@, 0) == word_at(data@, at as int));
    read_u64(bytes)
}

/// The executed instruction words: all complete numbers of the file.
pub open spec fn insns_of(data: Seq<u8>) -> Seq<u64> {
    Seq::new((data.len() / 8) as nat, |i: int| word_at(data, 8 * i))
}

/// Reads the executed instruction words. Bytes at the end that make no complete number are left out.
pub fn read_insns(data: &[u8]) -> (insns: Vec<u64>)
    ensures
        insns@ == insns_of(data@),
{
    let mut insns: Vec<u64> = Vec::new();
    let len: usize = data.len();
    let count: usize = len / 8;
    for i in 0..count
        invariant
            len == data@.len(),
            count == len / 8,
            insns@ == insns_of(data@).take(i as int),
    {
        insns.push(read_word(data, 8 * i));
    }
    assert(insns@ == insns_of(data@));
    insns
}

/// The registers of one row as numbers: twelve of them, the program counter last.
pub open spec fn row_at(data: Seq<u8>, i: int) -> Seq<u64> {
    Seq::new(12, |j: int| word_at(data, 96 * i + 8 * j))
}

/// The number of complete rows.
pub open spec fn row_count(data: Seq<u8>) -> nat {
    (data.len() / 96) as nat
}

/// The byte address of the instruction whose index stands in the program counter of row `i`.
pub open spec fn vaddr_at(data: Seq<u8>, i: int) -> u64 {
    (8 * row_at(data, i)[11] % 0x1_0000_0000_0000_0000) as u64
}

/// Reads the addresses of the executed instructions and the registers before each of them. Bytes at
/// the end that make no complete row are left out.
pub fn read_vaddrs(data: &[u8]) -> (trace: (Vec<u64>, Vec<[u64; 12]>))
    ensures
        trace.0@.len() == row_count(data@),
        trace.1@.len() == row_count(data@),
        forall|i: int| 0 <= i < trace.0@.len() ==> #[trigger] trace.0@[i] == vaddr_at(data@, i),
        forall|i: int| 0 <= i < trace.1@.len() ==> (#[trigger] trace.1@[i])@ == row_at(data@, i),
{
    let mut vaddrs: Vec<u64> = Vec::new();
    let mut regs: Vec<[u64; 12]> = Vec::new();
    let len: usize = data.len();
    let count: usize = len / 96;
    for i in 0..count
        invariant
            len == data@.len(),
            count == len / 96,
            vaddrs@.len() == i,
            regs@.len() == i,
            forall|k: int| 0 <= k < i ==> #[trigger] vaddrs@[k] == vaddr_at(data@, k),
            forall|k: int| 0 <= k < i ==> (#[trigger] regs@[k])@ == row_at(data@, k),
    {
        let mut row: [u64; 12] = [0; 12];
        for j in 0..12
            invariant
                i < count,
                len == data@.len(),
                count == len / 96,
                forall|k: int| 0 <= k < j ==> #[trigger] row@[k] == word_at(data@, 96 * i + 8 * k),
        {
            row[j] = read_word(data, 96 * i + 8 * j);
        }
        assert(row@ =~= row_at(data@, i as int));
        // The program counter counts instructions, which take eight bytes each.
        vaddrs.push(row[11].wrapping_mul(8));
        regs.push(row);
    }
    (vaddrs, regs)
}

/// A row that was cut off at the end of a trace does not change what is read of the rows before it.
pub proof fn law_cut_row(data: Seq<u8>, cut: Seq<u8>)
    requires
        data.len() % 96 == 0,
        cut.len() < 96,
    ensures
        row_count(data + cut) == row_count(data),
        forall|i: int|
            0 <= i < row_count(data) ==> #[trigger] row_at(data + cut, i) == row_at(data, i)
                && vaddr_at(data + cut, i) == vaddr_at(data, i),
{
    assert forall|i: int| 0 <= i < row_count(data) implies #[trigger] row_at(data + cut, i)
        == row_at(data, i) && vaddr_at(data + cut, i) == vaddr_at(data, i) by {
        assert(row_at(data + cut, i) =~= row_at(data, i));
    }
}

/// Byte number `k` of a 64-bit number, the least significant byte being number 0.
pub open spec fn byte_of(word: u64, k: int) -> int
    decreases k,
{
    if k <= 0 {
        word as int % 0x100
    } else {
        byte_of(word / 0x100, k - 1)
    }
}

/// A number that was written with its least significant byte first is read back.
pub proof fn law_words_are_read_back(data: Seq<u8>, at: int, word: u64)
    requires
        0 <= at,
        at + 8 <= data.len(),
        forall|k: int| 0 <= k < 8 ==> #[trigger] data[at + k] == byte_of(word, k),
    ensures
        word_at(data, at) == word,
{
    reveal_with_fuel(byte_of, 8);
    assert(data[at + 0] == byte_of(word, 0));
    assert(data[at + 1] == byte_of(word, 1));
    assert(data[at + 2] == byte_of(word, 2));
    assert(data[at + 3] == byte_of(word, 3));
    assert(data[at + 4] == byte_of(word, 4));
    assert(data[at + 5] == byte_of(word, 5));
    assert(data[at + 6] == byte_of(word, 6));
    assert(data[at + 7] == byte_of(word, 7));
}

} // verus!
