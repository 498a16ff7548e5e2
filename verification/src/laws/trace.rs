//! Laws of the files of a register trace.

use crate::trace::{byte_of, insns_of, law_words_are_read_back, row_at, row_count, vaddr_at};
use vstd::prelude::*;

verus! {

/// Whether the eight bytes at `at` are those of a number, the least significant first.
pub open spec fn encodes(data: Seq<u8>, at: int, word: u64) -> bool {
    &&& 0 <= at && at + 8 <= data.len()
    &&& forall|k: int| 0 <= k < 8 ==> #[trigger] data[at + k] == byte_of(word, k)
}

/// The bytes of a number, the lowest first, add up to it.
pub proof fn law_bytes(word: u64)
    ensures
        forall|k: int| 0 <= k < 8 ==> 0 <= #[trigger] byte_of(word, k) < 0x100,
        byte_of(word, 0) + 0x100 * byte_of(word, 1) + 0x1_0000 * byte_of(word, 2) + 0x100_0000
            * byte_of(word, 3) + 0x1_0000_0000 * byte_of(word, 4) + 0x100_0000_0000 * byte_of(
            word,
            5,
        ) + 0x1_0000_0000_0000 * byte_of(word, 6) + 0x100_0000_0000_0000 * byte_of(word, 7) == word,
{
    reveal_with_fuel(byte_of, 8);
}

/// All instruction words that were written are read back in their order, and a number that was cut off
/// is not read.
pub proof fn law_instructions_are_read_back(data: Seq<u8>, words: Seq<u64>)
    requires
        8 * words.len() <= data.len() < 8 * words.len() + 8,
        forall|i: int| 0 <= i < words.len() ==> encodes(data, 8 * i, #[trigger] words[i]),
    ensures
        insns_of(data) == words,
{
    assert forall|i: int| 0 <= i < words.len() implies #[trigger] insns_of(data)[i] == words[i] by {
        law_words_are_read_back(data, 8 * i, words[i]);
    }
    assert(insns_of(data) =~= words);
}

/// Whether the bytes from `at` on are those of the twelve numbers of a row.
pub open spec fn encodes_row(data: Seq<u8>, at: int, row: [u64; 12]) -> bool {
    forall|j: int| 0 <= j < 12 ==> encodes(data, at + 8 * j, #[trigger] row@[j])
}

/// All rows that were written are read back in their order, with the address of an instruction being
/// eight times its program counter in 64 bits; a row that was cut off is not read.
pub proof fn law_rows_are_read_back(
    data: Seq<u8>,
    rows: Seq<[u64; 12]>,
    vaddrs: Seq<u64>,
    regs: Seq<[u64; 12]>,
)
    requires
        96 * rows.len() <= data.len() < 96 * rows.len() + 96,
        forall|i: int| 0 <= i < rows.len() ==> encodes_row(data, 96 * i, #[trigger] rows[i]),
        vaddrs.len() == row_count(data),
        regs.len() == row_count(data),
        forall|i: int| 0 <= i < vaddrs.len() ==> #[trigger] vaddrs[i] == vaddr_at(data, i),
        forall|i: int| 0 <= i < regs.len() ==> (#[trigger] regs[i])@ == row_at(data, i),
    ensures
        vaddrs.len() == rows.len(),
        regs.len() == rows.len(),
        forall|i: int| 0 <= i < rows.len() ==> (#[trigger] regs[i])@ == rows[i]@,
        forall|i: int|
            0 <= i < rows.len() ==> (#[trigger] vaddrs[i]) as int == rows[i]@[11] * 8
                % 0x1_0000_0000_0000_0000,
{
    assert forall|i: int| 0 <= i < rows.len() implies #[trigger] row_at(data, i) == rows[i]@ by {
        assert(encodes_row(data, 96 * i, rows[i]));
        assert forall|j: int| 0 <= j < 12 implies row_at(data, i)[j] == #[trigger] rows[i]@[j] by {
            assert(encodes(data, 96 * i + 8 * j, rows[i]@[j]));
            law_words_are_read_back(data, 96 * i + 8 * j, rows[i]@[j]);
        }
        assert(row_at(data, i) =~= rows[i]@);
    }
    assert forall|i: int| 0 <= i < rows.len() implies (#[trigger] vaddrs[i]) as int == rows[i]@[11]
        * 8 % 0x1_0000_0000_0000_0000 by {
        assert(vaddrs[i] == vaddr_at(data, i));
        assert(row_at(data, i) == rows[i]@);
    }
}

} // verus!
