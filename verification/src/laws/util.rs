//! Laws of the selection of files and of small texts.

use crate::laws::text::{hexadecimal_digit, is_hexadecimal_digit, law_trim};
use crate::text::{is_whitespace, trim};
use crate::util::{extension, extension_from, hex_text, output_text, selected_positions, DirEntry};
use vstd::prelude::*;

verus! {

/// Every byte has two hexadecimal digits, and the text has no others.
pub proof fn law_hex_text(data: Seq<u8>)
    ensures
        hex_text(data).len() == 2 * data.len(),
        forall|i: int|
            0 <= i < data.len() ==> {
                let high = hex_text(data)[2 * i];
                let low = hex_text(data)[2 * i + 1];
                &&& is_hexadecimal_digit(high) && is_hexadecimal_digit(low)
                &&& 16 * hexadecimal_digit(high) + hexadecimal_digit(low) == #[trigger] data[i]
            },
{
}

/// What a command wrote is its bytes as characters, without the white space at both ends.
pub proof fn law_output(stdout: Seq<u8>)
    ensures
        exists|a: int, b: int| #[trigger] is_output(stdout, a, b, output_text(stdout)),
        output_text(stdout).len() > 0 ==> !is_whitespace(output_text(stdout)[0]) && !is_whitespace(
            output_text(stdout).last(),
        ),
{
    let chars = stdout.map_values(|byte: u8| byte as char);
    law_trim(chars);
    let (a, b) = choose|a: int, b: int|
        {
            &&& 0 <= a <= b <= chars.len()
            &&& #[trigger] chars.subrange(a, b) == trim(chars)
            &&& forall|i: int| 0 <= i < a ==> is_whitespace(#[trigger] chars[i])
            &&& forall|i: int| b <= i < chars.len() ==> is_whitespace(#[trigger] chars[i])
        };
    assert forall|i: int| (0 <= i < a || b <= i < stdout.len()) implies is_whitespace(
        (#[trigger] stdout[i]) as char,
    ) by {
        assert(is_whitespace(chars[i]));
    }
    assert forall|i: int| 0 <= i < b - a implies #[trigger] output_text(stdout)[i] as int == stdout[a
        + i] as int by {
        assert(chars.subrange(a, b)[i] == chars[a + i]);
    }
    assert(is_output(stdout, a, b, output_text(stdout)));
}

/// Whether `text` is made of the bytes from `a` to `b`, and all other bytes are white space.
pub open spec fn is_output(stdout: Seq<u8>, a: int, b: int, text: Seq<char>) -> bool {
    &&& 0 <= a <= b <= stdout.len()
    &&& text.len() == b - a
    &&& forall|i: int| 0 <= i < b - a ==> #[trigger] text[i] as int == stdout[a + i] as int
    &&& forall|i: int|
        0 <= i < a || b <= i < stdout.len() ==> is_whitespace((#[trigger] stdout[i]) as char)
}

proof fn lemma_extension_from(stem: Seq<char>, ext: Seq<char>, end: int)
    requires
        stem.len() > 0,
        !ext.contains('.'),
        stem.len() < end <= stem.len() + 1 + ext.len(),
    ensures
        extension_from(stem + seq!['.'] + ext, end) == Some(ext),
    decreases end,
{
    let name = stem + seq!['.'] + ext;
    if end == stem.len() + 1 {
        assert(name.subrange(end, name.len() as int) =~= ext);
    } else {
        assert(name[end - 1] == ext[end - 2 - stem.len()]);
        assert(ext.contains(ext[end - 2 - stem.len()]));
        lemma_extension_from(stem, ext, end - 1);
    }
}

/// What stands behind the last dot of a name is its extension, if something stands before the dot.
pub proof fn law_extension(stem: Seq<char>, ext: Seq<char>)
    requires
        stem.len() > 0,
        !ext.contains('.'),
        stem + seq!['.'] + ext != seq!['.', '.'],
    ensures
        extension(stem + seq!['.'] + ext) == Some(ext),
{
    reveal_strlit("..");
    assert(".."@ =~= seq!['.', '.']);
    lemma_extension_from(stem, ext, stem.len() as int + 1 + ext.len());
}

proof fn lemma_no_extension_from(name: Seq<char>, end: int)
    requires
        end <= name.len(),
        forall|i: int| 0 < i < name.len() ==> #[trigger] name[i] != '.',
    ensures
        extension_from(name, end) is None,
    decreases end,
{
    if end > 1 {
        lemma_no_extension_from(name, end - 1);
    }
}

/// A name with no dot but its first character has no extension, and neither has `..`.
pub proof fn law_no_extension(name: Seq<char>)
    requires
        name == seq!['.', '.'] || forall|i: int| 0 < i < name.len() ==> #[trigger] name[i] != '.',
    ensures
        extension(name) is None,
{
    reveal_strlit("..");
    assert(".."@ =~= seq!['.', '.']);
    if name != seq!['.', '.'] {
        lemma_no_extension_from(name, name.len() as int);
    }
}

proof fn lemma_selected(entries: Seq<DirEntry>, ext: Seq<char>, n: int)
    requires
        0 <= n <= entries.len(),
        entries.len() <= usize::MAX,
    ensures
        ({
            let found = selected_positions(entries, ext, n);
            &&& forall|m: int|
                0 <= m < found.len() ==> (#[trigger] found[m]) < n && entries[found[m] as int].is_file
                    && extension(entries[found[m] as int].name@) == Some(ext)
            &&& forall|m: int, k: int|
                0 <= m < k < found.len() ==> #[trigger] found[m] < #[trigger] found[k]
            &&& forall|i: int|
                0 <= i < n && (#[trigger] entries[i]).is_file && extension(entries[i].name@) == Some(
                    ext,
                ) ==> found.contains(i as usize)
        }),
    decreases n,
{
    if n > 0 {
        lemma_selected(entries, ext, n - 1);
        let before = selected_positions(entries, ext, n - 1);
        let found = selected_positions(entries, ext, n);
        assert forall|i: int|
            0 <= i < n && (#[trigger] entries[i]).is_file && extension(entries[i].name@) == Some(
                ext,
            ) implies found.contains(i as usize) by {
            if i < n - 1 {
                assert(before.contains(i as usize));
                let m = choose|m: int| 0 <= m < before.len() && before[m] == i as usize;
                assert(found[m] == i as usize);
            } else {
                assert(found[before.len() as int] == i as usize);
            }
        }
    }
}

/// The positions that are found are those of the files with the extension, each once and in ascending
/// order.
pub proof fn law_selected_files(entries: Seq<DirEntry>, ext: Seq<char>)
    requires
        entries.len() <= usize::MAX,
    ensures
        ({
            let found = selected_positions(entries, ext, entries.len() as int);
            &&& forall|m: int|
                0 <= m < found.len() ==> (#[trigger] found[m]) < entries.len()
                    && entries[found[m] as int].is_file && extension(
                    entries[found[m] as int].name@,
                ) == Some(ext)
            &&& forall|m: int, k: int|
                0 <= m < k < found.len() ==> #[trigger] found[m] < #[trigger] found[k]
            &&& forall|i: int|
                0 <= i < entries.len() && (#[trigger] entries[i]).is_file && extension(
                    entries[i].name@,
                ) == Some(ext) ==> found.contains(i as usize)
        }),
{
    lemma_selected(entries, ext, entries.len() as int);
}

} // verus!
