//! Hashes, section addresses and the selection of files.

use crate::debug_info::{section_address, section_addresses};
use crate::error::CoverageError;
use crate::order::str_same;
use crate::text::{chars_of, digit, string_of, trim, trim_chars};
use sha2::{Digest, Sha256};
use vstd::prelude::*;
use vstd::slice::slice_subrange;
use vstd::utf8::encode_utf8;

verus! {

/// The SHA-256 hash of a byte string.
pub uninterp spec fn sha256(data: Seq<u8>) -> Seq<u8>;

/// `sha2::Sha256::digest`: the hash has 32 bytes and depends on the hashed bytes alone, and `sha256`
/// names it.
#[verifier::external_body]
fn sha256_digest(data: &[u8]) -> (hash: Vec<u8>)
    ensures
        hash@ == sha256(data@),
        hash@.len() == 32,
{
    Sha256::digest(data).to_vec()
}

/// Two hexadecimal digits in lower case for every byte, the high one first.
pub open spec fn hex_text(data: Seq<u8>) -> Seq<char> {
    Seq::new(
        2 * data.len(),
        |i: int|
            if i % 2 == 0 {
                digit(data[i / 2] as int / 16)
            } else {
                digit(data[i / 2] as int % 16)
            },
    )
}

/// `hex::encode`: two hexadecimal digits in lower case for every byte.
#[verifier::external_body]
fn hex_encode(data: &[u8]) -> (text: String)
    ensures
        text@ == hex_text(data@),
{
    hex::encode(data)
}

/// The SHA-256 hash of `slice` in hexadecimal notation.
pub fn compute_hash(slice: &[u8]) -> (hash: String)
    ensures
        hash@ == hex_text(sha256(slice@)),
        hash@.len() == 64,
{
    let digest = sha256_digest(slice);
    hex_encode(digest.as_slice())
}

/// The address at which a section of an object file begins.
pub fn get_section_start_address(data: &[u8], section: &str) -> (address: Result<
    u64,
    CoverageError,
>)
    ensures
        section_start(data@, section@, address),
{
    match section_address(data, section.as_bytes()) {
        Some(Some(address)) => Ok(address),
        Some(None) => Err(CoverageError::NoSection { section: section.to_owned() }),
        None => Err(CoverageError::NotAnObject),
    }
}

/// Whether the bytes are an object file that has a section of that name.
pub open spec fn has_section(data: Seq<u8>, section: Seq<char>) -> bool {
    section_addresses(data) matches Some(sections) && sections.contains_key(encode_utf8(section))
}

/// The address at which a section of an object file begins.
pub open spec fn section_begin(data: Seq<u8>, section: Seq<char>) -> u64 {
    section_addresses(data)->0[encode_utf8(section)]
}

/// Whether looking for the begin of a section of an object file gives `address`: the begin where
/// there is such a section, the error that names the section where there is none, and another error
/// for bytes that are no object file.
pub open spec fn section_start(
    data: Seq<u8>,
    section: Seq<char>,
    address: Result<u64, CoverageError>,
) -> bool {
    if has_section(data, section) {
        address == Ok::<u64, CoverageError>(section_begin(data, section))
    } else if section_addresses(data) is Some {
        address matches Err(CoverageError::NoSection { section: missing }) && missing@ == section
    } else {
        address == Err::<u64, CoverageError>(CoverageError::NotAnObject)
    }
}

/// What a command wrote, byte for byte as characters and without the white space at both ends.
pub open spec fn output_text(stdout: Seq<u8>) -> Seq<char> {
    trim(stdout.map_values(|byte: u8| byte as char))
}

/// What a command wrote, byte for byte as characters and without the white space at both ends.
pub fn command_output(stdout: &[u8]) -> (text: String)
    ensures
        text@ == output_text(stdout@),
{
    let mut chars: Vec<char> = Vec::new();
    for i in 0..stdout.len()
        invariant
            chars@ == stdout@.map_values(|byte: u8| byte as char).take(i as int),
    {
        chars.push(stdout[i] as char);
    }
    assert(chars@ == stdout@.map_values(|byte: u8| byte as char));
    string_of(trim_chars(chars.as_slice()))
}

/// What stands behind the last dot of a file name. A name without a dot, and a name with no other dot
/// than its first character, has no extension; nor has `..`.
pub open spec fn extension(name: Seq<char>) -> Option<Seq<char>> {
    if name == ".."@ {
        None
    } else {
        extension_from(name, name.len() as int)
    }
}

/// What stands behind the last dot before position `end` that is not the first character.
pub open spec fn extension_from(name: Seq<char>, end: int) -> Option<Seq<char>>
    decreases end,
{
    if end <= 1 || end > name.len() {
        None
    } else if name[end - 1] == '.' {
        Some(name.subrange(end, name.len() as int))
    } else {
        extension_from(name, end - 1)
    }
}

/// Tests whether a file name has the given extension.
pub fn has_extension(name: &str, ext: &str) -> (b: bool)
    ensures
        b == (extension(name@) == Some(ext@)),
{
    if str_same(name, "..") {
        return false;
    }
    let chars = chars_of(name);
    let all: &[char] = chars.as_slice();
    let mut end: usize = all.len();
    while end > 1
        invariant
            all@ == name@,
            end <= name@.len(),
            extension(name@) == extension_from(name@, end as int),
        decreases end,
    {
        if all[end - 1] == '.' {
            let found = string_of(slice_subrange(all, end, all.len()));
            return str_same(found.as_str(), ext);
        }
        end = end - 1;
    }
    false
}

/// A directory entry: its name, and whether it is a file.
#[derive(Debug)]
pub struct DirEntry {
    pub name: String,
    pub is_file: bool,
}

/// Whether a directory entry is a file with the given extension.
pub open spec fn selected(entry: DirEntry, ext: Seq<char>) -> bool {
    entry.is_file && extension(entry.name@) == Some(ext)
}

/// The positions of the files with the given extension among the first `n` entries.
pub open spec fn selected_positions(entries: Seq<DirEntry>, ext: Seq<char>, n: int) -> Seq<usize>
    decreases n,
{
    if n <= 0 {
        seq![]
    } else if selected(entries[n - 1], ext) {
        selected_positions(entries, ext, n - 1).push((n - 1) as usize)
    } else {
        selected_positions(entries, ext, n - 1)
    }
}

/// The positions of the files with the given extension among directory entries.
pub fn find_files_with_extension(entries: &Vec<DirEntry>, extension: &str) -> (found: Vec<usize>)
    ensures
        found@ == selected_positions(entries@, extension@, entries@.len() as int),
{
    let mut found: Vec<usize> = Vec::new();
    for i in 0..entries.len()
        invariant
            found@ == selected_positions(entries@, extension@, i as int),
    {
        if entries[i].is_file && has_extension(entries[i].name.as_str(), extension) {
            found.push(i);
        }
    }
    found
}

} // verus!
