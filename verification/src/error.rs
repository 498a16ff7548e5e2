//! What can go wrong while coverage is computed.

use crate::text::{decimal, hexadecimal, push_decimal, push_hexadecimal};
use vstd::prelude::*;

verus! {

/// A reason why coverage cannot be computed.
#[derive(Debug)]
pub enum CoverageError {
    /// The bytes are no object file.
    NotAnObject,
    /// The object file has no section of that name.
    NoSection { section: String },
    /// No entry with that tag says anything of that attribute.
    NoAttribute { tag: u16, attribute: u16 },
    /// The debug information cannot be searched at that address.
    NoLocation { vaddr: u64, reason: String },
    /// None of the shared objects has that hash.
    NoExecutable { exec_sha256: String },
    /// The trace has no steps.
    EmptyTrace,
    /// There is no file with debug information.
    NoDebugInfo,
    /// There is no trace in that directory.
    NoTraces { dir: String },
}

/// The text of an error message.
pub open spec fn error_text(error: CoverageError) -> Seq<char> {
    match error {
        CoverageError::NotAnObject => "Not an object file"@,
        CoverageError::NoSection { section } => "Can't get "@ + section@
            + " section begin address"@,
        CoverageError::NoAttribute { tag, attribute } => "No DWARF entry found for DwTag("@
            + decimal(tag as nat) + ") with attribute DwAt("@ + decimal(attribute as nat) + ")"@,
        CoverageError::NoLocation { vaddr, reason } => "failed to find location for address 0x"@
            + hexadecimal(vaddr as nat) + ": "@ + reason@,
        CoverageError::NoExecutable { exec_sha256 } =>
            "Cannot find the shared object that corresponds to: "@ + exec_sha256@,
        CoverageError::EmptyTrace => "Vaddrs is empty!"@,
        CoverageError::NoDebugInfo =>
            "Found no .so/.debug/.so.debug files containing debug sections."@,
        CoverageError::NoTraces { dir } => "Found no regs files in: "@ + dir@
            + "\nAre you sure you run your tests with register tracing enabled"@,
    }
}

impl CoverageError {
    /// The error message.
    pub fn message(&self) -> (text: String)
        ensures
            text@ == error_text(*self),
    {
        let mut text = String::new();
        match self {
            CoverageError::NotAnObject => {
                text.append("Not an object file");
            },
            CoverageError::NoSection { section } => {
                text.append("Can't get ");
                text.append(section.as_str());
                text.append(" section begin address");
            },
            CoverageError::NoAttribute { tag, attribute } => {
                text.append("No DWARF entry found for DwTag(");
                push_decimal(&mut text, *tag as u64);
                text.append(") with attribute DwAt(");
                push_decimal(&mut text, *attribute as u64);
                text.append(")");
            },
            CoverageError::NoLocation { vaddr, reason } => {
                text.append("failed to find location for address 0x");
                push_hexadecimal(&mut text, *vaddr);
                text.append(": ");
                text.append(reason.as_str());
            },
            CoverageError::NoExecutable { exec_sha256 } => {
                text.append("Cannot find the shared object that corresponds to: ");
                text.append(exec_sha256.as_str());
            },
            CoverageError::EmptyTrace => {
                text.append("Vaddrs is empty!");
            },
            CoverageError::NoDebugInfo => {
                text.append("Found no .so/.debug/.so.debug files containing debug sections.");
            },
            CoverageError::NoTraces { dir } => {
                text.append("Found no regs files in: ");
                text.append(dir.as_str());
                text.append("\nAre you sure you run your tests with register tracing enabled");
            },
        }
        assert(text@ =~= error_text(*self));
        text
    }
}

} // verus!
