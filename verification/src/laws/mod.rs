//! What the operations are for: for each, what its result must satisfy, said of its inputs and its
//! result alone.

pub mod branch;
pub mod coverage;
pub mod disassembly;
pub mod dwarf;
pub mod report;
pub mod run;
pub mod text;
pub mod toolchain;
pub mod trace;
pub mod util;
pub mod version;
