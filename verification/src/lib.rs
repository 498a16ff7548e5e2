//! Line and branch coverage for SBPF programs, computed from register traces and DWARF debug
//! information.

pub mod branch;
pub mod branch_report;
pub mod colors;
pub mod coverage;
pub mod debug_info;
pub mod dwarf;
pub mod error;
pub mod laws;
pub mod line_report;
pub mod opcode;
pub mod order;
pub mod process;
pub mod run;
pub mod sources;
pub mod text;
pub mod toolchain;
pub mod trace;
pub mod trace_disassemble;
pub mod util;
pub mod version;

pub use dwarf::DebugPath;
