# sbpf_coverage

Line and branch coverage for SBPF programs. The virtual machine records, for every executed
instruction, its registers and its instruction word; the debug information of the program says which
source line an address belongs to. From both the library computes reports in the `lcov` format, or an
annotated disassembly of the trace.

The library in `src/` is verified with Verus:

- `trace` reads the files of a register trace.
- `debug_info` and `dwarf` learn from an object file which source lines its addresses have, and match
  traces with programs.
- `opcode`, `branch` and `branch_report` find the conditional jumps of a trace and report which of
  their directions were taken.
- `coverage` and `line_report` count how often every source line was executed.
- `process` puts the reports on a trace together.
- `toolchain` and `version` find out which compiler made a program and where its sources lie.
- `trace_disassemble` annotates a trace with its disassembly and its source lines; `colors` says what
  its colour codes change.
- `run` decides what is done when, and words the messages.
- `text`, `order`, `sources`, `util` and `error` serve the others.

What the library believes of the crates it calls (`addr2line`, `object`, `sha2`, `hex`, `byteorder`,
`solana-sbpf`) stands in the contracts of small wrappers marked `external_body`. The properties that
relate several functions are proof functions whose names begin with `law_`.

The program in `app/` reads the files, runs the compilers it asks for their versions, calls the
library and writes the reports.
