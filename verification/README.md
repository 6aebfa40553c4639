# ilcc

A verified front end for CIL, the bytecode of .NET assemblies.

- `src/cil.rs` — the intermediate representation: instructions, basic blocks, methods,
  assemblies; tokens and block labels.
- `src/text.rs` — how the IR is written out as text.
- `src/parsers/decode.rs` — decoding one instruction; `spec_decode` is the opcode table.
- `src/parsers/disasm.rs` — splitting a method's code into basic blocks; `is_disassembly`
  states what the blocks are.
- `src/parsers/disasm_model.rs` — the block splitter as a state machine, which fixes its
  result exactly.
- `src/parsers/disasm_moved.rs` — the splitting does not depend on where the code stands in
  the image.
- `src/parsers/dotscope.rs` — building the IR of an assembly from its bytes: the metadata
  reader is called behind small trusted wrappers, and what it records is parsed by verified
  code.
- `src/analysis.rs` — recording the arcs between blocks.
- `app/main.rs` — the command-line program: reads the assembly's file, runs the library,
  prints the blocks.
