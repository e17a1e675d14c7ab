# plank_sir

Verified building blocks of the Sensei IR toolchain, written in Verus.

- `src/opcode.rs`, `src/instructions.rs`, `src/decode.rs`: the EVM opcode
  table, instruction starts, and decoding of bytecode into instructions.
- `src/primitive_blocks.rs`, `src/abs_evm.rs`: primitive blocks and the
  abstract stack machine.
- `src/icall.rs`, `src/cfg.rs`, `src/ownership.rs`, `src/classify.rs`:
  inference of internal calls, the provisional control-flow graph, the
  blocks each function owns, and the split into code and data.
- `src/symbolic.rs`, `src/stack_bound.rs`, `src/verify.rs`: symbolic stacks
  and the verification of every function's stack discipline.
- `src/ssa.rs`, `src/ssa_listing.rs`, `src/lower.rs`: lowering of verified
  functions to SSA form, its text listing, and the check an SSA program must
  pass before it is lowered further.
- `src/assembler.rs`, `src/word.rs`, `src/passes.rs`, `src/cache.rs`: the
  assembler with mark resolution, 256-bit words, pass selection, and a
  cached value.
- `src/text.rs`: decimal and hexadecimal text used by the listings;
  `src/ordered.rs`: the members of an ordered set as an increasing list.

`app/` holds what stays outside the verifier: error types with messages,
`Display` adapters, conversions to `alloy_primitives::U256`, and the
command-line options. `tests/` holds the tests.

Left out: everything that works on the Sensei IR program itself, whose
data crate is not part of this repository: the IR passes and analyses
(SwitchPeephole, CriticalEdgeSplitting, SSATransform, the legalizer and the
rest), the debug and release backends, the rest of lowering SSA to the IR, and the
command-line driver that ties them together. The assembler's text listing is
left out as well, since the opcode table it prints from is not available.
