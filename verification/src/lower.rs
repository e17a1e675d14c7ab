//! The checks an SSA program must pass before it is lowered to the IR.
use vstd::prelude::*;

use crate::opcode::Opcode;
use crate::ssa::{SsaBlock, SsaOperationKind, SsaProgram};

verus! {

/// Why an SSA program cannot be lowered.
#[derive(Debug, Clone, Copy, PartialEq, Eq, Structural)]
pub enum LowerError {
    UnsupportedOpcode(Opcode),
}

/// An operation that the IR has no counterpart for.
pub open spec fn unsupported(kind: SsaOperationKind) -> bool {
    kind == SsaOperationKind::Opcode(Opcode::Pc) || kind == SsaOperationKind::Opcode(Opcode::MSize)
}

/// Operation `k` of block `b` comes before operation `l` of block `c`.
pub open spec fn comes_before(b: int, k: int, c: int, l: int) -> bool {
    b < c || (b == c && k < l)
}

/// No operation before operation `k` of block `b` is unsupported.
pub open spec fn supported_before(blocks: Seq<SsaBlock>, b: int, k: int) -> bool {
    forall|c: int, l: int|
        0 <= c < blocks.len() && 0 <= l < blocks[c].operations@.len() && comes_before(c, l, b, k)
            ==> !unsupported(#[trigger] blocks[c].operations@[l].kind)
}

/// Refuses the first operation, in block order, that reads the program
/// counter or the memory size.
pub fn validate_supported_operations(ssa: &SsaProgram) -> (r: Result<(), LowerError>)
    ensures
        r is Ok <==> supported_before(ssa.block_list(), ssa.block_list().len() as int, 0),
        r is Ok <==> forall|b: int, k: int|
            0 <= b < ssa.block_list().len() && 0 <= k < ssa.block_list()[b].operations@.len()
                ==> #[trigger] ssa.block_list()[b].operations@[k].kind != SsaOperationKind::Opcode(Opcode::Pc)
                && ssa.block_list()[b].operations@[k].kind != SsaOperationKind::Opcode(Opcode::MSize),
        r matches Err(LowerError::UnsupportedOpcode(op)) ==> op == Opcode::Pc || op == Opcode::MSize,
        r matches Err(LowerError::UnsupportedOpcode(op)) ==> exists|b: int, k: int|
            0 <= b < ssa.block_list().len() && 0 <= k < ssa.block_list()[b].operations@.len()
                && #[trigger] ssa.block_list()[b].operations@[k].kind == SsaOperationKind::Opcode(op)
                && unsupported(ssa.block_list()[b].operations@[k].kind) && supported_before(
                ssa.block_list(),
                b,
                k,
            ),
{
    let blocks = ssa.blocks();
    let mut b: usize = 0;
    while b < blocks.len()
        invariant
            blocks@ == ssa.block_list(),
            b <= blocks@.len(),
            supported_before(blocks@, b as int, 0),
        decreases blocks@.len() - b,
    {
        let operations = &blocks[b].operations;
        let mut k: usize = 0;
        while k < operations.len()
            invariant
                blocks@ == ssa.block_list(),
                b < blocks@.len(),
                operations@ == blocks@[b as int].operations@,
                k <= operations@.len(),
                supported_before(blocks@, b as int, k as int),
            decreases operations@.len() - k,
        {
            match operations[k].kind {
                SsaOperationKind::Opcode(Opcode::Pc) => {
                    return Err(LowerError::UnsupportedOpcode(Opcode::Pc));
                },
                SsaOperationKind::Opcode(Opcode::MSize) => {
                    return Err(LowerError::UnsupportedOpcode(Opcode::MSize));
                },
                _ => {},
            }
            k = k + 1;
        }
        b = b + 1;
    }
    Ok(())
}

} // verus!
