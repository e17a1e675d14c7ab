use vstd::prelude::*;

use crate::instructions::{op_of_byte, strictly_sorted, Instructions};
use crate::opcode::Opcode;

verus! {

/// Instructions after which a primitive block ends: terminators, jumps and
/// unknown bytes.
pub open spec fn ends_block(op: Result<Opcode, u8>) -> bool {
    match op {
        Ok(op) => op.spec_is_terminating() || op == Opcode::Jump || op == Opcode::JumpI,
        Err(_) => true,
    }
}

/// Instruction `k` opens a primitive block: it is the first instruction, it
/// follows a block end, or it is a `JUMPDEST`.
pub open spec fn opens_block(ops: Seq<Result<Opcode, u8>>, k: int) -> bool {
    ||| k == 0
    ||| (0 < k <= ops.len() && ends_block(ops[k - 1]))
    ||| (0 <= k < ops.len() && ops[k] == Ok::<Opcode, u8>(Opcode::JumpDest))
}

/// The opcodes of an instruction index, in instruction order.
pub open spec fn ops_of(code: Seq<u8>, starts: Seq<u32>) -> Seq<Result<Opcode, u8>> {
    Seq::new(starts.len(), |i: int| op_of_byte(code[starts[i] as int]))
}

/// `starts` lists, in order, every instruction below `limit` that opens a block.
pub open spec fn lists_block_starts(
    ops: Seq<Result<Opcode, u8>>,
    starts: Seq<u32>,
    limit: int,
) -> bool {
    &&& strictly_sorted(starts)
    &&& forall|j: int|
        0 <= j < starts.len() ==> #[trigger] starts[j] < limit && opens_block(ops, starts[j] as int)
    &&& forall|k: int|
        0 <= k < limit && opens_block(ops, k) ==> #[trigger] starts.contains(k as u32)
}

/// A jump whose destination is known without running the code: the `PUSH`
/// instruction that supplies the destination, and the destination's PC.
#[derive(Debug, Clone, Copy, PartialEq, Eq, Structural)]
pub struct StaticJumpDestination {
    pub push: u32,
    pub pc: u32,
}

/// The code of a bytecode split into straight-line blocks.
pub struct PrimitiveBlocks {
    blocks: Vec<u32>,
    total_instructions: u32,
}

impl PrimitiveBlocks {
    pub closed spec fn starts(&self) -> Seq<u32> {
        self.blocks@
    }

    pub closed spec fn total(&self) -> nat {
        self.total_instructions as nat
    }

    pub fn new(instructions: Instructions<'_>) -> (r: PrimitiveBlocks)
        requires
            instructions.wf(),
        ensures
            r.total() == instructions.starts().len(),
            lists_block_starts(
                ops_of(instructions.code(), instructions.starts()),
                r.starts(),
                r.total() as int,
            ),
    {
        let ghost ops = ops_of(instructions.code(), instructions.starts());
        let total = instructions.total();
        let mut blocks: Vec<u32> = Vec::new();
        let mut start: u32 = 0;
        let mut i: u32 = 0;
        while i < total
            invariant
                instructions.wf(),
                total == instructions.starts().len(),
                ops == ops_of(instructions.code(), instructions.starts()),
                start <= i <= total,
                opens_block(ops, start as int),
                forall|k: int| start < k < i ==> !#[trigger] opens_block(ops, k),
                i > 0 && ends_block(ops[i - 1]) ==> start == i,
                lists_block_starts(ops, blocks@, start as int),
            decreases total - i,
        {
            let view = instructions.instruction(i);
            let op = view.op;
            let is_jumpdest = match op {
                Ok(Opcode::JumpDest) => true,
                _ => false,
            };
            let ends = match op {
                Ok(o) => o.is_terminating() || o == Opcode::Jump || o == Opcode::JumpI,
                Err(_) => true,
            };
            assert(op == ops[i as int]);
            if is_jumpdest && start < i {
                proof {
                    lemma_push_start(ops, blocks@, start, i);
                }
                blocks.push(start);
                start = i;
            } else if ends {
                proof {
                    lemma_push_start(ops, blocks@, start, (i + 1) as u32);
                }
                blocks.push(start);
                start = i + 1;
            }
            i = i + 1;
        }
        if start < total {
            proof {
                lemma_push_start(ops, blocks@, start, total);
            }
            blocks.push(start);
        } else {
            proof {
                assert forall|k: int|
                    0 <= k < total && opens_block(ops, k) implies #[trigger] blocks@.contains(
                    k as u32,
                ) by {}
            }
        }
        PrimitiveBlocks { blocks, total_instructions: total }
    }

    /// Number of blocks.
    pub fn block_count(&self) -> (r: usize)
        ensures
            r == self.starts().len(),
    {
        self.blocks.len()
    }

    /// The instruction indices of a block: from its start to the next
    /// block's start (or the end of the code).
    pub fn instructions(&self, block: u32) -> (r: core::ops::Range<u32>)
        requires
            block < self.starts().len(),
        ensures
            r.start == self.starts()[block as int],
            r.end == if block + 1 < self.starts().len() {
                self.starts()[block + 1] as int
            } else {
                self.total() as int
            },
    {
        let start = self.blocks[block as usize];
        let end = if (block as usize) < self.blocks.len() - 1 {
            self.blocks[block as usize + 1]
        } else {
            self.total_instructions
        };
        start..end
    }
}

proof fn lemma_push_start(ops: Seq<Result<Opcode, u8>>, blocks: Seq<u32>, start: u32, next: u32)
    requires
        start < next,
        opens_block(ops, start as int),
        forall|k: int| start < k < next ==> !#[trigger] opens_block(ops, k),
        lists_block_starts(ops, blocks, start as int),
    ensures
        lists_block_starts(ops, blocks.push(start), next as int),
{
    let pushed = blocks.push(start);
    assert forall|k: int| 0 <= k < next && opens_block(ops, k) implies #[trigger] pushed.contains(
        k as u32,
    ) by {
        if k < start {
            assert(blocks.contains(k as u32));
            let j = choose|j: int| 0 <= j < blocks.len() && blocks[j] == k as u32;
            assert(pushed[j] == k as u32);
        } else {
            assert(k == start);
            assert(pushed[blocks.len() as int] == start);
        }
    }
}

} // verus!
