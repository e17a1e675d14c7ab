use vstd::prelude::*;
use vstd::string::*;
use std::collections::{BTreeMap, BTreeSet};

use crate::assembler::Span;
use crate::decode::{op_text, pcs, push_op, DecodedBytecode, Instruction};
use crate::instructions::{lemma_starts_sorted, strictly_sorted};
use crate::opcode::Opcode;
use crate::ordered::{increasing, sorted_members};
use crate::primitive_blocks::StaticJumpDestination;
use crate::text::{dec_text, hex_min_text, hex_text, joined, pc_range_text, push_dec, push_hex, push_hex_min, push_pc_range};

verus! {

/// How a call was recognised.
#[derive(Debug, Clone, Copy, PartialEq, Eq, Structural)]
pub enum CallInferenceKind {
    /// `PUSH dest; JUMP; JUMPDEST` where the continuation is no jump target.
    ExactPattern,
    /// A direct jump into a function entry that some exact call established.
    PropagatedDestination,
}

/// A `JUMP` recognised as an internal call.
#[derive(Debug, Clone, Copy, PartialEq, Eq, Structural)]
pub struct InferredCall {
    pub jump: u32,
    pub destination_push: u32,
    pub destination_pc: u32,
    pub continuation_pc: Option<u32>,
    pub function: u32,
    pub kind: CallInferenceKind,
}

/// An internal function, known by its entry PC.
#[derive(Debug, Clone, Copy, PartialEq, Eq, Structural)]
pub struct InferredFunction {
    pub entry_pc: u32,
}

/// A straight-line run of instructions in which calls with a continuation do
/// not end the block.
#[derive(Debug, Clone, Copy, PartialEq, Eq, Structural)]
pub struct CodeBlock {
    pub instructions: Span,
    pub start_pc: u32,
    pub end_pc: u32,
}

/// `op` is `JUMP` or `JUMPI`.
pub open spec fn is_jump_op(op: Result<Opcode, u8>) -> bool {
    op == Ok::<Opcode, u8>(Opcode::Jump) || op == Ok::<Opcode, u8>(Opcode::JumpI)
}

/// `op` is a known terminating opcode.
pub open spec fn is_terminating_op(op: Result<Opcode, u8>) -> bool {
    op matches Ok(o) && o.spec_is_terminating()
}

/// The call at `i` keeps its block open: it has a continuation.
pub open spec fn merged_call(calls: Seq<Option<InferredCall>>, i: int) -> bool {
    calls[i] matches Some(c) && c.continuation_pc is Some
}

/// A call-aware block ends after instruction `i`.
pub open spec fn ends_code_block(
    ins: Seq<Instruction>,
    calls: Seq<Option<InferredCall>>,
    i: int,
) -> bool {
    ||| ((is_jump_op(ins[i].op) || ins[i].op is Err) && !merged_call(calls, i))
    ||| is_terminating_op(ins[i].op)
}

/// Instruction `k` (or the end, `k == ins.len()`) opens a call-aware block.
pub open spec fn opens_code_block(
    ins: Seq<Instruction>,
    calls: Seq<Option<InferredCall>>,
    k: int,
) -> bool {
    ||| k == 0
    ||| (0 < k <= ins.len() && ends_code_block(ins, calls, k - 1))
    ||| (0 < k < ins.len() && ins[k].op == Ok::<Opcode, u8>(Opcode::JumpDest) && !merged_call(
        calls,
        k - 1,
    ))
}

/// `starts` lists, in order, every instruction below `limit` that opens a
/// call-aware block.
pub open spec fn lists_code_block_starts(
    ins: Seq<Instruction>,
    calls: Seq<Option<InferredCall>>,
    starts: Seq<u32>,
    limit: int,
) -> bool {
    &&& strictly_sorted(starts)
    &&& forall|j: int|
        0 <= j < starts.len() ==> #[trigger] starts[j] < limit && opens_code_block(
            ins,
            calls,
            starts[j] as int,
        )
    &&& forall|k: int|
        0 <= k < limit && opens_code_block(ins, calls, k) ==> #[trigger] starts.contains(k as u32)
}

/// The end of block `b` of a list of block starts over `n` instructions.
pub open spec fn block_end(starts: Seq<u32>, b: int, n: int) -> int {
    if b + 1 < starts.len() {
        starts[b + 1] as int
    } else {
        n
    }
}

/// `blocks` split the instructions into the call-aware blocks: one block per
/// block start, up to the next start, with the PCs its instructions cover.
pub open spec fn is_code_block_split(
    ins: Seq<Instruction>,
    calls: Seq<Option<InferredCall>>,
    blocks: Seq<CodeBlock>,
) -> bool {
    let starts = blocks.map_values(|b: CodeBlock| b.instructions.start);
    &&& lists_code_block_starts(ins, calls, starts, ins.len() as int)
    &&& forall|b: int|
        0 <= b < blocks.len() ==> {
            let blk = #[trigger] blocks[b];
            &&& blk.instructions.end == block_end(starts, b, ins.len() as int)
            &&& blk.instructions.start < blk.instructions.end
            &&& blk.start_pc == ins[blk.instructions.start as int].pc
            &&& blk.end_pc == ins[blk.instructions.end - 1].pc + ins[blk.instructions.end
                - 1].actual_size()
        }
}

/// Instruction `i` lies in block `b`.
pub open spec fn in_block(blocks: Seq<CodeBlock>, b: int, i: int) -> bool {
    0 <= b < blocks.len() && blocks[b].instructions.start <= i < blocks[b].instructions.end
}

/// `pc` is the PC of a `JUMPDEST` instruction.
pub open spec fn is_jumpdest_pc(ins: Seq<Instruction>, pc: u32) -> bool {
    exists|i: int|
        0 <= i < ins.len() && #[trigger] ins[i].pc == pc && ins[i].op == Ok::<Opcode, u8>(
            Opcode::JumpDest,
        )
}

/// The call-aware blocks of some code, with the block of each instruction and
/// of each `JUMPDEST`.
#[derive(Debug, Clone)]
pub struct CodeBlocks {
    blocks: Vec<CodeBlock>,
    jumpdestinations: BTreeMap<u32, u32>,
    instruction_blocks: Vec<u32>,
}

impl CodeBlocks {
    pub closed spec fn block_list(&self) -> Seq<CodeBlock> {
        self.blocks@
    }

    pub closed spec fn jumpdest_map(&self) -> Map<u32, u32> {
        self.jumpdestinations@
    }

    pub closed spec fn block_of(&self) -> Seq<u32> {
        self.instruction_blocks@
    }

    /// The blocks split the instructions as `calls` dictates, each instruction
    /// is mapped to its block, and each `JUMPDEST` PC to the block holding it.
    pub open spec fn describes(
        &self,
        ins: Seq<Instruction>,
        calls: Seq<Option<InferredCall>>,
    ) -> bool {
        &&& is_code_block_split(ins, calls, self.block_list())
        &&& self.block_of().len() == ins.len()
        &&& forall|i: int|
            0 <= i < ins.len() ==> in_block(self.block_list(), #[trigger] self.block_of()[i] as int, i)
        &&& forall|pc: u32|
            #[trigger] self.jumpdest_map().contains_key(pc) <==> is_jumpdest_pc(ins, pc)
        &&& forall|i: int|
            0 <= i < ins.len() && ins[i].op == Ok::<Opcode, u8>(Opcode::JumpDest)
                ==> #[trigger] self.jumpdest_map()[ins[i].pc] == self.block_of()[i]
    }

    /// All blocks, in code order.
    pub fn blocks(&self) -> (r: &Vec<CodeBlock>)
        ensures
            r@ == self.block_list(),
    {
        &self.blocks
    }

    pub fn block(&self, id: u32) -> (r: &CodeBlock)
        requires
            id < self.block_list().len(),
        ensures
            *r == self.block_list()[id as int],
    {
        &self.blocks[id as usize]
    }

    /// The block that holds the `JUMPDEST` at `pc`, if there is one.
    pub fn jumpdest_block(&self, pc: u32) -> (r: Option<u32>)
        ensures
            r == (if self.jumpdest_map().contains_key(pc) {
                Some(self.jumpdest_map()[pc])
            } else {
                None::<u32>
            }),
    {
        match self.jumpdestinations.get(&pc) {
            Some(b) => Some(*b),
            None => None,
        }
    }

    /// The block that holds instruction `instruction`.
    pub fn instruction_block(&self, instruction: u32) -> (r: u32)
        requires
            instruction < self.block_of().len(),
        ensures
            r == self.block_of()[instruction as int],
    {
        self.instruction_blocks[instruction as usize]
    }
}

/// Facts that hold of every decoded instruction.
pub proof fn lemma_decoded_instruction(d: &DecodedBytecode, i: int)
    requires
        d.wf(),
        0 <= i < d.instruction_list().len(),
    ensures
        d.instruction_list()[i].wf(),
        d.instruction_list()[i].pc + d.instruction_list()[i].actual_size() <= d.code().len(),
        d.code().len() <= u32::MAX,
{
    let ins = d.instruction_list();
    assert(ins[i].decodes(d.code(), ins[i].pc as int));
}

/// A strictly increasing sequence of values below `limit` has at most `limit`
/// elements.
pub proof fn lemma_sorted_len(s: Seq<u32>, limit: int)
    requires
        0 <= limit,
        strictly_sorted(s),
        forall|j: int| 0 <= j < s.len() ==> #[trigger] s[j] < limit,
    ensures
        s.len() <= limit,
{
    if s.len() > 0 {
        lemma_sorted_ge_index(s, s.len() - 1);
        assert(s[s.len() - 1] < limit);
    }
}

proof fn lemma_sorted_ge_index(s: Seq<u32>, j: int)
    requires
        strictly_sorted(s),
        0 <= j < s.len(),
    ensures
        s[j] >= j,
    decreases j,
{
    if j > 0 {
        lemma_sorted_ge_index(s, j - 1);
        assert(s[j - 1] < s[j]);
    }
}

/// There are no more blocks than instructions.
pub proof fn lemma_block_count(
    ins: Seq<Instruction>,
    calls: Seq<Option<InferredCall>>,
    blocks: Seq<CodeBlock>,
)
    requires
        is_code_block_split(ins, calls, blocks),
    ensures
        blocks.len() <= ins.len(),
{
    let starts = blocks.map_values(|b: CodeBlock| b.instructions.start);
    lemma_sorted_len(starts, ins.len() as int);
}

/// Code with instructions has blocks, the first starting at the first instruction.
pub proof fn lemma_blocks_nonempty(
    ins: Seq<Instruction>,
    calls: Seq<Option<InferredCall>>,
    blocks: Seq<CodeBlock>,
)
    requires
        is_code_block_split(ins, calls, blocks),
        ins.len() > 0,
    ensures
        blocks.len() > 0,
        blocks[0].instructions.start == 0,
{
    let starts = blocks.map_values(|b: CodeBlock| b.instructions.start);
    let zero: int = 0;
    assert(opens_code_block(ins, calls, zero));
    assert(starts.contains(zero as u32));
    let j = choose|j: int| 0 <= j < starts.len() && starts[j] == 0u32;
    if j > 0 {
        assert(starts[0] < starts[j]);
    }
    assert(starts[0] == blocks[0].instructions.start);
}

/// Decoded instructions come in strictly increasing PC order.
pub proof fn lemma_decoded_pcs_sorted(d: &DecodedBytecode)
    requires
        d.wf(),
    ensures
        forall|i: int, j: int|
            0 <= i < j < d.instruction_list().len() ==> #[trigger] d.instruction_list()[i].pc
                < #[trigger] d.instruction_list()[j].pc,
{
    let ins = d.instruction_list();
    lemma_starts_sorted(d.code(), pcs(ins));
    assert forall|i: int, j: int| 0 <= i < j < ins.len() implies #[trigger] ins[i].pc
        < #[trigger] ins[j].pc by {
        assert(pcs(ins)[i] == ins[i].pc);
        assert(pcs(ins)[j] == ins[j].pc);
    }
}

proof fn lemma_push_code_start(
    ins: Seq<Instruction>,
    calls: Seq<Option<InferredCall>>,
    starts: Seq<u32>,
    start: u32,
    next: u32,
)
    requires
        start < next,
        opens_code_block(ins, calls, start as int),
        forall|k: int| start < k < next ==> !#[trigger] opens_code_block(ins, calls, k),
        lists_code_block_starts(ins, calls, starts, start as int),
    ensures
        lists_code_block_starts(ins, calls, starts.push(start), next as int),
{
    let pushed = starts.push(start);
    assert forall|k: int|
        0 <= k < next && opens_code_block(ins, calls, k) implies #[trigger] pushed.contains(
        k as u32,
    ) by {
        if k < start {
            assert(starts.contains(k as u32));
            let j = choose|j: int| 0 <= j < starts.len() && starts[j] == k as u32;
            assert(pushed[j] == k as u32);
        } else {
            assert(k == start);
            assert(pushed[starts.len() as int] == start);
        }
    }
}

/// The starts of the call-aware blocks, in order.
fn code_block_starts(decoded: &DecodedBytecode, calls: &Vec<Option<InferredCall>>) -> (r: Vec<u32>)
    requires
        decoded.wf(),
        calls@.len() == decoded.instruction_list().len(),
    ensures
        lists_code_block_starts(
            decoded.instruction_list(),
            calls@,
            r@,
            decoded.instruction_list().len() as int,
        ),
{
    let ghost ins = decoded.instruction_list();
    let instructions = decoded.instructions();
    let span = decoded.instruction_span();
    let total = span.end;
    let mut ranges: Vec<u32> = Vec::new();
    let mut start: u32 = 0;
    let mut previous_was_merged_call = false;
    let mut id: u32 = 0;
    while id < total
        invariant
            ins == decoded.instruction_list(),
            instructions@ == ins,
            total == ins.len(),
            calls@.len() == ins.len(),
            start <= id <= total,
            opens_code_block(ins, calls@, start as int),
            forall|k: int| start < k < id ==> !#[trigger] opens_code_block(ins, calls@, k),
            id > 0 && ends_code_block(ins, calls@, id - 1) ==> start == id,
            id > 0 ==> previous_was_merged_call == merged_call(calls@, id - 1),
            id == 0 ==> !previous_was_merged_call,
            lists_code_block_starts(ins, calls@, ranges@, start as int),
        decreases total - id,
    {
        let op = instructions[id as usize].op;
        let is_jumpdest = match op {
            Ok(Opcode::JumpDest) => true,
            _ => false,
        };
        if is_jumpdest && start < id && !previous_was_merged_call {
            proof {
                lemma_push_code_start(ins, calls@, ranges@, start, id);
            }
            ranges.push(start);
            start = id;
        }
        let merged_call = match calls[id as usize] {
            Some(call) => call.continuation_pc.is_some(),
            None => false,
        };
        let jump_or_unknown = match op {
            Ok(Opcode::Jump) | Ok(Opcode::JumpI) | Err(_) => true,
            _ => false,
        };
        let terminating = match op {
            Ok(o) => o.is_terminating(),
            Err(_) => false,
        };
        if (jump_or_unknown && !merged_call) || terminating {
            proof {
                lemma_push_code_start(ins, calls@, ranges@, start, (id + 1) as u32);
            }
            ranges.push(start);
            start = id + 1;
        }
        previous_was_merged_call = merged_call;
        id = id + 1;
    }
    if start < total {
        proof {
            lemma_push_code_start(ins, calls@, ranges@, start, total);
        }
        ranges.push(start);
    }
    ranges
}

/// Splits the code into call-aware blocks: a block ends after a jump, an
/// unknown byte or a terminator, except after a call with a continuation, and
/// a block starts at a `JUMPDEST` unless a call with a continuation precedes it.
fn build_call_aware_blocks(
    decoded: &DecodedBytecode,
    calls: &Vec<Option<InferredCall>>,
) -> (r: CodeBlocks)
    requires
        decoded.wf(),
        calls@.len() == decoded.instruction_list().len(),
    ensures
        r.describes(decoded.instruction_list(), calls@),
{
    let ghost ins = decoded.instruction_list();
    let starts = code_block_starts(decoded, calls);
    let instructions = decoded.instructions();
    let span = decoded.instruction_span();
    let total = span.end;
    proof {
        lemma_decoded_pcs_sorted(decoded);
        if total > 0 {
            let zero: int = 0;
            assert(opens_code_block(ins, calls@, zero));
            assert(starts@.contains(zero as u32));
            let j = choose|j: int| 0 <= j < starts@.len() && starts@[j] == 0u32;
            if j > 0 {
                assert(starts@[0] < starts@[j]);
            }
            assert(starts@[0] == 0);
        } else {
            if starts@.len() > 0 {
                assert(starts@[0] < total);
            }
        }
    }
    proof {
        lemma_sorted_len(starts@, total as int);
    }
    let mut blocks: Vec<CodeBlock> = Vec::new();
    let mut instruction_blocks: Vec<u32> = Vec::new();
    let mut jumpdestinations: BTreeMap<u32, u32> = BTreeMap::new();
    let mut b: usize = 0;
    while b < starts.len()
        invariant
            ins == decoded.instruction_list(),
            instructions@ == ins,
            decoded.wf(),
            total == ins.len(),
            lists_code_block_starts(ins, calls@, starts@, total as int),
            total > 0 ==> starts@.len() > 0 && starts@[0] == 0,
            forall|i: int, j: int| 0 <= i < j < ins.len() ==> #[trigger] ins[i].pc < #[trigger] ins[j].pc,
            b <= starts@.len(),
            starts@.len() <= total,
            blocks@.len() == b,
            forall|k: int|
                0 <= k < b ==> {
                    let blk = #[trigger] blocks@[k];
                    &&& blk.instructions.start == starts@[k]
                    &&& blk.instructions.end == block_end(starts@, k, total as int)
                    &&& blk.instructions.start < blk.instructions.end
                    &&& blk.start_pc == ins[blk.instructions.start as int].pc
                    &&& blk.end_pc == ins[blk.instructions.end - 1].pc
                        + ins[blk.instructions.end - 1].actual_size()
                },
            instruction_blocks@.len() == if b == 0 {
                0
            } else {
                block_end(starts@, b - 1, total as int)
            },
            forall|i: int|
                0 <= i < instruction_blocks@.len() ==> in_block(
                    blocks@,
                    #[trigger] instruction_blocks@[i] as int,
                    i,
                ),
            forall|pc: u32|
                #[trigger] jumpdestinations@.contains_key(pc) <==> exists|i: int|
                    0 <= i < instruction_blocks@.len() && #[trigger] ins[i].pc == pc
                        && ins[i].op == Ok::<Opcode, u8>(Opcode::JumpDest),
            forall|i: int|
                0 <= i < instruction_blocks@.len() && ins[i].op == Ok::<Opcode, u8>(
                    Opcode::JumpDest,
                ) ==> #[trigger] jumpdestinations@[ins[i].pc] == instruction_blocks@[i],
        decreases starts@.len() - b,
    {
        let start = starts[b];
        let end = if b + 1 < starts.len() {
            starts[b + 1]
        } else {
            total
        };
        proof {
            assert(start < total);
            if b + 1 < starts@.len() {
                assert(starts@[b as int] < starts@[b + 1]);
                assert(starts@[b + 1] < total);
            }
            if b > 0 {
                assert(block_end(starts@, b - 1, total as int) == start);
            }
            lemma_decoded_instruction(decoded, start as int);
            lemma_decoded_instruction(decoded, end - 1);
        }
        let first = &instructions[start as usize];
        let last = &instructions[(end - 1) as usize];
        let block_id = b as u32;
        let block = CodeBlock {
            instructions: Span { start, end },
            start_pc: first.pc,
            end_pc: last.actual_byte_range().end,
        };
        blocks.push(block);
        let mut i: u32 = start;
        while i < end
            invariant
                ins == decoded.instruction_list(),
                instructions@ == ins,
                total == ins.len(),
                start <= i <= end <= total,
                block_id == b,
                blocks@.len() == b + 1,
                blocks@[b as int].instructions == (Span { start, end }),
                forall|i: int, j: int| 0 <= i < j < ins.len() ==> #[trigger] ins[i].pc < #[trigger] ins[j].pc,
                instruction_blocks@.len() == i,
                forall|k: int|
                    0 <= k < instruction_blocks@.len() ==> in_block(
                        blocks@,
                        #[trigger] instruction_blocks@[k] as int,
                        k,
                    ),
                forall|pc: u32|
                    #[trigger] jumpdestinations@.contains_key(pc) <==> exists|k: int|
                        0 <= k < instruction_blocks@.len() && #[trigger] ins[k].pc == pc
                            && ins[k].op == Ok::<Opcode, u8>(Opcode::JumpDest),
                forall|k: int|
                    0 <= k < instruction_blocks@.len() && ins[k].op == Ok::<Opcode, u8>(
                        Opcode::JumpDest,
                    ) ==> #[trigger] jumpdestinations@[ins[k].pc] == instruction_blocks@[k],
            decreases end - i,
        {
            let instruction = &instructions[i as usize];
            let ghost old_map = jumpdestinations@;
            let ghost old_blocks = instruction_blocks@;
            instruction_blocks.push(block_id);
            match instruction.op {
                Ok(Opcode::JumpDest) => {
                    jumpdestinations.insert(instruction.pc, block_id);
                    proof {
                        assert forall|pc: u32|
                            #[trigger] jumpdestinations@.contains_key(pc) <==> exists|k: int|
                                0 <= k < instruction_blocks@.len() && #[trigger] ins[k].pc == pc
                                    && ins[k].op == Ok::<Opcode, u8>(Opcode::JumpDest) by {
                            if jumpdestinations@.contains_key(pc) && pc != ins[i as int].pc {
                                assert(old_map.contains_key(pc));
                            }
                            if pc == ins[i as int].pc {
                                assert(ins[i as int].pc == pc);
                            }
                        }
                        assert forall|k: int|
                            0 <= k < instruction_blocks@.len() && ins[k].op == Ok::<Opcode, u8>(
                                Opcode::JumpDest,
                            ) implies #[trigger] jumpdestinations@[ins[k].pc]
                            == instruction_blocks@[k] by {
                            if k < i {
                                assert(ins[k].pc < ins[i as int].pc);
                                assert(old_blocks[k] == instruction_blocks@[k]);
                            }
                        }
                    }
                },
                _ => {
                    proof {
                        assert forall|pc: u32|
                            #[trigger] jumpdestinations@.contains_key(pc) <==> exists|k: int|
                                0 <= k < instruction_blocks@.len() && #[trigger] ins[k].pc == pc
                                    && ins[k].op == Ok::<Opcode, u8>(Opcode::JumpDest) by {
                            if exists|k: int|
                                0 <= k < instruction_blocks@.len() && #[trigger] ins[k].pc == pc
                                    && ins[k].op == Ok::<Opcode, u8>(Opcode::JumpDest) {
                                let k = choose|k: int|
                                    0 <= k < instruction_blocks@.len() && #[trigger] ins[k].pc == pc
                                        && ins[k].op == Ok::<Opcode, u8>(Opcode::JumpDest);
                                assert(k != i);
                                assert(old_map.contains_key(pc));
                            }
                        }
                        assert forall|k: int|
                            0 <= k < instruction_blocks@.len() && ins[k].op == Ok::<Opcode, u8>(
                                Opcode::JumpDest,
                            ) implies #[trigger] jumpdestinations@[ins[k].pc]
                            == instruction_blocks@[k] by {
                            assert(k != i);
                            assert(old_blocks[k] == instruction_blocks@[k]);
                        }
                    }
                },
            }
            i = i + 1;
        }
        b = b + 1;
    }
    proof {
        let starts_view = blocks@.map_values(|blk: CodeBlock| blk.instructions.start);
        assert(starts_view =~= starts@);
        assert forall|pc: u32|
            #[trigger] jumpdestinations@.contains_key(pc) <==> is_jumpdest_pc(ins, pc) by {
            if is_jumpdest_pc(ins, pc) {
                let i = choose|i: int|
                    0 <= i < ins.len() && #[trigger] ins[i].pc == pc && ins[i].op == Ok::<
                        Opcode,
                        u8,
                    >(Opcode::JumpDest);
                assert(ins[i].pc == pc);
            }
        }
        if total == 0 {
            assert(instruction_blocks@.len() == 0);
        }
    }
    CodeBlocks { blocks, jumpdestinations, instruction_blocks }
}

/// Instruction `k` may run right after instruction `i` while internal calls
/// are discovered (`dd`: the destination of each direct jump; `ex`: the exact
/// call patterns). A call continues both at its callee and, when it is an
/// exact pattern, at its continuation.
pub open spec fn call_successor(
    ins: Seq<Instruction>,
    dd: Map<u32, u32>,
    ex: Set<u32>,
    i: int,
    k: int,
) -> bool {
    &&& 0 <= i < ins.len()
    &&& 0 <= k < ins.len()
    &&& match ins[i].op {
        Err(_) => false,
        Ok(op) => if op.spec_is_terminating() {
            false
        } else if op == Opcode::Jump {
            dd.contains_key(i as u32) && ((ex.contains(i as u32) && k == i + 1) || ins[k].pc
                == dd[i as u32])
        } else if op == Opcode::JumpI {
            (dd.contains_key(i as u32) && ins[k].pc == dd[i as u32]) || k == i + 1
        } else {
            k == i + 1
        },
    }
}

/// Discovery starts at the first instruction and at every function entry.
pub open spec fn call_root(ins: Seq<Instruction>, entries: Set<u32>, k: int) -> bool {
    0 <= k < ins.len() && (k == 0 || entries.contains(ins[k].pc))
}

/// `p` is a run of instructions from a root, each step a successor.
pub open spec fn is_call_path(
    ins: Seq<Instruction>,
    dd: Map<u32, u32>,
    ex: Set<u32>,
    entries: Set<u32>,
    p: Seq<int>,
) -> bool {
    &&& p.len() > 0
    &&& call_root(ins, entries, p[0])
    &&& forall|t: int| 0 <= t < p.len() - 1 ==> #[trigger] call_successor(ins, dd, ex, p[t], p[t + 1])
}

/// Instruction `k` is reachable from the roots.
pub open spec fn call_reachable(
    ins: Seq<Instruction>,
    dd: Map<u32, u32>,
    ex: Set<u32>,
    entries: Set<u32>,
    k: int,
) -> bool {
    exists|p: Seq<int>| #[trigger] is_call_path(ins, dd, ex, entries, p) && p.last() == k
}

/// The `JUMP` at `j` is a call: it is reachable, direct, and either an exact
/// pattern or a jump into a known function entry.
pub open spec fn active_call(
    ins: Seq<Instruction>,
    dd: Map<u32, u32>,
    ex: Set<u32>,
    entries: Set<u32>,
    j: u32,
) -> bool {
    &&& call_reachable(ins, dd, ex, entries, j as int)
    &&& ins[j as int].op == Ok::<Opcode, u8>(Opcode::Jump)
    &&& dd.contains_key(j)
    &&& (ex.contains(j) || entries.contains(dd[j]))
}

/// `entries` and `calls` are closed: the calls are exactly the active calls,
/// and the entries exactly their destinations.
pub open spec fn call_fixpoint(
    ins: Seq<Instruction>,
    dd: Map<u32, u32>,
    ex: Set<u32>,
    entries: Set<u32>,
    calls: Set<u32>,
) -> bool {
    &&& forall|j: u32| #[trigger] calls.contains(j) <==> active_call(ins, dd, ex, entries, j)
    &&& forall|f: u32|
        #[trigger] entries.contains(f) <==> exists|j: u32| #[trigger] calls.contains(j) && dd[j] == f
}

/// What discovery keeps while it grows its sets: every call is active, every
/// entry is a call's destination, and both sets lie inside every closed pair.
pub open spec fn discovery_sound(
    ins: Seq<Instruction>,
    dd: Map<u32, u32>,
    ex: Set<u32>,
    entries: Set<u32>,
    calls: Set<u32>,
) -> bool {
    &&& forall|j: u32| #[trigger] calls.contains(j) ==> active_call(ins, dd, ex, entries, j)
    &&& forall|f: u32|
        #[trigger] entries.contains(f) <==> exists|j: u32| #[trigger] calls.contains(j) && dd[j] == f
    &&& forall|g: Set<u32>, b: Set<u32>|
        #[trigger] call_fixpoint(ins, dd, ex, g, b) ==> entries.subset_of(g) && calls.subset_of(b)
}

proof fn lemma_root_reachable(
    ins: Seq<Instruction>,
    dd: Map<u32, u32>,
    ex: Set<u32>,
    entries: Set<u32>,
    k: int,
)
    requires
        call_root(ins, entries, k),
    ensures
        call_reachable(ins, dd, ex, entries, k),
{
    let p = seq![k];
    assert(is_call_path(ins, dd, ex, entries, p));
}

proof fn lemma_reach_extend(
    ins: Seq<Instruction>,
    dd: Map<u32, u32>,
    ex: Set<u32>,
    entries: Set<u32>,
    i: int,
    k: int,
)
    requires
        call_reachable(ins, dd, ex, entries, i),
        call_successor(ins, dd, ex, i, k),
    ensures
        call_reachable(ins, dd, ex, entries, k),
{
    let p = choose|p: Seq<int>| #[trigger] is_call_path(ins, dd, ex, entries, p) && p.last() == i;
    let q = p.push(k);
    assert forall|t: int| 0 <= t < q.len() - 1 implies #[trigger] call_successor(
        ins,
        dd,
        ex,
        q[t],
        q[t + 1],
    ) by {
        if t < p.len() - 1 {
            assert(call_successor(ins, dd, ex, p[t], p[t + 1]));
        }
    }
    assert(is_call_path(ins, dd, ex, entries, q));
}

proof fn lemma_reach_mono(
    ins: Seq<Instruction>,
    dd: Map<u32, u32>,
    ex: Set<u32>,
    entries: Set<u32>,
    more: Set<u32>,
    k: int,
)
    requires
        entries.subset_of(more),
        call_reachable(ins, dd, ex, entries, k),
    ensures
        call_reachable(ins, dd, ex, more, k),
{
    let p = choose|p: Seq<int>| #[trigger] is_call_path(ins, dd, ex, entries, p) && p.last() == k;
    assert forall|t: int| 0 <= t < p.len() - 1 implies #[trigger] call_successor(
        ins,
        dd,
        ex,
        p[t],
        p[t + 1],
    ) by {}
    assert(is_call_path(ins, dd, ex, more, p));
}

proof fn lemma_active_mono(
    ins: Seq<Instruction>,
    dd: Map<u32, u32>,
    ex: Set<u32>,
    entries: Set<u32>,
    more: Set<u32>,
    j: u32,
)
    requires
        entries.subset_of(more),
        active_call(ins, dd, ex, entries, j),
    ensures
        active_call(ins, dd, ex, more, j),
{
    lemma_reach_mono(ins, dd, ex, entries, more, j as int);
}

/// Recording a newly active call keeps discovery sound.
proof fn lemma_insert_call(
    ins: Seq<Instruction>,
    dd: Map<u32, u32>,
    ex: Set<u32>,
    entries: Set<u32>,
    calls: Set<u32>,
    j: u32,
)
    requires
        discovery_sound(ins, dd, ex, entries, calls),
        active_call(ins, dd, ex, entries, j),
    ensures
        discovery_sound(ins, dd, ex, entries.insert(dd[j]), calls.insert(j)),
{
    let e2 = entries.insert(dd[j]);
    let c2 = calls.insert(j);
    assert forall|x: u32| #[trigger] c2.contains(x) implies active_call(ins, dd, ex, e2, x) by {
        lemma_active_mono(ins, dd, ex, entries, e2, x);
    }
    assert forall|f: u32| #[trigger] e2.contains(f) <==> exists|x: u32| #[trigger] c2.contains(x) && dd[x] == f by {
        if e2.contains(f) {
            if f == dd[j] {
                assert(c2.contains(j));
            } else {
                let x = choose|x: u32| #[trigger] calls.contains(x) && dd[x] == f;
                assert(c2.contains(x));
            }
        }
        if exists|x: u32| #[trigger] c2.contains(x) && dd[x] == f {
            let x = choose|x: u32| #[trigger] c2.contains(x) && dd[x] == f;
            if x != j {
                assert(calls.contains(x));
            }
        }
    }
    assert forall|g: Set<u32>, b: Set<u32>| #[trigger] call_fixpoint(ins, dd, ex, g, b) implies e2.subset_of(g)
        && c2.subset_of(b) by {
        lemma_active_mono(ins, dd, ex, entries, g, j);
        assert(b.contains(j));
        assert(g.contains(dd[j]));
    }
}

/// Number of members of `s` below `n`.
pub open spec fn count_below(s: Set<u32>, n: nat) -> nat
    decreases n,
{
    if n == 0 {
        0
    } else {
        count_below(s, (n - 1) as nat) + if s.contains((n - 1) as u32) {
            1nat
        } else {
            0nat
        }
    }
}

proof fn lemma_count_below_le(s: Set<u32>, n: nat)
    requires
        n <= u32::MAX + 1,
    ensures
        count_below(s, n) <= n,
    decreases n,
{
    if n > 0 {
        lemma_count_below_le(s, (n - 1) as nat);
    }
}

proof fn lemma_count_below_grows(s: Set<u32>, t: Set<u32>, n: nat, x: u32)
    requires
        n <= u32::MAX + 1,
        s.subset_of(t),
        x < n,
        t.contains(x),
        !s.contains(x),
    ensures
        count_below(s, n) < count_below(t, n),
    decreases n,
{
    if x < n - 1 {
        lemma_count_below_grows(s, t, (n - 1) as nat, x);
    } else {
        lemma_count_below_mono(s, t, (n - 1) as nat);
    }
}

proof fn lemma_count_below_mono(s: Set<u32>, t: Set<u32>, n: nat)
    requires
        n <= u32::MAX + 1,
        s.subset_of(t),
    ensures
        count_below(s, n) <= count_below(t, n),
    decreases n,
{
    if n > 0 {
        lemma_count_below_mono(s, t, (n - 1) as nat);
    }
}

/// Number of `false` entries.
pub open spec fn count_false(s: Seq<bool>) -> nat
    decreases s.len(),
{
    if s.len() == 0 {
        0
    } else {
        count_false(s.drop_last()) + if s.last() {
            0nat
        } else {
            1nat
        }
    }
}

pub(crate) proof fn lemma_count_false_set(s: Seq<bool>, i: int)
    requires
        0 <= i < s.len(),
        !s[i],
    ensures
        count_false(s.update(i, true)) + 1 == count_false(s),
    decreases s.len(),
{
    let u = s.update(i, true);
    if i < s.len() - 1 {
        assert(u.drop_last() =~= s.drop_last().update(i, true));
        lemma_count_false_set(s.drop_last(), i);
    } else {
        assert(u.drop_last() =~= s.drop_last());
    }
}

proof fn lemma_path_reached(
    ins: Seq<Instruction>,
    dd: Map<u32, u32>,
    ex: Set<u32>,
    entries: Set<u32>,
    reached: Seq<bool>,
    p: Seq<int>,
    t: int,
)
    requires
        reached.len() == ins.len(),
        is_call_path(ins, dd, ex, entries, p),
        0 <= t < p.len(),
        forall|k: int| #[trigger] call_root(ins, entries, k) ==> reached[k],
        forall|k: int, m: int|
            0 <= k < ins.len() && reached[k] && #[trigger] call_successor(ins, dd, ex, k, m) ==> reached[m],
    ensures
        reached[p[t]],
    decreases t,
{
    if t > 0 {
        let u = t - 1;
        lemma_path_reached(ins, dd, ex, entries, reached, p, u);
        assert(call_successor(ins, dd, ex, p[u], p[u + 1]));
    }
}

pub(crate) proof fn lemma_push_contains(s: Seq<u32>, x: u32)
    ensures
        forall|y: u32| s.contains(y) ==> #[trigger] s.push(x).contains(y),
        s.push(x).contains(x),
{
    assert(s.push(x)[s.len() as int] == x);
    assert forall|y: u32| s.contains(y) implies #[trigger] s.push(x).contains(y) by {
        let t = choose|t: int| 0 <= t < s.len() && s[t] == y;
        assert(s.push(x)[t] == y);
    }
}

/// Finds the internal functions and the calls into them: the least pair of
/// entry and call sets that is closed, starting from the first instruction.
#[verifier::spinoff_prover]
fn discover_reachable_calls(
    decoded: &DecodedBytecode,
    direct_destinations: &BTreeMap<u32, u32>,
    exact_calls: &BTreeMap<u32, (u32, u32, u32)>,
) -> (r: (BTreeSet<u32>, BTreeSet<u32>))
    requires
        decoded.wf(),
    ensures
        call_fixpoint(
            decoded.instruction_list(),
            direct_destinations@,
            exact_calls@.dom(),
            r.0@,
            r.1@,
        ),
        forall|g: Set<u32>, b: Set<u32>|
            #[trigger] call_fixpoint(
                decoded.instruction_list(),
                direct_destinations@,
                exact_calls@.dom(),
                g,
                b,
            ) ==> r.0@.subset_of(g) && r.1@.subset_of(b),
{
    let ghost ins = decoded.instruction_list();
    let ghost dd = direct_destinations@;
    let ghost ex = exact_calls@.dom();
    let instructions = decoded.instructions();
    let span = decoded.instruction_span();
    let n = span.end;
    proof {
        decoded.lemma_len();
        lemma_decoded_pcs_sorted(decoded);
    }
    let mut function_entries: BTreeSet<u32> = BTreeSet::new();
    let mut active_calls: BTreeSet<u32> = BTreeSet::new();
    proof {
        assert forall|g: Set<u32>, b: Set<u32>| #[trigger] call_fixpoint(ins, dd, ex, g, b) implies function_entries@.subset_of(
            g,
        ) && active_calls@.subset_of(b) by {}
    }
    loop
        invariant
            ins == decoded.instruction_list(),
            instructions@ == ins,
            decoded.wf(),
            dd == direct_destinations@,
            ex == exact_calls@.dom(),
            n == ins.len(),
            n <= u32::MAX,
            forall|i: int, j: int| 0 <= i < j < ins.len() ==> #[trigger] ins[i].pc < #[trigger] ins[j].pc,
            discovery_sound(ins, dd, ex, function_entries@, active_calls@),
        decreases n - count_below(active_calls@, n as nat),
    {
        let ghost f0 = function_entries@;
        let ghost a0 = active_calls@;
        proof {
            lemma_count_below_le(a0, n as nat);
        }
        let mut changed = false;
        let mut reached: Vec<bool> = Vec::new();
        let mut worklist: Vec<u32> = Vec::new();
        let mut fill: u32 = 0;
        while fill < n
            invariant
                ins == decoded.instruction_list(),
                instructions@ == ins,
                n == ins.len(),
                function_entries@ == f0,
                fill <= n,
                reached@.len() == fill,
                forall|k: int| 0 <= k < fill ==> !#[trigger] reached@[k],
                forall|t: int| 0 <= t < worklist@.len() ==> worklist@[t] < n && call_root(ins, f0, worklist@[t] as int),
                forall|k: int| 0 <= k < fill && #[trigger] call_root(ins, f0, k) ==> worklist@.contains(k as u32),
            decreases n - fill,
        {
            reached.push(false);
            let is_root = fill == 0 || function_entries.contains(&instructions[fill as usize].pc);
            if is_root {
                proof {
                    lemma_push_contains(worklist@, fill);
                }
                worklist.push(fill);
            }
            fill = fill + 1;
        }
        proof {
            assert forall|t: int| 0 <= t < worklist@.len() implies worklist@[t] < n && call_reachable(
                ins,
                dd,
                ex,
                function_entries@,
                worklist@[t] as int,
            ) by {
                lemma_root_reachable(ins, dd, ex, f0, worklist@[t] as int);
            }
            assert forall|k: int| #[trigger] call_root(ins, function_entries@, k) implies reached@[k]
                || worklist@.contains(k as u32) by {}
        }
        while worklist.len() > 0
            invariant
                ins == decoded.instruction_list(),
                instructions@ == ins,
                decoded.wf(),
                dd == direct_destinations@,
                ex == exact_calls@.dom(),
                n == ins.len(),
                n <= u32::MAX,
                forall|i: int, j: int| 0 <= i < j < ins.len() ==> #[trigger] ins[i].pc < #[trigger] ins[j].pc,
                reached@.len() == n,
                discovery_sound(ins, dd, ex, f0, a0),
                discovery_sound(ins, dd, ex, function_entries@, active_calls@),
                f0.subset_of(function_entries@),
                a0.subset_of(active_calls@),
                !changed ==> function_entries@ == f0 && active_calls@ == a0,
                changed ==> (exists|x: u32| #[trigger] function_entries@.contains(x) && !f0.contains(x))
                    || (exists|x: u32| #[trigger] active_calls@.contains(x) && !a0.contains(x)),
                forall|t: int|
                    0 <= t < worklist@.len() ==> #[trigger] worklist@[t] < n && call_reachable(
                        ins,
                        dd,
                        ex,
                        function_entries@,
                        worklist@[t] as int,
                    ),
                forall|k: int|
                    0 <= k < n && #[trigger] reached@[k] ==> call_reachable(
                        ins,
                        dd,
                        ex,
                        function_entries@,
                        k,
                    ),
                forall|k: int, m: int|
                    0 <= k < n && reached@[k] && #[trigger] call_successor(ins, dd, ex, k, m)
                        ==> reached@[m] || worklist@.contains(m as u32),
                forall|k: int|
                    #[trigger] call_root(ins, function_entries@, k) ==> reached@[k]
                        || worklist@.contains(k as u32),
                forall|j: int|
                    0 <= j < n && #[trigger] reached@[j] && ins[j].op == Ok::<Opcode, u8>(Opcode::Jump)
                        && dd.contains_key(j as u32) && (ex.contains(j as u32) || f0.contains(
                        dd[j as u32],
                    )) ==> active_calls@.contains(j as u32),
            decreases count_false(reached@), worklist@.len(),
        {
            let ghost wl_old = worklist@;
            let popped = worklist.pop();
            let i = match popped {
                Some(i) => i,
                None => {
                    return (function_entries, active_calls);
                },
            };
            proof {
                assert(wl_old.last() == i);
                assert(worklist@ == wl_old.drop_last());
                assert forall|y: u32| wl_old.contains(y) && y != i implies #[trigger] worklist@.contains(y) by {
                    let t = choose|t: int| 0 <= t < wl_old.len() && wl_old[t] == y;
                    assert(t < wl_old.len() - 1);
                    assert(worklist@[t] == y);
                }
                assert(i < n);
            }
            if reached[i as usize] {
                continue;
            }
            let ghost reached_before = reached@;
            reached.set(i as usize, true);
            proof {
                lemma_count_false_set(reached_before, i as int);
                assert(call_reachable(ins, dd, ex, function_entries@, i as int));
            }
            let ghost mid_entries = function_entries@;
            let ghost mid_calls = active_calls@;
            let ghost mid_worklist = worklist@;
            let instruction = &instructions[i as usize];
            let next: Option<u32> = if i + 1 < n {
                Some(i + 1)
            } else {
                None
            };
            match instruction.op {
                Err(_) => {},
                Ok(op) => {
                    if op.is_terminating() {
                    } else if op == Opcode::Jump {
                        match direct_destinations.get(&i) {
                            None => {},
                            Some(destination_ref) => {
                                let destination = *destination_ref;
                                let is_exact = exact_calls.contains_key(&i);
                                if is_exact || function_entries.contains(&destination) {
                                    proof {
                                        assert(active_call(ins, dd, ex, function_entries@, i));
                                        lemma_insert_call(ins, dd, ex, function_entries@, active_calls@, i);
                                    }
                                    let new_call = active_calls.insert(i);
                                    let new_entry = function_entries.insert(destination);
                                    proof {
                                        if new_call {
                                            assert(active_calls@.contains(i) && !a0.contains(i));
                                        }
                                        if new_entry {
                                            assert(function_entries@.contains(destination) && !f0.contains(destination));
                                        }
                                        assert forall|k: int| 0 <= k < n && #[trigger] reached@[k] implies call_reachable(
                                            ins,
                                            dd,
                                            ex,
                                            function_entries@,
                                            k,
                                        ) by {
                                            lemma_reach_mono(ins, dd, ex, mid_entries, function_entries@, k);
                                        }
                                        assert forall|t: int| 0 <= t < worklist@.len() implies #[trigger] worklist@[t] < n
                                            && call_reachable(ins, dd, ex, function_entries@, worklist@[t] as int) by {
                                            lemma_reach_mono(ins, dd, ex, mid_entries, function_entries@, worklist@[t] as int);
                                        }
                                    }
                                    changed = changed || new_call || new_entry;
                                    if is_exact {
                                        match next {
                                            Some(continuation) => {
                                                proof {
                                                    lemma_reach_extend(ins, dd, ex, function_entries@, i as int, continuation as int);
                                                    lemma_push_contains(worklist@, continuation);
                                                }
                                                worklist.push(continuation);
                                            },
                                            None => {},
                                        }
                                    }
                                    match decoded.instruction_at_pc(destination) {
                                        Some(callee) => {
                                            proof {
                                                lemma_reach_extend(ins, dd, ex, function_entries@, i as int, callee as int);
                                                lemma_push_contains(worklist@, callee);
                                            }
                                            worklist.push(callee);
                                            proof {
                                                assert forall|k: int|
                                                    #[trigger] call_root(ins, function_entries@, k) && !call_root(
                                                        ins,
                                                        mid_entries,
                                                        k,
                                                    ) implies worklist@.contains(k as u32) by {
                                                    assert(ins[k].pc == destination);
                                                    if k < callee {
                                                        assert(ins[k].pc < ins[callee as int].pc);
                                                    } else if k > callee {
                                                        assert(ins[callee as int].pc < ins[k].pc);
                                                    }
                                                }
                                            }
                                        },
                                        None => {
                                            proof {
                                                assert forall|k: int|
                                                    #[trigger] call_root(ins, function_entries@, k) implies call_root(
                                                        ins,
                                                        mid_entries,
                                                        k,
                                                    ) by {
                                                    if k != 0 && ins[k].pc == destination {
                                                        assert(ins[k].pc != destination);
                                                    }
                                                }
                                            }
                                        },
                                    }
                                } else {
                                    match decoded.instruction_at_pc(destination) {
                                        Some(target) => {
                                            proof {
                                                lemma_reach_extend(ins, dd, ex, function_entries@, i as int, target as int);
                                                lemma_push_contains(worklist@, target);
                                            }
                                            worklist.push(target);
                                        },
                                        None => {},
                                    }
                                }
                            },
                        }
                    } else if op == Opcode::JumpI {
                        match direct_destinations.get(&i) {
                            None => {},
                            Some(destination_ref) => {
                                let destination = *destination_ref;
                                match decoded.instruction_at_pc(destination) {
                                    Some(target) => {
                                        proof {
                                            lemma_reach_extend(ins, dd, ex, function_entries@, i as int, target as int);
                                            lemma_push_contains(worklist@, target);
                                        }
                                        worklist.push(target);
                                    },
                                    None => {},
                                }
                            },
                        }
                        match next {
                            Some(following) => {
                                proof {
                                    lemma_reach_extend(ins, dd, ex, function_entries@, i as int, following as int);
                                    lemma_push_contains(worklist@, following);
                                }
                                worklist.push(following);
                            },
                            None => {},
                        }
                    } else {
                        match next {
                            Some(following) => {
                                proof {
                                    lemma_reach_extend(ins, dd, ex, function_entries@, i as int, following as int);
                                    lemma_push_contains(worklist@, following);
                                }
                                worklist.push(following);
                            },
                            None => {},
                        }
                    }
                },
            }
            proof {
                assert forall|y: u32| mid_worklist.contains(y) implies #[trigger] worklist@.contains(y) by {}
                assert forall|k: int|
                    #[trigger] call_root(ins, function_entries@, k) && call_root(ins, mid_entries, k)
                        implies reached@[k] || worklist@.contains(k as u32) by {
                    if k != i && !reached_before[k] {
                        assert(wl_old.contains(k as u32));
                        assert(mid_worklist.contains(k as u32));
                    }
                }
                if changed {
                    if exists|x: u32| #[trigger] mid_entries.contains(x) && !f0.contains(x) {
                        let x = choose|x: u32| #[trigger] mid_entries.contains(x) && !f0.contains(x);
                        assert(function_entries@.contains(x));
                    }
                    if exists|x: u32| #[trigger] mid_calls.contains(x) && !a0.contains(x) {
                        let x = choose|x: u32| #[trigger] mid_calls.contains(x) && !a0.contains(x);
                        assert(active_calls@.contains(x));
                    }
                }
            }
        }
        proof {
            assert forall|k: int| #[trigger] call_root(ins, function_entries@, k) implies reached@[k] by {
                if !reached@[k] {
                    assert(worklist@.contains(k as u32));
                }
            }
            assert forall|k: int, m: int|
                0 <= k < ins.len() && reached@[k] && #[trigger] call_successor(ins, dd, ex, k, m) implies reached@[m] by {
                if !reached@[m] {
                    assert(worklist@.contains(m as u32));
                }
            }
        }
        if !changed {
            proof {
                assert forall|j: u32| #[trigger] active_calls@.contains(j) <==> active_call(
                    ins,
                    dd,
                    ex,
                    function_entries@,
                    j,
                ) by {
                    if active_call(ins, dd, ex, function_entries@, j) {
                        let p = choose|p: Seq<int>| #[trigger] is_call_path(ins, dd, ex, function_entries@, p) && p.last() == j as int;
                        lemma_active_index(ins, dd, ex, function_entries@, j);
                        lemma_path_reached(ins, dd, ex, function_entries@, reached@, p, p.len() - 1);
                        assert(reached@[j as int]);
                        assert(f0.contains(dd[j]) || ex.contains(j));
                    }
                }
            }
            return (function_entries, active_calls);
        }
        proof {
            let x = if exists|x: u32| #[trigger] active_calls@.contains(x) && !a0.contains(x) {
                choose|x: u32| #[trigger] active_calls@.contains(x) && !a0.contains(x)
            } else {
                let y = choose|y: u32| #[trigger] function_entries@.contains(y) && !f0.contains(y);
                let j = choose|j: u32| #[trigger] active_calls@.contains(j) && dd[j] == y;
                assert(a0.contains(j));
                assert(f0.contains(y));
                j
            };
            assert(active_calls@.contains(x) && !a0.contains(x));
            lemma_active_index(ins, dd, ex, function_entries@, x);
            lemma_count_below_grows(a0, active_calls@, n as nat, x);
            lemma_count_below_le(active_calls@, n as nat);
        }
    }
}

proof fn lemma_active_index(
    ins: Seq<Instruction>,
    dd: Map<u32, u32>,
    ex: Set<u32>,
    entries: Set<u32>,
    j: u32,
)
    requires
        active_call(ins, dd, ex, entries, j),
    ensures
        j < ins.len(),
{
    let p = choose|p: Seq<int>| #[trigger] is_call_path(ins, dd, ex, entries, p) && p.last() == j as int;
    if p.len() > 1 {
        let t = p.len() - 2;
        assert(call_successor(ins, dd, ex, p[t], p[t + 1]));
    }
}

/// The jump at `j` has a statically known destination.
pub open spec fn direct_jump(
    ins: Seq<Instruction>,
    sj: Seq<Option<StaticJumpDestination>>,
    j: int,
) -> bool {
    0 <= j < ins.len() && is_jump_op(ins[j].op) && sj[j] is Some
}

/// The destination of each direct jump.
pub open spec fn direct_destination_map(
    ins: Seq<Instruction>,
    sj: Seq<Option<StaticJumpDestination>>,
) -> Map<u32, u32> {
    Map::new(|j: u32| direct_jump(ins, sj, j as int), |j: u32| sj[j as int].unwrap().pc)
}

/// Some direct jump goes to `pc`.
pub open spec fn is_direct_destination(
    ins: Seq<Instruction>,
    sj: Seq<Option<StaticJumpDestination>>,
    pc: u32,
) -> bool {
    exists|j: int| #[trigger] direct_jump(ins, sj, j) && sj[j].unwrap().pc == pc
}

/// The `JUMP` at `j` is an exact call pattern: it jumps directly to a
/// `JUMPDEST`, and is followed by a `JUMPDEST` that no direct jump targets.
pub open spec fn exact_call(
    ins: Seq<Instruction>,
    sj: Seq<Option<StaticJumpDestination>>,
    j: int,
) -> bool {
    &&& direct_jump(ins, sj, j)
    &&& ins[j].op == Ok::<Opcode, u8>(Opcode::Jump)
    &&& j + 1 < ins.len()
    &&& ins[j + 1].op == Ok::<Opcode, u8>(Opcode::JumpDest)
    &&& !is_direct_destination(ins, sj, ins[j + 1].pc)
    &&& is_jumpdest_pc(ins, sj[j].unwrap().pc)
}

/// The exact call patterns.
pub open spec fn exact_call_set(
    ins: Seq<Instruction>,
    sj: Seq<Option<StaticJumpDestination>>,
) -> Set<u32> {
    Set::new(|j: u32| exact_call(ins, sj, j as int))
}

/// Internal calls and functions inferred from the code's jumps.
#[derive(Clone)]
pub struct InternalCallInference {
    calls: Vec<Option<InferredCall>>,
    functions: Vec<InferredFunction>,
    function_by_entry_pc: BTreeMap<u32, u32>,
    internal_returns: Vec<bool>,
    static_jumps: Vec<Option<StaticJumpDestination>>,
    code_blocks: CodeBlocks,
    source: Ghost<Seq<Instruction>>,
}

/// The calls that are present, in order.
pub open spec fn present_calls(calls: Seq<Option<InferredCall>>) -> Seq<InferredCall>
    decreases calls.len(),
{
    if calls.len() == 0 {
        Seq::empty()
    } else {
        present_calls(calls.drop_last()) + match calls.last() {
            Some(c) => seq![c],
            None => Seq::empty(),
        }
    }
}

impl InternalCallInference {
    /// The instructions the inference was made from.
    pub closed spec fn source(&self) -> Seq<Instruction> {
        self.source@
    }

    /// The inference is that of its source instructions.
    pub open spec fn wf(&self) -> bool {
        &&& self.infers(self.source(), self.static_jump_list())
        &&& 0 < self.source().len() <= u32::MAX
        &&& forall|i: int| 0 <= i < self.source().len() ==> #[trigger] self.source()[i].pc < u32::MAX
        &&& forall|i: int, j: int|
            0 <= i < j < self.source().len() ==> #[trigger] self.source()[i].pc
                < #[trigger] self.source()[j].pc
    }

    pub closed spec fn call_list(&self) -> Seq<Option<InferredCall>> {
        self.calls@
    }

    pub closed spec fn function_list(&self) -> Seq<InferredFunction> {
        self.functions@
    }

    pub closed spec fn entry_map(&self) -> Map<u32, u32> {
        self.function_by_entry_pc@
    }

    pub closed spec fn internal_return_list(&self) -> Seq<bool> {
        self.internal_returns@
    }

    pub closed spec fn static_jump_list(&self) -> Seq<Option<StaticJumpDestination>> {
        self.static_jumps@
    }

    pub closed spec fn blocks_spec(&self) -> CodeBlocks {
        self.code_blocks
    }

    /// The entry PCs of the functions.
    pub open spec fn entry_set(&self) -> Set<u32> {
        self.function_list().map_values(|f: InferredFunction| f.entry_pc).to_set()
    }

    /// The jumps recorded as calls.
    pub open spec fn call_set(&self) -> Set<u32> {
        Set::new(|j: u32| j < self.call_list().len() && self.call_list()[j as int] is Some)
    }

    /// This is the inference for instructions `ins` with static jumps `sj`:
    /// functions and calls are the least closed pair, functions are numbered
    /// by entry PC, each call records its destination, continuation and
    /// callee, and the blocks are split around the calls.
    pub open spec fn infers(
        &self,
        ins: Seq<Instruction>,
        sj: Seq<Option<StaticJumpDestination>>,
    ) -> bool {
        let dd = direct_destination_map(ins, sj);
        let ex = exact_call_set(ins, sj);
        &&& call_fixpoint(ins, dd, ex, self.entry_set(), self.call_set())
        &&& forall|g: Set<u32>, b: Set<u32>|
            #[trigger] call_fixpoint(ins, dd, ex, g, b) ==> self.entry_set().subset_of(g)
                && self.call_set().subset_of(b)
        &&& increasing(self.function_list().map_values(|f: InferredFunction| f.entry_pc))
        &&& forall|pc: u32| #[trigger] self.entry_map().contains_key(pc) <==> self.entry_set().contains(pc)
        &&& forall|f: int|
            0 <= f < self.function_list().len() ==> #[trigger] self.entry_map()[self.function_list()[f].entry_pc]
                == f
        &&& self.call_list().len() == ins.len()
        &&& forall|j: int|
            0 <= j < ins.len() ==> (#[trigger] self.call_list()[j] matches Some(c) ==> {
                &&& c.jump == j
                &&& c.destination_push == sj[j].unwrap().push
                &&& c.destination_pc == sj[j].unwrap().pc
                &&& c.function < self.function_list().len()
                &&& self.function_list()[c.function as int].entry_pc == c.destination_pc
                &&& c.continuation_pc == if exact_call(ins, sj, j) {
                    Some(ins[j + 1].pc)
                } else {
                    None::<u32>
                }
                &&& c.kind == if exact_call(ins, sj, j) {
                    CallInferenceKind::ExactPattern
                } else {
                    CallInferenceKind::PropagatedDestination
                }
            })
        &&& self.internal_return_list().len() == ins.len()
        &&& forall|j: int|
            0 <= j < ins.len() ==> #[trigger] self.internal_return_list()[j] == (ins[j].op == Ok::<
                Opcode,
                u8,
            >(Opcode::Jump) && sj[j] is None)
        &&& self.static_jump_list() == sj
        &&& sj.len() == ins.len()
        &&& self.blocks_spec().describes(ins, self.call_list())
    }

    /// The call made by `instruction`, if it is one.
    pub fn call(&self, instruction: u32) -> (r: Option<InferredCall>)
        requires
            instruction < self.call_list().len(),
        ensures
            r == self.call_list()[instruction as int],
    {
        self.calls[instruction as usize]
    }

    /// All calls, in instruction order.
    pub fn calls(&self) -> (r: Vec<InferredCall>)
        ensures
            r@ == present_calls(self.call_list()),
    {
        let mut r: Vec<InferredCall> = Vec::new();
        let mut i: usize = 0;
        while i < self.calls.len()
            invariant
                i <= self.call_list().len(),
                r@ == present_calls(self.call_list().take(i as int)),
            decreases self.call_list().len() - i,
        {
            proof {
                assert(self.call_list().take(i as int + 1).drop_last() =~= self.call_list().take(i as int));
            }
            match self.calls[i] {
                Some(c) => {
                    r.push(c);
                },
                None => {},
            }
            i = i + 1;
        }
        proof {
            assert(self.call_list().take(i as int) =~= self.call_list());
        }
        r
    }

    /// The functions, numbered by entry PC.
    pub fn functions(&self) -> (r: &Vec<InferredFunction>)
        ensures
            r@ == self.function_list(),
    {
        &self.functions
    }

    /// The function that starts at `pc`, if one does.
    pub fn function_by_entry_pc(&self, pc: u32) -> (r: Option<u32>)
        ensures
            r == (if self.entry_map().contains_key(pc) {
                Some(self.entry_map()[pc])
            } else {
                None::<u32>
            }),
    {
        match self.function_by_entry_pc.get(&pc) {
            Some(f) => Some(*f),
            None => None,
        }
    }

    /// `instruction` is a `JUMP` without a static destination: a return candidate.
    pub fn is_internal_return(&self, instruction: u32) -> (r: bool)
        requires
            instruction < self.internal_return_list().len(),
        ensures
            r == self.internal_return_list()[instruction as int],
    {
        self.internal_returns[instruction as usize]
    }

    /// The static destination of the jump at `instruction`, if known.
    pub fn static_jump(&self, instruction: u32) -> (r: Option<StaticJumpDestination>)
        requires
            instruction < self.static_jump_list().len(),
        ensures
            r == self.static_jump_list()[instruction as int],
    {
        self.static_jumps[instruction as usize]
    }

    /// The call-aware blocks.
    pub fn code_blocks(&self) -> (r: &CodeBlocks)
        ensures
            *r == self.blocks_spec(),
    {
        &self.code_blocks
    }
}

/// Infers internal calls: direct `JUMP`s that follow the call pattern, or
/// that jump into the entry of a function some call established, counting
/// only jumps reachable from the first instruction or a function entry.
/// `static_jumps` holds, per instruction, the statically known destination of
/// the jump there.
pub fn infer_internal_calls(
    decoded: &DecodedBytecode,
    static_jumps: &Vec<Option<StaticJumpDestination>>,
) -> (r: InternalCallInference)
    requires
        decoded.wf(),
        static_jumps@.len() == decoded.instruction_list().len(),
    ensures
        r.infers(decoded.instruction_list(), static_jumps@),
        r.source() == decoded.instruction_list(),
        r.wf(),
{
    let ghost ins = decoded.instruction_list();
    let ghost sj = static_jumps@;
    let instructions = decoded.instructions();
    let span = decoded.instruction_span();
    let n = span.end;
    proof {
        decoded.lemma_len();
        lemma_decoded_pcs_sorted(decoded);
    }
    let mut direct_destinations: BTreeMap<u32, u32> = BTreeMap::new();
    let mut direct_destination_pcs: BTreeSet<u32> = BTreeSet::new();
    let mut jumpdestinations: BTreeSet<u32> = BTreeSet::new();
    let mut id: u32 = 0;
    while id < n
        invariant
            ins == decoded.instruction_list(),
            instructions@ == ins,
            sj == static_jumps@,
            sj.len() == ins.len(),
            n == ins.len(),
            id <= n,
            forall|j: u32|
                #[trigger] direct_destinations@.contains_key(j) <==> j < id && direct_jump(ins, sj, j as int),
            forall|j: u32|
                #[trigger] direct_destinations@.contains_key(j) ==> direct_destinations@[j] == sj[j as int].unwrap().pc,
            forall|pc: u32|
                #[trigger] direct_destination_pcs@.contains(pc) <==> exists|j: int|
                    0 <= j < id && #[trigger] direct_jump(ins, sj, j) && sj[j].unwrap().pc == pc,
            forall|pc: u32|
                #[trigger] jumpdestinations@.contains(pc) <==> exists|i: int|
                    0 <= i < id && #[trigger] ins[i].pc == pc && ins[i].op == Ok::<Opcode, u8>(
                        Opcode::JumpDest,
                    ),
        decreases n - id,
    {
        let instruction = &instructions[id as usize];
        let jump_op = match instruction.op {
            Ok(Opcode::Jump) | Ok(Opcode::JumpI) => true,
            _ => false,
        };
        let ghost before_pcs = direct_destination_pcs@;
        let ghost before_dests = jumpdestinations@;
        if jump_op {
            match static_jumps[id as usize] {
                Some(destination) => {
                    direct_destinations.insert(id, destination.pc);
                    direct_destination_pcs.insert(destination.pc);
                    proof {
                        assert(direct_jump(ins, sj, id as int));
                        assert forall|pc: u32|
                            #[trigger] direct_destination_pcs@.contains(pc) <==> exists|j: int|
                                0 <= j < id + 1 && #[trigger] direct_jump(ins, sj, j) && sj[j].unwrap().pc
                                    == pc by {
                            if direct_destination_pcs@.contains(pc) && pc != destination.pc {
                                assert(before_pcs.contains(pc));
                            }
                        }
                    }
                },
                None => {},
            }
        }
        match instruction.op {
            Ok(Opcode::JumpDest) => {
                jumpdestinations.insert(instruction.pc);
                proof {
                    assert forall|pc: u32|
                        #[trigger] jumpdestinations@.contains(pc) <==> exists|i: int|
                            0 <= i < id + 1 && #[trigger] ins[i].pc == pc && ins[i].op == Ok::<
                                Opcode,
                                u8,
                            >(Opcode::JumpDest) by {
                        if jumpdestinations@.contains(pc) && pc != instruction.pc {
                            assert(before_dests.contains(pc));
                        }
                        if pc == instruction.pc {
                            assert(ins[id as int].pc == pc);
                        }
                    }
                }
            },
            _ => {},
        }
        id = id + 1;
    }
    proof {
        assert(direct_destinations@ =~= direct_destination_map(ins, sj));
        assert forall|pc: u32| #[trigger] direct_destination_pcs@.contains(pc) <==> is_direct_destination(ins, sj, pc) by {
            if is_direct_destination(ins, sj, pc) {
                let j = choose|j: int| #[trigger] direct_jump(ins, sj, j) && sj[j].unwrap().pc == pc;
                assert(0 <= j < id);
            }
        }
        assert forall|pc: u32| #[trigger] jumpdestinations@.contains(pc) <==> is_jumpdest_pc(ins, pc) by {
            if is_jumpdest_pc(ins, pc) {
                let i = choose|i: int|
                    0 <= i < ins.len() && #[trigger] ins[i].pc == pc && ins[i].op == Ok::<Opcode, u8>(
                        Opcode::JumpDest,
                    );
                assert(ins[i].pc == pc);
            }
        }
    }
    let mut exact_calls: BTreeMap<u32, (u32, u32, u32)> = BTreeMap::new();
    let mut id: u32 = 0;
    while id < n
        invariant
            ins == decoded.instruction_list(),
            instructions@ == ins,
            sj == static_jumps@,
            sj.len() == ins.len(),
            n == ins.len(),
            id <= n,
            direct_destinations@ == direct_destination_map(ins, sj),
            forall|pc: u32| #[trigger] direct_destination_pcs@.contains(pc) <==> is_direct_destination(ins, sj, pc),
            forall|pc: u32| #[trigger] jumpdestinations@.contains(pc) <==> is_jumpdest_pc(ins, pc),
            forall|j: u32|
                #[trigger] exact_calls@.contains_key(j) <==> j < id && exact_call(ins, sj, j as int),
            forall|j: u32|
                #[trigger] exact_calls@.contains_key(j) ==> exact_calls@[j] == (
                    sj[j as int].unwrap().push,
                    sj[j as int].unwrap().pc,
                    ins[j + 1].pc,
                ),
        decreases n - id,
    {
        match static_jumps[id as usize] {
            Some(destination) => {
                let instruction = &instructions[id as usize];
                let is_jump = match instruction.op {
                    Ok(Opcode::Jump) => true,
                    _ => false,
                };
                if is_jump && id + 1 < n {
                    let continuation = &instructions[(id + 1) as usize];
                    let continuation_is_jumpdest = match continuation.op {
                        Ok(Opcode::JumpDest) => true,
                        _ => false,
                    };
                    if continuation_is_jumpdest && !direct_destination_pcs.contains(&continuation.pc)
                        && jumpdestinations.contains(&destination.pc) {
                        exact_calls.insert(id, (destination.push, destination.pc, continuation.pc));
                    }
                }
            },
            None => {},
        }
        id = id + 1;
    }
    proof {
        assert(exact_calls@.dom() =~= exact_call_set(ins, sj));
    }
    let (function_entries, active_calls) = discover_reachable_calls(
        decoded,
        &direct_destinations,
        &exact_calls,
    );
    let entry_list = sorted_members(&function_entries);
    let mut functions: Vec<InferredFunction> = Vec::new();
    let mut function_by_entry_pc: BTreeMap<u32, u32> = BTreeMap::new();
    let mut f: usize = 0;
    proof {
        lemma_sorted_members_len(entry_list@, n as int, function_entries@);
    }
    while f < entry_list.len()
        invariant
            increasing(entry_list@),
            entry_list@.len() <= u32::MAX + 1,
            f <= entry_list@.len(),
            functions@.len() == f,
            forall|t: int| 0 <= t < f ==> (#[trigger] functions@[t]).entry_pc == entry_list@[t],
            forall|pc: u32|
                #[trigger] function_by_entry_pc@.contains_key(pc) <==> exists|t: int|
                    0 <= t < f && #[trigger] entry_list@[t] == pc,
            forall|t: int| 0 <= t < f ==> #[trigger] function_by_entry_pc@[entry_list@[t]] == t,
        decreases entry_list@.len() - f,
    {
        let entry_pc = entry_list[f];
        let ghost before = function_by_entry_pc@;
        functions.push(InferredFunction { entry_pc });
        function_by_entry_pc.insert(entry_pc, f as u32);
        proof {
            assert forall|pc: u32|
                #[trigger] function_by_entry_pc@.contains_key(pc) <==> exists|t: int|
                    0 <= t < f + 1 && #[trigger] entry_list@[t] == pc by {
                if function_by_entry_pc@.contains_key(pc) && pc != entry_pc {
                    assert(before.contains_key(pc));
                }
                if pc == entry_pc {
                    assert(entry_list@[f as int] == pc);
                }
            }
            assert forall|t: int| 0 <= t < f + 1 implies #[trigger] function_by_entry_pc@[entry_list@[t]] == t by {
                if t < f {
                    assert(entry_list@[t] < entry_list@[f as int]);
                }
            }
        }
        f = f + 1;
    }
    proof {
        assert(functions@.map_values(|g: InferredFunction| g.entry_pc) =~= entry_list@);
    }
    let mut calls: Vec<Option<InferredCall>> = Vec::new();
    let mut id: u32 = 0;
    while id < n
        invariant
            ins == decoded.instruction_list(),
            instructions@ == ins,
            sj == static_jumps@,
            sj.len() == ins.len(),
            n == ins.len(),
            id <= n,
            calls@.len() == id,
            direct_destinations@ == direct_destination_map(ins, sj),
            exact_calls@.dom() == exact_call_set(ins, sj),
            forall|j: u32|
                #[trigger] exact_calls@.contains_key(j) ==> exact_calls@[j] == (
                    sj[j as int].unwrap().push,
                    sj[j as int].unwrap().pc,
                    ins[j + 1].pc,
                ),
            call_fixpoint(
                ins,
                direct_destinations@,
                exact_calls@.dom(),
                function_entries@,
                active_calls@,
            ),
            entry_list@.to_set() == function_entries@,
            functions@.map_values(|g: InferredFunction| g.entry_pc) == entry_list@,
            forall|pc: u32|
                #[trigger] function_by_entry_pc@.contains_key(pc) <==> exists|t: int|
                    0 <= t < entry_list@.len() && #[trigger] entry_list@[t] == pc,
            forall|t: int| 0 <= t < entry_list@.len() ==> #[trigger] function_by_entry_pc@[entry_list@[t]] == t,
            forall|j: int|
                0 <= j < id ==> (#[trigger] calls@[j] is Some <==> active_calls@.contains(j as u32)),
            forall|j: int|
                0 <= j < id ==> (#[trigger] calls@[j] matches Some(c) ==> {
                    &&& c.jump == j
                    &&& c.destination_push == sj[j].unwrap().push
                    &&& c.destination_pc == sj[j].unwrap().pc
                    &&& c.function < functions@.len()
                    &&& functions@[c.function as int].entry_pc == c.destination_pc
                    &&& c.continuation_pc == if exact_call(ins, sj, j) {
                        Some(ins[j + 1].pc)
                    } else {
                        None::<u32>
                    }
                    &&& c.kind == if exact_call(ins, sj, j) {
                        CallInferenceKind::ExactPattern
                    } else {
                        CallInferenceKind::PropagatedDestination
                    }
                }),
        decreases n - id,
    {
        if active_calls.contains(&id) {
            proof {
                assert(active_call(ins, direct_destinations@, exact_calls@.dom(), function_entries@, id));
                assert(direct_destinations@.contains_key(id));
            }
            let destination = match static_jumps[id as usize] {
                Some(d) => d,
                None => {
                    proof {
                        assert(false);
                    }
                    StaticJumpDestination { push: 0, pc: 0 }
                },
            };
            proof {
                assert(function_entries@.contains(destination.pc));
                assert(entry_list@.to_set().contains(destination.pc));
                let t = choose|t: int| 0 <= t < entry_list@.len() && entry_list@[t] == destination.pc;
                assert(function_by_entry_pc@.contains_key(destination.pc));
            }
            let function = match function_by_entry_pc.get(&destination.pc) {
                Some(f) => *f,
                None => 0,
            };
            proof {
                let t = choose|t: int| 0 <= t < entry_list@.len() && #[trigger] entry_list@[t] == destination.pc;
                assert(function_by_entry_pc@[entry_list@[t]] == t);
                assert(function == t);
                assert(functions@.map_values(|g: InferredFunction| g.entry_pc)[t] == entry_list@[t]);
            }
            let call = match exact_calls.get(&id) {
                Some(exact) => {
                    proof {
                        assert(exact_calls@.contains_key(id));
                        assert(exact_call(ins, sj, id as int));
                    }
                    InferredCall {
                        jump: id,
                        destination_push: destination.push,
                        destination_pc: destination.pc,
                        continuation_pc: Some(exact.2),
                        function,
                        kind: CallInferenceKind::ExactPattern,
                    }
                },
                None => {
                    proof {
                        assert(!exact_calls@.dom().contains(id));
                        assert(!exact_call(ins, sj, id as int));
                    }
                    InferredCall {
                        jump: id,
                        destination_push: destination.push,
                        destination_pc: destination.pc,
                        continuation_pc: None,
                        function,
                        kind: CallInferenceKind::PropagatedDestination,
                    }
                },
            };
            calls.push(Some(call));
        } else {
            calls.push(None);
        }
        id = id + 1;
    }
    let mut internal_returns: Vec<bool> = Vec::new();
    let mut copied_jumps: Vec<Option<StaticJumpDestination>> = Vec::new();
    let mut id: u32 = 0;
    while id < n
        invariant
            ins == decoded.instruction_list(),
            instructions@ == ins,
            sj == static_jumps@,
            sj.len() == ins.len(),
            n == ins.len(),
            id <= n,
            internal_returns@.len() == id,
            copied_jumps@ == sj.take(id as int),
            forall|j: int|
                0 <= j < id ==> #[trigger] internal_returns@[j] == (ins[j].op == Ok::<Opcode, u8>(
                    Opcode::Jump,
                ) && sj[j] is None),
        decreases n - id,
    {
        let jump = static_jumps[id as usize];
        let is_jump = match instructions[id as usize].op {
            Ok(Opcode::Jump) => true,
            _ => false,
        };
        internal_returns.push(is_jump && jump.is_none());
        copied_jumps.push(jump);
        proof {
            assert(copied_jumps@ =~= sj.take(id + 1));
        }
        id = id + 1;
    }
    proof {
        assert(copied_jumps@ =~= sj);
    }
    let code_blocks = build_call_aware_blocks(decoded, &calls);
    let r = InternalCallInference {
        calls,
        functions,
        function_by_entry_pc,
        internal_returns,
        static_jumps: copied_jumps,
        code_blocks,
        source: Ghost(ins),
    };
    proof {
        assert(r.entry_set() =~= function_entries@);
        assert(r.call_set() =~= active_calls@) by {
            assert forall|j: u32| #[trigger] r.call_set().contains(j) <==> active_calls@.contains(j) by {
                if active_calls@.contains(j) {
                    lemma_active_index(ins, direct_destinations@, exact_calls@.dom(), function_entries@, j);
                }
            }
        }
        assert forall|pc: u32| #[trigger] r.entry_map().contains_key(pc) <==> r.entry_set().contains(pc) by {
            if r.entry_set().contains(pc) {
                let t = choose|t: int| 0 <= t < entry_list@.len() && entry_list@[t] == pc;
                assert(entry_list@[t] == pc);
            }
        }
        assert forall|f: int| 0 <= f < r.function_list().len() implies #[trigger] r.entry_map()[r.function_list()[f].entry_pc] == f by {
            assert(functions@.map_values(|g: InferredFunction| g.entry_pc)[f] == entry_list@[f]);
        }
        assert forall|i: int| 0 <= i < ins.len() implies #[trigger] ins[i].pc < u32::MAX by {
            lemma_decoded_instruction(decoded, i);
        }
        assert(pcs(ins).len() == ins.len());
    }
    r
}

proof fn lemma_sorted_members_len(v: Seq<u32>, n: int, s: Set<u32>)
    requires
        0 <= n <= u32::MAX,
        increasing(v),
        v.to_set() == s,
    ensures
        v.len() <= u32::MAX + 1,
{
    assert(strictly_sorted(v));
    lemma_sorted_len(v, u32::MAX + 1);
}

/// One function line of the inference listing.
pub open spec fn inferred_function_text(id: nat, function: InferredFunction) -> Seq<char> {
    "    f"@ + dec_text(id) + ": entry=0x"@ + hex_min_text(function.entry_pc as nat) + "\n"@
}

/// What the inference says of an instruction: the call it makes, or that it
/// may be a return.
pub open spec fn instruction_note_text(call: Option<InferredCall>, internal_return: bool) -> Seq<char> {
    match call {
        Some(c) => " ; call f"@ + dec_text(c.function as nat) + match c.continuation_pc {
            Some(pc) => " return=0x"@ + hex_min_text(pc as nat),
            None => " propagated-without-continuation"@,
        },
        None => if internal_return {
            " ; iret candidate"@
        } else {
            Seq::empty()
        },
    }
}

/// One instruction line of the inference listing.
pub open spec fn inferred_instruction_text(
    id: nat,
    ins: Instruction,
    call: Option<InferredCall>,
    internal_return: bool,
) -> Seq<char> {
    "        #"@ + dec_text(id) + " "@ + hex_text(ins.pc as nat, 8, false) + ": "@ + op_text(ins.op)
        + instruction_note_text(call, internal_return) + "\n"@
}

/// The number of instructions in a span.
pub open spec fn span_len(span: Span) -> nat {
    if span.start < span.end {
        (span.end - span.start) as nat
    } else {
        0
    }
}

/// One block of the inference listing: its PC range, then its instructions.
pub open spec fn inferred_block_text(
    id: nat,
    block: CodeBlock,
    ins: Seq<Instruction>,
    calls: Seq<Option<InferredCall>>,
    internal_returns: Seq<bool>,
) -> Seq<char> {
    "    @"@ + dec_text(id) + " pc="@ + pc_range_text(block.start_pc, block.end_pc) + "\n"@ + joined(
        span_len(block.instructions),
        |k: nat|
            {
                let i = block.instructions.start + k;
                inferred_instruction_text(i as nat, ins[i], calls[i], internal_returns[i])
            },
    )
}

/// The inferred functions, then every block with its instructions.
pub open spec fn inference_text(
    functions: Seq<InferredFunction>,
    blocks: Seq<CodeBlock>,
    ins: Seq<Instruction>,
    calls: Seq<Option<InferredCall>>,
    internal_returns: Seq<bool>,
) -> Seq<char> {
    "functions:\n"@ + joined(functions.len(), |i: nat| inferred_function_text(i, functions[i as int]))
        + "blocks:\n"@ + joined(
        blocks.len(),
        |b: nat| inferred_block_text(b, blocks[b as int], ins, calls, internal_returns),
    )
}

fn push_inferred_instruction(
    text: &mut String,
    id: u32,
    ins: &Instruction,
    call: Option<InferredCall>,
    internal_return: bool,
)
    ensures
        final(text)@ == old(text)@ + inferred_instruction_text(id as nat, *ins, call, internal_return),
{
    text.append("        #");
    push_dec(text, id as u64);
    text.append(" ");
    push_hex(text, ins.pc as u64, 8, false);
    text.append(": ");
    push_op(text, ins.op);
    let ghost before_note = text@;
    match call {
        Some(c) => {
            text.append(" ; call f");
            push_dec(text, c.function as u64);
            match c.continuation_pc {
                Some(pc) => {
                    text.append(" return=0x");
                    push_hex_min(text, pc as u64);
                },
                None => text.append(" propagated-without-continuation"),
            }
        },
        None => {
            if internal_return {
                text.append(" ; iret candidate");
            }
        },
    }
    assert(text@ =~= before_note + instruction_note_text(call, internal_return));
    text.append("\n");
    assert(text@ =~= old(text)@ + inferred_instruction_text(id as nat, *ins, call, internal_return));
}

fn push_inferred_block(
    text: &mut String,
    b: u64,
    block: &CodeBlock,
    decoded: &DecodedBytecode,
    inference: &InternalCallInference,
)
    requires
        block.instructions.start < block.instructions.end ==> block.instructions.end
            <= decoded.instruction_list().len() && block.instructions.end <= inference.call_list().len()
            && block.instructions.end <= inference.internal_return_list().len(),
    ensures
        final(text)@ == old(text)@ + inferred_block_text(
            b as nat,
            *block,
            decoded.instruction_list(),
            inference.call_list(),
            inference.internal_return_list(),
        ),
{
    let ghost ins = decoded.instruction_list();
    let ghost calls = inference.call_list();
    let ghost irets = inference.internal_return_list();
    text.append("    @");
    push_dec(text, b);
    text.append(" pc=");
    push_pc_range(text, block.start_pc, block.end_pc);
    text.append("\n");
    let ghost start = text@;
    let ghost each = |k: nat|
        {
            let i = block.instructions.start + k;
            inferred_instruction_text(i as nat, ins[i], calls[i], irets[i])
        };
    let mut id: u32 = block.instructions.start;
    while id < block.instructions.end
        invariant
            block.instructions.start <= id,
            id <= block.instructions.end || id == block.instructions.start,
            block.instructions.start < block.instructions.end ==> block.instructions.end <= ins.len()
                && block.instructions.end <= calls.len() && block.instructions.end <= irets.len(),
            ins == decoded.instruction_list(),
            calls == inference.call_list(),
            irets == inference.internal_return_list(),
            each == (|k: nat|
                {
                    let i = block.instructions.start + k;
                    inferred_instruction_text(i as nat, ins[i], calls[i], irets[i])
                }),
            text@ == start + joined((id - block.instructions.start) as nat, each),
        decreases block.instructions.end - id,
    {
        let ghost inner = text@;
        push_inferred_instruction(
            text,
            id,
            decoded.instruction(id),
            inference.call(id),
            inference.is_internal_return(id),
        );
        assert(text@ =~= inner + each((id - block.instructions.start) as nat));
        id = id + 1;
    }
    assert((id - block.instructions.start) as nat == span_len(block.instructions));
}

impl InternalCallInference {
    /// The inferred functions, then every block with its instructions and
    /// what the inference says of each.
    pub fn display(&self, decoded: &DecodedBytecode) -> (r: String)
        requires
            forall|b: int|
                0 <= b < self.blocks_spec().block_list().len() && (#[trigger] self.blocks_spec().block_list()[b]).instructions.start
                    < self.blocks_spec().block_list()[b].instructions.end ==> self.blocks_spec().block_list()[b].instructions.end
                    <= decoded.instruction_list().len() && self.blocks_spec().block_list()[b].instructions.end
                    <= self.call_list().len() && self.blocks_spec().block_list()[b].instructions.end
                    <= self.internal_return_list().len(),
        ensures
            r@ == inference_text(
                self.function_list(),
                self.blocks_spec().block_list(),
                decoded.instruction_list(),
                self.call_list(),
                self.internal_return_list(),
            ),
    {
        let ghost functions = self.function_list();
        let mut text = String::new();
        text.append("functions:\n");
        let ghost head = text@;
        let ghost entries = |i: nat| inferred_function_text(i, functions[i as int]);
        let mut i: usize = 0;
        while i < self.functions.len()
            invariant
                i <= functions.len(),
                functions == self.function_list(),
                entries == (|i: nat| inferred_function_text(i, functions[i as int])),
                text@ == head + joined(i as nat, entries),
            decreases functions.len() - i,
        {
            let ghost before = text@;
            text.append("    f");
            push_dec(&mut text, i as u64);
            text.append(": entry=0x");
            push_hex_min(&mut text, self.functions[i].entry_pc as u64);
            text.append("\n");
            assert(text@ =~= before + entries(i as nat));
            i = i + 1;
        }
        text.append("blocks:\n");
        let ghost middle = text@;
        let blocks = self.code_blocks().blocks();
        let ghost ins = decoded.instruction_list();
        let ghost calls = self.call_list();
        let ghost irets = self.internal_return_list();
        let ghost lines = |b: nat| inferred_block_text(b, blocks@[b as int], ins, calls, irets);
        let mut b: usize = 0;
        while b < blocks.len()
            invariant
                b <= blocks@.len(),
                blocks@ == self.blocks_spec().block_list(),
                ins == decoded.instruction_list(),
                calls == self.call_list(),
                irets == self.internal_return_list(),
                forall|b: int|
                    0 <= b < blocks@.len() && (#[trigger] blocks@[b]).instructions.start
                        < blocks@[b].instructions.end ==> blocks@[b].instructions.end <= ins.len()
                        && blocks@[b].instructions.end <= calls.len() && blocks@[b].instructions.end <= irets.len(),
                lines == (|b: nat| inferred_block_text(b, blocks@[b as int], ins, calls, irets)),
                text@ == middle + joined(b as nat, lines),
            decreases blocks@.len() - b,
        {
            let ghost before = text@;
            assert(blocks@[b as int] == blocks@[b as int]);
            push_inferred_block(&mut text, b as u64, &blocks[b], decoded, self);
            assert(text@ =~= before + lines(b as nat));
            b = b + 1;
        }
        text
    }
}

} // verus!
