use vstd::prelude::*;
use vstd::string::*;

use crate::decode::{DecodedBytecode, Instruction};
use crate::icall::{in_block, lemma_block_count, CodeBlocks, InternalCallInference};
use crate::icall::{CodeBlock, InferredCall, is_jumpdest_pc};
use crate::opcode::Opcode;
use crate::text::{dec_text, hex_min_text, joined, pc_range_text, push_dec, push_hex_min, push_pc_range};

verus! {

/// How control leaves a call-aware block.
#[derive(Debug, Clone, Copy, PartialEq, Eq, Structural)]
pub enum BlockControl {
    Fallthrough(u32),
    Goto(u32),
    Branch { non_zero: u32, zero: u32 },
    InternalReturn,
    Terminates,
    EndOfCode,
    InvalidJump,
    UnresolvedJump,
    UnresolvedJumpI,
    UnresolvedCall,
}

impl BlockControl {
    /// The blocks control may continue in, in order.
    pub open spec fn spec_successors(self) -> Seq<u32> {
        match self {
            BlockControl::Fallthrough(t) => seq![t],
            BlockControl::Goto(t) => seq![t],
            BlockControl::Branch { non_zero, zero } => seq![non_zero, zero],
            _ => Seq::empty(),
        }
    }

    /// The blocks control may continue in: the fallthrough or jump target, or
    /// both branch targets.
    pub fn successors(self) -> (r: Vec<u32>)
        ensures
            r@ == self.spec_successors(),
    {
        match self {
            BlockControl::Fallthrough(target) | BlockControl::Goto(target) => vec![target],
            BlockControl::Branch { non_zero, zero } => vec![non_zero, zero],
            _ => Vec::new(),
        }
    }
}

/// The block holding the `JUMPDEST` at `pc`, if any.
pub open spec fn jumpdest_target(blocks: CodeBlocks, pc: u32) -> Option<u32> {
    if blocks.jumpdest_map().contains_key(pc) {
        Some(blocks.jumpdest_map()[pc])
    } else {
        None
    }
}

/// How control leaves block `b`, decided by its last instruction.
pub open spec fn block_control(
    ins: Seq<Instruction>,
    inference: InternalCallInference,
    b: int,
) -> BlockControl {
    let blocks = inference.blocks_spec();
    let nb = blocks.block_list().len();
    let last = blocks.block_list()[b].instructions.end - 1;
    let next: Option<u32> = if b + 1 < nb {
        Some((b + 1) as u32)
    } else {
        None
    };
    match ins[last].op {
        Err(_) => BlockControl::Terminates,
        Ok(op) => if op.spec_is_terminating() {
            BlockControl::Terminates
        } else if op == Opcode::Jump {
            if inference.call_list()[last] is Some {
                BlockControl::UnresolvedCall
            } else if inference.internal_return_list()[last] {
                BlockControl::InternalReturn
            } else if let Some(d) = inference.static_jump_list()[last] {
                match jumpdest_target(blocks, d.pc) {
                    Some(t) => BlockControl::Goto(t),
                    None => BlockControl::InvalidJump,
                }
            } else {
                BlockControl::UnresolvedJump
            }
        } else if op == Opcode::JumpI {
            match inference.static_jump_list()[last] {
                Some(d) => match jumpdest_target(blocks, d.pc) {
                    Some(t) => match next {
                        Some(z) => BlockControl::Branch { non_zero: t, zero: z },
                        None => BlockControl::UnresolvedJumpI,
                    },
                    None => BlockControl::InvalidJump,
                },
                None => BlockControl::UnresolvedJumpI,
            }
        } else {
            match next {
                Some(z) => BlockControl::Fallthrough(z),
                None => BlockControl::EndOfCode,
            }
        },
    }
}

/// The copies of `src` that the edges of `c` into `t` contribute.
pub open spec fn edges_into(c: BlockControl, t: u32, src: u32) -> Seq<u32> {
    match c {
        BlockControl::Fallthrough(x) => if x == t {
            seq![src]
        } else {
            Seq::empty()
        },
        BlockControl::Goto(x) => if x == t {
            seq![src]
        } else {
            Seq::empty()
        },
        BlockControl::Branch { non_zero, zero } => (if non_zero == t {
            seq![src]
        } else {
            Seq::empty()
        }) + (if zero == t {
            seq![src]
        } else {
            Seq::empty()
        }),
        _ => Seq::empty(),
    }
}

/// The predecessors of `t` among the first `k` blocks, once per edge, in
/// block order.
pub open spec fn predecessor_list(controls: Seq<BlockControl>, t: u32, k: int) -> Seq<u32>
    decreases k,
{
    if k <= 0 {
        Seq::empty()
    } else {
        predecessor_list(controls, t, k - 1) + edges_into(controls[k - 1], t, (k - 1) as u32)
    }
}

/// The calling instructions among `start..end`, in order.
pub open spec fn calls_between(calls: Seq<Option<crate::icall::InferredCall>>, start: int, end: int) -> Seq<u32>
    decreases end - start,
{
    if end <= start {
        Seq::empty()
    } else if calls[end - 1] is Some {
        calls_between(calls, start, end - 1).push((end - 1) as u32)
    } else {
        calls_between(calls, start, end - 1)
    }
}

/// How a block's control reads in a listing.
pub open spec fn control_text(control: BlockControl) -> Seq<char> {
    match control {
        BlockControl::Fallthrough(target) => "fallthrough @"@ + dec_text(target as nat),
        BlockControl::Goto(target) => "goto @"@ + dec_text(target as nat),
        BlockControl::Branch { non_zero, zero } => "branch @"@ + dec_text(non_zero as nat) + " else @"@
            + dec_text(zero as nat),
        BlockControl::InternalReturn => "iret"@,
        BlockControl::Terminates => "terminates"@,
        BlockControl::EndOfCode => "end-of-code"@,
        BlockControl::InvalidJump => "invalid-jump"@,
        BlockControl::UnresolvedJump => "unresolved-jump"@,
        BlockControl::UnresolvedJumpI => "unresolved-jumpi"@,
        BlockControl::UnresolvedCall => "unresolved-call"@,
    }
}

/// A call made in a block: the callee and the destination PC.
pub open spec fn call_text(call: InferredCall) -> Seq<char> {
    " call(f"@ + dec_text(call.function as nat) + " -> 0x"@ + hex_min_text(call.destination_pc as nat) + ")"@
}

/// One block line of the graph: range, calls, control and last instruction.
pub open spec fn cfg_block_text(
    id: nat,
    block: CodeBlock,
    calls: Seq<u32>,
    call_list: Seq<Option<InferredCall>>,
    control: BlockControl,
    ins: Seq<Instruction>,
) -> Seq<char> {
    "@"@ + dec_text(id) + " "@ + pc_range_text(block.start_pc, block.end_pc) + joined(
        calls.len(),
        |k: nat| call_text(call_list[calls[k as int] as int]->Some_0),
    ) + " => "@ + control_text(control) + if block.instructions.start < block.instructions.end {
        " ; last=#"@ + dec_text((block.instructions.end - 1) as nat) + " pc=0x"@ + hex_min_text(
            ins[block.instructions.end - 1].pc as nat,
        )
    } else {
        Seq::empty()
    } + "\n"@
}

/// Every block of the graph, one line each.
pub open spec fn cfg_text(
    blocks: Seq<CodeBlock>,
    call_lists: Seq<Seq<u32>>,
    call_list: Seq<Option<InferredCall>>,
    controls: Seq<BlockControl>,
    ins: Seq<Instruction>,
) -> Seq<char> {
    joined(
        blocks.len(),
        |b: nat| cfg_block_text(b, blocks[b as int], call_lists[b as int], call_list, controls[b as int], ins),
    )
}

fn push_control(text: &mut String, control: BlockControl)
    ensures
        final(text)@ == old(text)@ + control_text(control),
{
    match control {
        BlockControl::Fallthrough(target) => {
            text.append("fallthrough @");
            push_dec(text, target as u64);
        },
        BlockControl::Goto(target) => {
            text.append("goto @");
            push_dec(text, target as u64);
        },
        BlockControl::Branch { non_zero, zero } => {
            text.append("branch @");
            push_dec(text, non_zero as u64);
            text.append(" else @");
            push_dec(text, zero as u64);
        },
        BlockControl::InternalReturn => text.append("iret"),
        BlockControl::Terminates => text.append("terminates"),
        BlockControl::EndOfCode => text.append("end-of-code"),
        BlockControl::InvalidJump => text.append("invalid-jump"),
        BlockControl::UnresolvedJump => text.append("unresolved-jump"),
        BlockControl::UnresolvedJumpI => text.append("unresolved-jumpi"),
        BlockControl::UnresolvedCall => text.append("unresolved-call"),
    }
    assert(text@ =~= old(text)@ + control_text(control));
}

fn push_cfg_block(
    text: &mut String,
    b: u32,
    block: &CodeBlock,
    calls: &[u32],
    inference: &InternalCallInference,
    control: BlockControl,
    decoded: &DecodedBytecode,
)
    requires
        forall|j: int|
            0 <= j < calls@.len() ==> #[trigger] calls@[j] < inference.call_list().len()
                && inference.call_list()[calls@[j] as int] is Some,
        block.instructions.start < block.instructions.end ==> block.instructions.end - 1
            < decoded.instruction_list().len(),
    ensures
        final(text)@ == old(text)@ + cfg_block_text(
            b as nat,
            *block,
            calls@,
            inference.call_list(),
            control,
            decoded.instruction_list(),
        ),
{
    let ghost call_list = inference.call_list();
    text.append("@");
    push_dec(text, b as u64);
    text.append(" ");
    push_pc_range(text, block.start_pc, block.end_pc);
    let ghost start = text@;
    let ghost each = |k: nat| call_text(call_list[calls@[k as int] as int]->Some_0);
    let mut k: usize = 0;
    while k < calls.len()
        invariant
            k <= calls@.len(),
            forall|j: int|
                0 <= j < calls@.len() ==> #[trigger] calls@[j] < call_list.len() && call_list[calls@[j] as int] is Some,
            call_list == inference.call_list(),
            each == (|k: nat| call_text(call_list[calls@[k as int] as int]->Some_0)),
            text@ == start + joined(k as nat, each),
        decreases calls@.len() - k,
    {
        let ghost inner = text@;
        let call = inference.call(calls[k]);
        match call {
            Some(call) => {
                text.append(" call(f");
                push_dec(text, call.function as u64);
                text.append(" -> 0x");
                push_hex_min(text, call.destination_pc as u64);
                text.append(")");
            },
            None => {},
        }
        assert(text@ =~= inner + each(k as nat));
        k = k + 1;
    }
    text.append(" => ");
    push_control(text, control);
    let ghost before_last = text@;
    if block.instructions.start < block.instructions.end {
        let last = block.instructions.end - 1;
        text.append(" ; last=#");
        push_dec(text, last as u64);
        text.append(" pc=0x");
        push_hex_min(text, decoded.instruction(last).pc as u64);
    }
    text.append("\n");
    assert(text@ =~= old(text)@ + cfg_block_text(
        b as nat,
        *block,
        calls@,
        call_list,
        control,
        decoded.instruction_list(),
    ));
}

/// The control-flow graph of the call-aware blocks before functions are known.
#[derive(Debug, Clone)]
pub struct ProvisionalCfg {
    controls: Vec<BlockControl>,
    predecessors: Vec<Vec<u32>>,
    calls: Vec<Vec<u32>>,
}

impl ProvisionalCfg {
    pub closed spec fn control_list(&self) -> Seq<BlockControl> {
        self.controls@
    }

    pub closed spec fn predecessor_lists(&self) -> Seq<Seq<u32>> {
        self.predecessors@.map_values(|v: Vec<u32>| v@)
    }

    pub closed spec fn call_lists(&self) -> Seq<Seq<u32>> {
        self.calls@.map_values(|v: Vec<u32>| v@)
    }

    /// The graph is that of `inference` over `ins`: each block's control as
    /// its last instruction decides, its predecessors once per edge in block
    /// order, and its calls in instruction order.
    pub open spec fn built_from(&self, ins: Seq<Instruction>, inference: InternalCallInference) -> bool {
        let blocks = inference.blocks_spec().block_list();
        &&& self.control_list().len() == blocks.len()
        &&& self.predecessor_lists().len() == blocks.len()
        &&& self.call_lists().len() == blocks.len()
        &&& forall|b: int|
            0 <= b < blocks.len() ==> #[trigger] self.control_list()[b] == block_control(ins, inference, b)
        &&& forall|b: int, k: int|
            0 <= b < blocks.len() && 0 <= k < self.control_list()[b].spec_successors().len()
                ==> #[trigger] self.control_list()[b].spec_successors()[k] < blocks.len()
        &&& forall|t: int|
            0 <= t < blocks.len() ==> #[trigger] self.predecessor_lists()[t] == predecessor_list(
                self.control_list(),
                t as u32,
                blocks.len() as int,
            )
        &&& forall|b: int|
            0 <= b < blocks.len() ==> #[trigger] self.call_lists()[b] == calls_between(
                inference.call_list(),
                blocks[b].instructions.start as int,
                blocks[b].instructions.end as int,
            )
    }

    /// Each block of `inference` with its calls, its control and its last instruction.
    pub fn display(&self, decoded: &DecodedBytecode, inference: &InternalCallInference) -> (r: String)
        requires
            inference.blocks_spec().block_list().len() <= self.control_list().len(),
            inference.blocks_spec().block_list().len() <= self.call_lists().len(),
            inference.blocks_spec().block_list().len() <= u32::MAX,
            forall|b: int, k: int|
                0 <= b < inference.blocks_spec().block_list().len() && 0 <= k < self.call_lists()[b].len()
                    ==> #[trigger] self.call_lists()[b][k] < inference.call_list().len()
                    && inference.call_list()[self.call_lists()[b][k] as int] is Some,
            forall|b: int|
                0 <= b < inference.blocks_spec().block_list().len() && (
                #[trigger] inference.blocks_spec().block_list()[b]).instructions.start
                    < inference.blocks_spec().block_list()[b].instructions.end
                    ==> inference.blocks_spec().block_list()[b].instructions.end - 1
                    < decoded.instruction_list().len(),
        ensures
            r@ == cfg_text(
                inference.blocks_spec().block_list(),
                self.call_lists(),
                inference.call_list(),
                self.control_list(),
                decoded.instruction_list(),
            ),
    {
        let blocks = inference.code_blocks().blocks();
        let ghost call_lists = self.call_lists();
        let ghost call_list = inference.call_list();
        let ghost controls = self.control_list();
        let ghost ins = decoded.instruction_list();
        let ghost lines = |b: nat|
            cfg_block_text(b, blocks@[b as int], call_lists[b as int], call_list, controls[b as int], ins);
        let mut text = String::new();
        let mut b: usize = 0;
        while b < blocks.len()
            invariant
                b <= blocks@.len(),
                blocks@ == inference.blocks_spec().block_list(),
                blocks@.len() <= controls.len(),
                blocks@.len() <= call_lists.len(),
                blocks@.len() <= u32::MAX,
                call_lists == self.call_lists(),
                call_list == inference.call_list(),
                controls == self.control_list(),
                ins == decoded.instruction_list(),
                forall|b: int, k: int|
                    0 <= b < blocks@.len() && 0 <= k < call_lists[b].len() ==> #[trigger] call_lists[b][k]
                        < call_list.len() && call_list[call_lists[b][k] as int] is Some,
                forall|b: int|
                    0 <= b < blocks@.len() && (#[trigger] blocks@[b]).instructions.start
                        < blocks@[b].instructions.end ==> blocks@[b].instructions.end - 1 < ins.len(),
                lines == (|b: nat|
                    cfg_block_text(b, blocks@[b as int], call_lists[b as int], call_list, controls[b as int], ins)),
                text@ == joined(b as nat, lines),
            decreases blocks@.len() - b,
        {
            assert(blocks@[b as int] == blocks@[b as int]);
            push_cfg_block(&mut text, b as u32, &blocks[b], self.calls(b as u32), inference, self.control(b as u32), decoded);
            b = b + 1;
        }
        text
    }

    pub fn control(&self, block: u32) -> (r: BlockControl)
        requires
            block < self.control_list().len(),
        ensures
            r == self.control_list()[block as int],
    {
        self.controls[block as usize]
    }

    pub fn predecessors(&self, block: u32) -> (r: &[u32])
        requires
            block < self.predecessor_lists().len(),
        ensures
            r@ == self.predecessor_lists()[block as int],
    {
        self.predecessors[block as usize].as_slice()
    }

    pub fn calls(&self, block: u32) -> (r: &[u32])
        requires
            block < self.call_lists().len(),
        ensures
            r@ == self.call_lists()[block as int],
    {
        self.calls[block as usize].as_slice()
    }
}

/// Builds the provisional control-flow graph of the call-aware blocks.
pub fn build_provisional_cfg(
    decoded: &DecodedBytecode,
    inference: &InternalCallInference,
) -> (r: ProvisionalCfg)
    requires
        decoded.wf(),
        inference.wf(),
        inference.source() == decoded.instruction_list(),
    ensures
        r.built_from(decoded.instruction_list(), *inference),
{
    let ghost ins = decoded.instruction_list();
    let blocks = inference.code_blocks();
    let block_list = blocks.blocks();
    let nb = block_list.len();
    proof {
        decoded.lemma_len();
        lemma_block_count(ins, inference.call_list(), blocks.block_list());
    }
    let mut controls: Vec<BlockControl> = Vec::new();
    let mut calls: Vec<Vec<u32>> = Vec::new();
    let mut b: usize = 0;
    while b < nb
        invariant
            ins == decoded.instruction_list(),
            decoded.wf(),
            inference.infers(ins, inference.static_jump_list()),
            *blocks == inference.blocks_spec(),
            block_list@ == blocks.block_list(),
            nb == block_list@.len(),
            nb <= u32::MAX,
            b <= nb,
            controls@.len() == b,
            calls@.len() == b,
            forall|k: int| 0 <= k < b ==> #[trigger] controls@[k] == block_control(ins, *inference, k),
            forall|k: int| 0 <= k < b ==> (#[trigger] calls@[k])@ == calls_between(
                inference.call_list(),
                block_list@[k].instructions.start as int,
                block_list@[k].instructions.end as int,
            ),
        decreases nb - b,
    {
        let block = block_list[b];
        proof {
            assert(block == blocks.block_list()[b as int]);
            assert(block.instructions.start < block.instructions.end <= ins.len());
        }
        let mut block_calls: Vec<u32> = Vec::new();
        let mut i = block.instructions.start;
        while i < block.instructions.end
            invariant
                inference.call_list().len() == ins.len(),
                block.instructions.end <= ins.len(),
                block.instructions.start <= i <= block.instructions.end,
                block_calls@ == calls_between(inference.call_list(), block.instructions.start as int, i as int),
            decreases block.instructions.end - i,
        {
            if inference.call(i).is_some() {
                block_calls.push(i);
            }
            i = i + 1;
        }
        calls.push(block_calls);
        let last_id = block.instructions.end - 1;
        let last = decoded.instruction(last_id);
        let next: Option<u32> = if b + 1 < nb {
            Some((b + 1) as u32)
        } else {
            None
        };
        let control = match last.op {
            Err(_) => BlockControl::Terminates,
            Ok(op) => {
                if op.is_terminating() {
                    BlockControl::Terminates
                } else if op == Opcode::Jump {
                    if inference.call(last_id).is_some() {
                        BlockControl::UnresolvedCall
                    } else if inference.is_internal_return(last_id) {
                        BlockControl::InternalReturn
                    } else {
                        match inference.static_jump(last_id) {
                            Some(destination) => match blocks.jumpdest_block(destination.pc) {
                                Some(t) => BlockControl::Goto(t),
                                None => BlockControl::InvalidJump,
                            },
                            None => BlockControl::UnresolvedJump,
                        }
                    }
                } else if op == Opcode::JumpI {
                    match inference.static_jump(last_id) {
                        Some(destination) => match blocks.jumpdest_block(destination.pc) {
                            Some(t) => match next {
                                Some(zero) => BlockControl::Branch { non_zero: t, zero },
                                None => BlockControl::UnresolvedJumpI,
                            },
                            None => BlockControl::InvalidJump,
                        },
                        None => BlockControl::UnresolvedJumpI,
                    }
                } else {
                    match next {
                        Some(t) => BlockControl::Fallthrough(t),
                        None => BlockControl::EndOfCode,
                    }
                }
            },
        };
        controls.push(control);
        b = b + 1;
    }
    proof {
        assert forall|c: int, k: int|
            0 <= c < nb && 0 <= k < controls@[c].spec_successors().len() implies #[trigger] controls@[c].spec_successors()[k] < nb by {
            lemma_control_targets(ins, *inference, c);
        }
    }
    let mut predecessors: Vec<Vec<u32>> = Vec::new();
    let mut t: usize = 0;
    while t < nb
        invariant
            t <= nb,
            predecessors@.len() == t,
            forall|k: int| 0 <= k < t ==> (#[trigger] predecessors@[k])@ == Seq::<u32>::empty(),
        decreases nb - t,
    {
        predecessors.push(Vec::new());
        t = t + 1;
    }
    let mut source: usize = 0;
    while source < nb
        invariant
            source <= nb,
            nb <= u32::MAX,
            controls@.len() == nb,
            predecessors@.len() == nb,
            forall|c: int, k: int|
                0 <= c < nb && 0 <= k < controls@[c].spec_successors().len()
                    ==> #[trigger] controls@[c].spec_successors()[k] < nb,
            forall|k: int|
                0 <= k < nb ==> (#[trigger] predecessors@[k])@ == predecessor_list(
                    controls@,
                    k as u32,
                    source as int,
                ),
        decreases nb - source,
    {
        let control = controls[source];
        let src = source as u32;
        let ghost before = predecessors@;
        match control {
            BlockControl::Fallthrough(target) | BlockControl::Goto(target) => {
                assert(control.spec_successors()[0] == target);
                predecessors[target as usize].push(src);
            },
            BlockControl::Branch { non_zero, zero } => {
                assert(control.spec_successors()[0] == non_zero);
                assert(control.spec_successors()[1] == zero);
                predecessors[non_zero as usize].push(src);
                predecessors[zero as usize].push(src);
            },
            _ => {},
        }
        proof {
            assert forall|k: int| 0 <= k < nb implies (#[trigger] predecessors@[k])@ == predecessor_list(
                controls@,
                k as u32,
                source + 1,
            ) by {
                assert(predecessor_list(controls@, k as u32, source + 1) == predecessor_list(
                    controls@,
                    k as u32,
                    source as int,
                ) + edges_into(controls@[source as int], k as u32, src));
                assert((predecessors@[k])@ =~= before[k]@ + edges_into(controls@[source as int], k as u32, src));
            }
        }
        source = source + 1;
    }
    let r = ProvisionalCfg { controls, predecessors, calls };
    proof {
        assert forall|k: int| 0 <= k < nb implies #[trigger] r.predecessor_lists()[k] == predecessor_list(
            r.control_list(),
            k as u32,
            nb as int,
        ) by {}
    }
    r
}

/// The targets of a block's control are blocks.
proof fn lemma_control_targets(ins: Seq<Instruction>, inference: InternalCallInference, b: int)
    requires
        inference.infers(ins, inference.static_jump_list()),
        0 <= b < inference.blocks_spec().block_list().len(),
    ensures
        forall|k: int|
            0 <= k < block_control(ins, inference, b).spec_successors().len()
                ==> #[trigger] block_control(ins, inference, b).spec_successors()[k]
                < inference.blocks_spec().block_list().len(),
{
    let blocks = inference.blocks_spec();
    assert forall|pc: u32| #[trigger] blocks.jumpdest_map().contains_key(pc) implies blocks.jumpdest_map()[pc]
        < blocks.block_list().len() by {
        let i = choose|i: int|
            0 <= i < ins.len() && #[trigger] ins[i].pc == pc && ins[i].op == Ok::<Opcode, u8>(
                Opcode::JumpDest,
            );
        assert(blocks.jumpdest_map()[ins[i].pc] == blocks.block_of()[i]);
        assert(in_block(blocks.block_list(), blocks.block_of()[i] as int, i));
    }
}

/// A branch's targets follow their roles. Control leaves a block by a branch
/// only when the block ends in a `JUMPI` with a known destination; the
/// nonzero target is the block that holds the `JUMPDEST` at that
/// destination, and the zero target is the block right after.
pub proof fn lemma_branch_targets(inference: InternalCallInference, cfg: ProvisionalCfg, b: int)
    requires
        inference.wf(),
        cfg.built_from(inference.source(), inference),
        0 <= b < inference.blocks_spec().block_list().len(),
    ensures
        cfg.control_list()[b] matches BlockControl::Branch { non_zero, zero } ==> ({
            let ins = inference.source();
            let blocks = inference.blocks_spec().block_list();
            let last = blocks[b].instructions.end - 1;
            &&& zero == b + 1
            &&& ins[last].op == Ok::<Opcode, u8>(Opcode::JumpI)
            &&& inference.static_jump_list()[last] is Some
            &&& exists|i: int|
                0 <= i < ins.len() && #[trigger] ins[i].pc == inference.static_jump_list()[last]->0.pc
                    && ins[i].op == Ok::<Opcode, u8>(Opcode::JumpDest) && crate::icall::in_block(
                    blocks,
                    non_zero as int,
                    i,
                )
        }),
{
    let ins = inference.source();
    let blocks = inference.blocks_spec();
    let last = blocks.block_list()[b].instructions.end - 1;
    if let BlockControl::Branch { non_zero, zero } = cfg.control_list()[b] {
        lemma_block_count(ins, inference.call_list(), blocks.block_list());
        assert(cfg.control_list()[b] == block_control(ins, inference, b));
        let d = inference.static_jump_list()[last]->0;
        assert(blocks.jumpdest_map().contains_key(d.pc));
        assert(is_jumpdest_pc(ins, d.pc));
        let i = choose|i: int|
            0 <= i < ins.len() && #[trigger] ins[i].pc == d.pc && ins[i].op == Ok::<Opcode, u8>(Opcode::JumpDest);
        assert(blocks.jumpdest_map()[ins[i].pc] == blocks.block_of()[i]);
        assert(crate::icall::in_block(blocks.block_list(), blocks.block_of()[i] as int, i));
        assert(non_zero == blocks.jumpdest_map()[d.pc]);
        assert(zero == b + 1);
        assert(ins[last].op == Ok::<Opcode, u8>(Opcode::JumpI));
        assert(crate::icall::in_block(blocks.block_list(), non_zero as int, i));
    }
}

/// A jump's target follows its role: control leaves a block by a goto only
/// when the block ends in a `JUMP` with a known destination, and goes to the
/// block that holds the `JUMPDEST` there; control falls through only to the
/// block right after.
pub proof fn lemma_jump_targets(inference: InternalCallInference, cfg: ProvisionalCfg, b: int)
    requires
        inference.wf(),
        cfg.built_from(inference.source(), inference),
        0 <= b < inference.blocks_spec().block_list().len(),
    ensures
        cfg.control_list()[b] matches BlockControl::Fallthrough(t) ==> t == b + 1,
        cfg.control_list()[b] matches BlockControl::Goto(t) ==> ({
            let ins = inference.source();
            let blocks = inference.blocks_spec().block_list();
            let last = blocks[b].instructions.end - 1;
            &&& ins[last].op == Ok::<Opcode, u8>(Opcode::Jump)
            &&& inference.static_jump_list()[last] is Some
            &&& exists|i: int|
                0 <= i < ins.len() && #[trigger] ins[i].pc == inference.static_jump_list()[last]->0.pc
                    && ins[i].op == Ok::<Opcode, u8>(Opcode::JumpDest) && crate::icall::in_block(blocks, t as int, i)
        }),
{
    let ins = inference.source();
    let blocks = inference.blocks_spec();
    let last = blocks.block_list()[b].instructions.end - 1;
    lemma_block_count(ins, inference.call_list(), blocks.block_list());
    assert(cfg.control_list()[b] == block_control(ins, inference, b));
    if let BlockControl::Goto(t) = cfg.control_list()[b] {
        let d = inference.static_jump_list()[last]->0;
        assert(blocks.jumpdest_map().contains_key(d.pc));
        assert(is_jumpdest_pc(ins, d.pc));
        let i = choose|i: int|
            0 <= i < ins.len() && #[trigger] ins[i].pc == d.pc && ins[i].op == Ok::<Opcode, u8>(Opcode::JumpDest);
        assert(blocks.jumpdest_map()[ins[i].pc] == blocks.block_of()[i]);
        assert(crate::icall::in_block(blocks.block_list(), blocks.block_of()[i] as int, i));
        assert(t == blocks.jumpdest_map()[d.pc]);
        assert(crate::icall::in_block(blocks.block_list(), t as int, i));
    }
}

} // verus!
