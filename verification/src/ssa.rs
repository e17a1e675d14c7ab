use vstd::prelude::*;

use crate::cfg::{BlockControl, ProvisionalCfg};
use crate::decode::{DecodedBytecode, Instruction};
use crate::icall::{InferredCall, InternalCallInference};
use crate::primitive_blocks::StaticJumpDestination;
use crate::assembler::Span;
use crate::opcode::Opcode;
use crate::ownership::{FunctionKind, Ownership};
use crate::symbolic::{input_values, single, views, StackModel, SymbolicAtom, SymbolicValue};
use crate::verify::{lemma_verified_function, pipeline_ok, pushed_word, verification_holds, FunctionArity, Verification};
use crate::word::Word;

verus! {

/// Where an SSA value is defined: as an input of a block, or as an output of
/// one of its operations.
#[derive(Debug, Clone, Copy, PartialEq, Eq, Structural)]
pub enum SsaValueOrigin {
    BlockInput { block: u32, position: u16 },
    Operation { block: u32, operation: u32, output: u16 },
}

/// What an SSA operation does.
#[derive(Debug, Clone, Copy, PartialEq, Eq, Structural)]
pub enum SsaOperationKind {
    Opcode(Opcode),
    Constant(Word),
    InternalCall(u32),
    SyntheticInvalid,
    SyntheticStop,
}

/// One operation of an SSA block.
#[derive(Debug, Clone, PartialEq, Eq)]
pub struct SsaOperation {
    pub source: Option<u32>,
    pub kind: SsaOperationKind,
    pub inputs: Vec<u32>,
    pub outputs: Vec<u32>,
}

/// How control leaves an SSA block.
#[derive(Debug, Clone, Copy, PartialEq, Eq, Structural)]
pub enum SsaControl {
    Goto(u32),
    Branch { condition: u32, non_zero: u32, zero: u32 },
    InternalReturn,
    Terminates,
}

/// A block of SSA operations.
#[derive(Debug, Clone, PartialEq, Eq)]
pub struct SsaBlock {
    pub source: Option<u32>,
    pub inputs: Vec<u32>,
    pub outputs: Vec<u32>,
    pub operations: Vec<SsaOperation>,
    pub control: SsaControl,
}

/// A function in SSA form.
#[derive(Debug, Clone, PartialEq, Eq)]
pub struct SsaFunction {
    pub entry: u32,
    pub blocks: Vec<u32>,
    pub kind: FunctionKind,
    pub inputs: u16,
    pub outputs: u16,
}

/// Why the verified program could not be put in SSA form.
#[derive(Debug, Clone, Copy, PartialEq, Eq, Structural)]
pub enum SsaError {
    InvalidVerifiedStack { function: u32, block: u32 },
    StackUnderflow { block: u32, instruction: u32 },
    StackTooDeep { block: u32 },
    TooManyOperations { block: u32 },
    ControlValueUsedSemantically { block: u32, instruction: u32 },
    InvalidControlValue { block: u32, instruction: u32 },
    InvalidVerifiedCall { call: u32 },
    InvalidVerifiedReturn { function: u32, block: u32 },
    MissingBranchCondition { instruction: u32 },
    InvalidVerifiedControl { block: u32 },
}

/// What a stack slot holds while a block is lowered.
#[derive(Debug, Clone, Copy, PartialEq, Eq, Structural)]
pub enum StackValue {
    Data(u32),
    FunctionReturn,
    CallReturn(u32),
    Control(u32),
}

/// The block an origin belongs to.
pub open spec fn origin_block(o: SsaValueOrigin) -> u32 {
    match o {
        SsaValueOrigin::BlockInput { block, .. } => block,
        SsaValueOrigin::Operation { block, .. } => block,
    }
}

/// Value `v` may be used by operation `k` of block `sb`: it is an input of
/// the block or an output of an earlier operation of it.
pub open spec fn available(values: Seq<SsaValueOrigin>, sb: u32, k: int, v: u32) -> bool {
    &&& v < values.len()
    &&& match values[v as int] {
        SsaValueOrigin::BlockInput { block, .. } => block == sb,
        SsaValueOrigin::Operation { block, operation, .. } => block == sb && operation < k,
    }
}

/// The operations `ops` of block `sb` are in SSA form over `values`: each
/// output is recorded where it is defined, and each input is available
/// before the operation.
pub open spec fn operations_ok(values: Seq<SsaValueOrigin>, sb: u32, ops: Seq<SsaOperation>) -> bool {
    &&& forall|k: int, o: int|
        0 <= k < ops.len() && 0 <= o < ops[k].outputs@.len() ==> #[trigger] ops[k].outputs@[o] < values.len()
            && values[ops[k].outputs@[o] as int] == SsaValueOrigin::Operation {
            block: sb,
            operation: k as u32,
            output: o as u16,
        }
    &&& forall|k: int, i: int|
        0 <= k < ops.len() && 0 <= i < ops[k].inputs@.len() ==> available(values, sb, k, #[trigger] ops[k].inputs@[i])
}

/// The inputs of block `sb` are recorded in order.
pub open spec fn inputs_ok(values: Seq<SsaValueOrigin>, sb: u32, inputs: Seq<u32>) -> bool {
    forall|p: int|
        0 <= p < inputs.len() ==> #[trigger] inputs[p] < values.len() && values[inputs[p] as int]
            == SsaValueOrigin::BlockInput { block: sb, position: p as u16 }
}

/// Block `sb` is in SSA form over `values`.
pub open spec fn block_ok(values: Seq<SsaValueOrigin>, sb: u32, blk: SsaBlock) -> bool {
    &&& inputs_ok(values, sb, blk.inputs@)
    &&& operations_ok(values, sb, blk.operations@)
    &&& forall|i: int| 0 <= i < blk.outputs@.len() ==> available(values, sb, blk.operations@.len() as int, #[trigger] blk.outputs@[i])
    &&& blk.control matches SsaControl::Branch { condition, .. } ==> available(values, sb, blk.operations@.len() as int, condition)
}

/// An SSA operation as a value: where it came from, what it does, and the
/// values it reads and defines.
pub struct OpView {
    pub source: Option<u32>,
    pub kind: SsaOperationKind,
    pub inputs: Seq<u32>,
    pub outputs: Seq<u32>,
}

pub open spec fn op_view(o: SsaOperation) -> OpView {
    OpView { source: o.source, kind: o.kind, inputs: o.inputs@, outputs: o.outputs@ }
}

pub open spec fn op_views(ops: Seq<SsaOperation>) -> Seq<OpView> {
    ops.map_values(|o: SsaOperation| op_view(o))
}

/// An SSA block as a value.
pub struct BlockView {
    pub source: Option<u32>,
    pub inputs: Seq<u32>,
    pub outputs: Seq<u32>,
    pub operations: Seq<OpView>,
    pub control: SsaControl,
}

pub open spec fn block_view(b: SsaBlock) -> BlockView {
    BlockView {
        source: b.source,
        inputs: b.inputs@,
        outputs: b.outputs@,
        operations: op_views(b.operations@),
        control: b.control,
    }
}

/// Where lowering a block stands: the stack of slots, the value table, the
/// operations so far, and the branch condition found.
pub struct Lowering {
    pub stack: Seq<StackValue>,
    pub values: Seq<SsaValueOrigin>,
    pub ops: Seq<OpView>,
    pub condition: Option<u32>,
}

/// What lowering block `block` of `function` into SSA block `ssa_block`
/// reads besides its own state.
pub struct LowerContext {
    pub function: u32,
    pub block: u32,
    pub ssa_block: u32,
    pub ins: Seq<Instruction>,
    pub calls: Seq<Option<InferredCall>>,
    pub static_jumps: Seq<Option<StaticJumpDestination>>,
    pub control: BlockControl,
    pub verification: Verification,
}

pub open spec fn lower_context(
    function: u32,
    block: u32,
    ssa_block: u32,
    ins: Seq<Instruction>,
    inference: InternalCallInference,
    cfg: ProvisionalCfg,
    verification: Verification,
) -> LowerContext {
    LowerContext {
        function,
        block,
        ssa_block,
        ins,
        calls: inference.call_list(),
        static_jumps: inference.static_jump_list(),
        control: cfg.control_list()[block as int],
        verification,
    }
}

/// Appends operation `kind` reading `inputs` and defining `n` new values,
/// which go on top of the stack.
pub open spec fn push_op(
    c: LowerContext,
    st: Lowering,
    source: Option<u32>,
    kind: SsaOperationKind,
    inputs: Seq<u32>,
    n: nat,
) -> Result<Lowering, SsaError> {
    if st.ops.len() > u32::MAX || st.values.len() + n > u32::MAX + 1 {
        Err(SsaError::TooManyOperations { block: c.ssa_block })
    } else {
        let outputs = Seq::new(n, |o: int| (st.values.len() + o) as u32);
        Ok(Lowering {
            stack: outputs.map_values(|v: u32| StackValue::Data(v)) + st.stack,
            values: st.values + Seq::new(
                n,
                |o: int| SsaValueOrigin::Operation { block: c.ssa_block, operation: st.ops.len() as u32, output: o as u16 },
            ),
            ops: st.ops.push(OpView { source, kind, inputs, outputs }),
            condition: st.condition,
        })
    }
}

/// The data values of the first `k` slots of `stack`, which must all hold
/// data; `stack` must have `k` slots.
pub open spec fn take_data(stack: Seq<StackValue>, k: nat, block: u32, instruction: u32) -> Result<Seq<u32>, SsaError>
    decreases k,
{
    if k == 0 {
        Ok(Seq::empty())
    } else {
        match take_data(stack, (k - 1) as nat, block, instruction) {
            Ok(vs) => if stack.len() < k {
                Err(SsaError::StackUnderflow { block, instruction })
            } else {
                match stack[k - 1] {
                    StackValue::Data(v) => Ok(vs.push(v)),
                    _ => Err(SsaError::ControlValueUsedSemantically { block, instruction }),
                }
            },
            Err(e) => Err(e),
        }
    }
}

/// The arguments of a call among the first `k` slots of `stack`: the slot
/// at `return_input` must be the call's return destination, pushed by
/// `push`, and every other slot data.
pub open spec fn take_call_inputs(
    stack: Seq<StackValue>,
    k: nat,
    return_input: u16,
    push: u32,
    block: u32,
    call: u32,
) -> Result<Seq<u32>, SsaError>
    decreases k,
{
    if k == 0 {
        Ok(Seq::empty())
    } else {
        match take_call_inputs(stack, (k - 1) as nat, return_input, push, block, call) {
            Ok(vs) => if k - 1 == return_input {
                if stack[k - 1] == StackValue::CallReturn(push) {
                    Ok(vs)
                } else {
                    Err(SsaError::InvalidVerifiedCall { call })
                }
            } else {
                match stack[k - 1] {
                    StackValue::Data(v) => Ok(vs.push(v)),
                    _ => Err(SsaError::ControlValueUsedSemantically { block, instruction: call }),
                }
            },
            Err(e) => Err(e),
        }
    }
}

/// A `JUMP` at `id` whose destination slot `dest` was popped: a call
/// becomes an internal call operation on its arguments; a return must jump
/// to the function's return destination; a static jump to the slot its
/// push left.
pub open spec fn lower_jump(c: LowerContext, st: Lowering, id: u32, dest: StackValue) -> Result<(Lowering, bool), SsaError> {
    match c.calls[id as int] {
        Some(call) => if dest != StackValue::Control(call.destination_push) {
            Err(SsaError::InvalidControlValue { block: c.block, instruction: id })
        } else {
            match c.verification.function_list()[call.function as int].spec_arity() {
                FunctionArity::Root => Err(SsaError::InvalidVerifiedCall { call: id }),
                FunctionArity::Returning(a) => if st.stack.len() < a.physical.inputs {
                    Err(SsaError::StackUnderflow { block: c.block, instruction: id })
                } else if !c.verification.return_push_map().contains_key((c.function, id)) {
                    Err(SsaError::InvalidVerifiedCall { call: id })
                } else {
                    match take_call_inputs(
                        st.stack,
                        a.physical.inputs as nat,
                        a.return_input,
                        c.verification.return_push_map()[(c.function, id)],
                        c.block,
                        id,
                    ) {
                        Ok(args) => match push_op(
                            c,
                            Lowering { stack: st.stack.skip(a.physical.inputs as int), ..st },
                            Some(id),
                            SsaOperationKind::InternalCall(call.function),
                            args,
                            a.physical.outputs as nat,
                        ) {
                            Ok(s) => Ok((s, false)),
                            Err(e) => Err(e),
                        },
                        Err(e) => Err(e),
                    }
                },
            }
        },
        None => if c.control == BlockControl::InternalReturn {
            if dest != StackValue::FunctionReturn {
                Err(SsaError::InvalidVerifiedReturn { function: c.function, block: c.block })
            } else {
                Ok((st, false))
            }
        } else {
            match c.static_jumps[id as int] {
                Some(sd) => if dest != StackValue::Control(sd.push) {
                    Err(SsaError::InvalidControlValue { block: c.block, instruction: id })
                } else {
                    Ok((st, false))
                },
                None => Ok((st, false)),
            }
        },
    }
}

/// Lowers instruction `id`; says whether the block ends there.
pub open spec fn lower_step(c: LowerContext, st: Lowering, id: u32) -> Result<(Lowering, bool), SsaError> {
    let i = c.ins[id as int];
    let uf = SsaError::StackUnderflow { block: c.block, instruction: id };
    match i.op {
        Err(_) => match push_op(c, st, Some(id), SsaOperationKind::Opcode(Opcode::Invalid), Seq::empty(), 0) {
            Ok(s) => Ok((s, true)),
            Err(e) => Err(e),
        },
        Ok(op) => if op.spec_is_push() || op == Opcode::Push0 {
            if c.verification.return_push_set().contains((c.function, id)) {
                Ok((Lowering { stack: seq![StackValue::CallReturn(id)] + st.stack, ..st }, false))
            } else if c.verification.control_push_set().contains((c.function, id)) {
                Ok((Lowering { stack: seq![StackValue::Control(id)] + st.stack, ..st }, false))
            } else {
                let value = if op == Opcode::Push0 {
                    Word { limb3: 0, limb2: 0, limb1: 0, limb0: 0 }
                } else {
                    pushed_word(i)
                };
                match push_op(c, st, Some(id), SsaOperationKind::Constant(value), Seq::empty(), 1) {
                    Ok(s) => Ok((s, false)),
                    Err(e) => Err(e),
                }
            }
        } else if op.spec_dup_depth() is Some {
            let d = op.spec_dup_depth()->0 as int;
            if st.stack.len() < d {
                Err(uf)
            } else {
                Ok((Lowering { stack: seq![st.stack[d - 1]] + st.stack, ..st }, false))
            }
        } else if op.spec_swap_depth() is Some {
            let d = op.spec_swap_depth()->0 as int;
            if st.stack.len() <= d {
                Err(uf)
            } else {
                Ok((Lowering { stack: st.stack.update(0, st.stack[d]).update(d, st.stack[0]), ..st }, false))
            }
        } else if op == Opcode::Pop {
            if st.stack.len() == 0 {
                Err(uf)
            } else {
                Ok((Lowering { stack: st.stack.drop_first(), ..st }, false))
            }
        } else if op == Opcode::JumpDest {
            Ok((st, false))
        } else if op == Opcode::Jump {
            if st.stack.len() == 0 {
                Err(uf)
            } else {
                lower_jump(c, Lowering { stack: st.stack.drop_first(), ..st }, id, st.stack[0])
            }
        } else if op == Opcode::JumpI {
            if st.stack.len() < 2 {
                Err(uf)
            } else {
                match c.static_jumps[id as int] {
                    None => Err(SsaError::InvalidVerifiedControl { block: c.block }),
                    Some(sd) => if st.stack[0] != StackValue::Control(sd.push) {
                        Err(SsaError::InvalidControlValue { block: c.block, instruction: id })
                    } else {
                        match st.stack[1] {
                            StackValue::Data(v) => Ok((Lowering { stack: st.stack.skip(2), condition: Some(v), ..st }, false)),
                            _ => Err(SsaError::ControlValueUsedSemantically { block: c.block, instruction: id }),
                        }
                    },
                }
            }
        } else {
            let io = op.spec_stack_io();
            match take_data(st.stack, io.inputs as nat, c.block, id) {
                Ok(args) => match push_op(
                    c,
                    Lowering { stack: st.stack.skip(io.inputs as int), ..st },
                    Some(id),
                    SsaOperationKind::Opcode(op),
                    args,
                    io.outputs as nat,
                ) {
                    Ok(s) => Ok((s, op.spec_is_terminating())),
                    Err(e) => Err(e),
                },
                Err(e) => Err(e),
            }
        },
    }
}

/// Lowers instructions `id..end`, up to the first that ends the block.
pub open spec fn lower_from(c: LowerContext, st: Lowering, id: u32, end: u32) -> Result<Lowering, SsaError>
    decreases end - id,
{
    if id >= end {
        Ok(st)
    } else {
        match lower_step(c, st, id) {
            Ok((s, stop)) => if stop {
                Ok(s)
            } else {
                lower_from(c, s, (id + 1) as u32, end)
            },
            Err(e) => Err(e),
        }
    }
}

/// The values held by the data slots of `stack`, top first.
pub open spec fn data_slots(stack: Seq<StackValue>) -> Seq<u32>
    decreases stack.len(),
{
    if stack.len() == 0 {
        Seq::empty()
    } else {
        match stack.last() {
            StackValue::Data(v) => data_slots(stack.drop_last()).push(v),
            _ => data_slots(stack.drop_last()),
        }
    }
}

/// Ends a lowered block: the source control becomes a jump between the
/// function's SSA blocks (`targets` gives the SSA block of each source block
/// of the function), the data left on the stack becomes the block's outputs
/// unless it terminates, and falling off the code or jumping nowhere ends
/// in a synthetic operation.
pub open spec fn finish_block(
    c: LowerContext,
    st: Lowering,
    inputs: Seq<u32>,
    targets: Seq<Option<u32>>,
    end: u32,
) -> Result<(BlockView, Seq<SsaValueOrigin>), SsaError> {
    let data = data_slots(st.stack);
    let bad = SsaError::InvalidVerifiedControl { block: c.block };
    let done = |control: SsaControl, s: Lowering| (BlockView {
        source: Some(c.block),
        inputs,
        outputs: if control == SsaControl::Terminates { Seq::empty() } else { data },
        operations: s.ops,
        control,
    }, s.values);
    match c.control {
        BlockControl::Fallthrough(t) => match targets[t as int] {
            Some(x) => Ok(done(SsaControl::Goto(x), st)),
            None => Err(bad),
        },
        BlockControl::Goto(t) => match targets[t as int] {
            Some(x) => Ok(done(SsaControl::Goto(x), st)),
            None => Err(bad),
        },
        BlockControl::Branch { non_zero, zero } => match st.condition {
            None => Err(SsaError::MissingBranchCondition { instruction: (end - 1) as u32 }),
            Some(cond) => match (targets[non_zero as int], targets[zero as int]) {
                (Some(a), Some(b)) => Ok(done(SsaControl::Branch { condition: cond, non_zero: a, zero: b }, st)),
                _ => Err(bad),
            },
        },
        BlockControl::InternalReturn => Ok(done(SsaControl::InternalReturn, st)),
        BlockControl::Terminates => Ok(done(SsaControl::Terminates, st)),
        BlockControl::EndOfCode => match push_op(c, st, None, SsaOperationKind::SyntheticStop, Seq::empty(), 0) {
            Ok(s) => Ok(done(SsaControl::Terminates, s)),
            Err(e) => Err(e),
        },
        BlockControl::InvalidJump => match push_op(c, st, None, SsaOperationKind::SyntheticInvalid, Seq::empty(), 0) {
            Ok(s) => Ok(done(SsaControl::Terminates, s)),
            Err(e) => Err(e),
        },
        _ => Err(bad),
    }
}

/// Converts the first `k` values of a verified entry stack into slots: the
/// function's return destination and call return pushes stay symbolic,
/// every other value becomes a new input of the block.
pub open spec fn entry_prefix(
    c: LowerContext,
    syms: Seq<Seq<SymbolicAtom>>,
    return_input: Option<u16>,
    values: Seq<SsaValueOrigin>,
    k: nat,
) -> Result<(Seq<StackValue>, Seq<u32>, Seq<SsaValueOrigin>), SsaError>
    decreases k,
{
    if k == 0 {
        Ok((Seq::empty(), Seq::empty(), values))
    } else {
        match entry_prefix(c, syms, return_input, values, (k - 1) as nat) {
            Ok((stack, inputs, vals)) => {
                let v = syms[k - 1];
                if return_input matches Some(r) && v.len() == 1 && v.contains(SymbolicAtom::FunctionInput(r)) {
                    Ok((stack.push(StackValue::FunctionReturn), inputs, vals))
                } else if v.len() == 1 && v[0] is Constant && c.verification.return_push_set().contains(
                    (c.function, v[0]->Constant_instruction),
                ) {
                    Ok((stack.push(StackValue::CallReturn(v[0]->Constant_instruction)), inputs, vals))
                } else if inputs.len() > 65535 {
                    Err(SsaError::StackTooDeep { block: c.block })
                } else if vals.len() > u32::MAX {
                    Err(SsaError::TooManyOperations { block: c.ssa_block })
                } else {
                    Ok((
                        stack.push(StackValue::Data(vals.len() as u32)),
                        inputs.push(vals.len() as u32),
                        vals.push(SsaValueOrigin::BlockInput { block: c.ssa_block, position: inputs.len() as u16 }),
                    ))
                }
            },
            Err(e) => Err(e),
        }
    }
}

/// Lowers a block spanning `span` of a function of arity `arity` whose
/// verified entry stack is `entry`, with the value table `values` so far.
/// Gives the SSA block and the value table after it.
pub open spec fn lower_block(
    c: LowerContext,
    span: Span,
    entry: Option<StackModel>,
    arity: FunctionArity,
    targets: Seq<Option<u32>>,
    values: Seq<SsaValueOrigin>,
) -> Result<(BlockView, Seq<SsaValueOrigin>), SsaError> {
    let bad = SsaError::InvalidVerifiedStack { function: c.function, block: c.block };
    match entry {
        None => Err(bad),
        Some(m) => {
            let n = arity_physical_inputs(arity);
            if !m.open && n > m.next_input {
                Err(bad)
            } else if m.next_input > n || m.required_inputs > n {
                Err(bad)
            } else {
                let syms = m.values + input_values(m.next_input, (n - m.next_input) as nat);
                let return_input = match arity {
                    FunctionArity::Returning(a) => Some(a.return_input),
                    FunctionArity::Root => None,
                };
                match entry_prefix(c, syms, return_input, values, syms.len()) {
                    Ok((stack, inputs, vals)) => match lower_from(
                        c,
                        Lowering { stack, values: vals, ops: Seq::empty(), condition: None },
                        span.start,
                        span.end,
                    ) {
                        Ok(st) => finish_block(c, st, inputs, targets, span.end),
                        Err(e) => Err(e),
                    },
                    Err(e) => Err(e),
                }
            }
        },
    }
}

/// All physical inputs of an arity, the return destination included.
pub open spec fn arity_physical_inputs(a: FunctionArity) -> nat {
    match a {
        FunctionArity::Root => 0,
        FunctionArity::Returning(r) => r.physical.inputs as nat,
    }
}


proof fn lemma_take_data_err(stack: Seq<StackValue>, k: nat, n: nat, block: u32, instruction: u32)
    requires
        k <= n,
        take_data(stack, k, block, instruction) is Err,
    ensures
        take_data(stack, n, block, instruction) == take_data(stack, k, block, instruction),
    decreases n - k,
{
    if k < n {
        lemma_take_data_err(stack, k, (n - 1) as nat, block, instruction);
    }
}

proof fn lemma_take_call_inputs_err(
    stack: Seq<StackValue>,
    k: nat,
    n: nat,
    return_input: u16,
    push: u32,
    block: u32,
    call: u32,
)
    requires
        k <= n,
        take_call_inputs(stack, k, return_input, push, block, call) is Err,
    ensures
        take_call_inputs(stack, n, return_input, push, block, call) == take_call_inputs(stack, k, return_input, push, block, call),
    decreases n - k,
{
    if k < n {
        lemma_take_call_inputs_err(stack, k, (n - 1) as nat, return_input, push, block, call);
    }
}

/// Appends an operation to a block's operations, defining its outputs.
fn push_operation(
    block: u32,
    values: &mut Vec<SsaValueOrigin>,
    operations: &mut Vec<SsaOperation>,
    source: Option<u32>,
    kind: SsaOperationKind,
    inputs: Vec<u32>,
    output_count: u16,
) -> (r: Result<Vec<u32>, SsaError>)
    ensures
        r matches Err(e) ==> e == (SsaError::TooManyOperations { block }) && final(values)@ == old(values)@
            && final(operations)@ == old(operations)@,
        r is Err <==> old(operations)@.len() > u32::MAX || old(values)@.len() + output_count > u32::MAX + 1,
        r matches Ok(outputs) ==> {
            &&& outputs@.len() == output_count
            &&& forall|o: int| 0 <= o < output_count ==> #[trigger] outputs@[o] == old(values)@.len() + o
            &&& final(values)@ == old(values)@ + Seq::new(
                output_count as nat,
                |o: int|
                    SsaValueOrigin::Operation {
                        block,
                        operation: old(operations)@.len() as u32,
                        output: o as u16,
                    },
            )
            &&& final(operations)@.len() == old(operations)@.len() + 1
            &&& final(operations)@.drop_last() == old(operations)@
            &&& final(operations)@.last().source == source
            &&& final(operations)@.last().kind == kind
            &&& final(operations)@.last().inputs@ == inputs@
            &&& final(operations)@.last().outputs@ == outputs@
            &&& outputs@ == Seq::new(output_count as nat, |o: int| (old(values)@.len() + o) as u32)
            &&& op_views(final(operations)@) == op_views(old(operations)@).push(
                OpView { source, kind, inputs: inputs@, outputs: outputs@ },
            )
        },
{
    if operations.len() as u64 > 0xffff_ffff || values.len() as u64 > 0x1_0000_0000
        || values.len() as u64 + output_count as u64 > 0x1_0000_0000 {
        return Err(SsaError::TooManyOperations { block });
    }
    let operation = operations.len() as u32;
    let ghost start = values@;
    let mut outputs: Vec<u32> = Vec::new();
    let mut output: u16 = 0;
    while output < output_count
        invariant
            output <= output_count,
            start.len() + output_count <= u32::MAX + 1,
            outputs@.len() == output,
            forall|o: int| 0 <= o < output ==> #[trigger] outputs@[o] == start.len() + o,
            values@ == start + Seq::new(
                output as nat,
                |o: int| SsaValueOrigin::Operation { block, operation, output: o as u16 },
            ),
        decreases output_count - output,
    {
        let id = values.len() as u32;
        values.push(SsaValueOrigin::Operation { block, operation, output });
        outputs.push(id);
        proof {
            assert(values@ =~= start + Seq::new(
                (output + 1) as nat,
                |o: int| SsaValueOrigin::Operation { block, operation, output: o as u16 },
            ));
        }
        output = output + 1;
    }
    let recorded = outputs.clone();
    proof {
        assert(recorded@ =~= outputs@);
    }
    let ghost ops_before = operations@;
    let ghost input_view = inputs@;
    operations.push(SsaOperation { source, kind, inputs, outputs: recorded });
    proof {
        assert(outputs@ =~= Seq::new(output_count as nat, |o: int| (start.len() + o) as u32));
        assert(op_views(operations@) =~= op_views(ops_before).push(
            OpView { source, kind, inputs: input_view, outputs: outputs@ },
        ));
    }
    Ok(outputs)
}

/// Takes the top value of the stack.
fn pop(stack: &mut Vec<StackValue>, block: u32, instruction: u32) -> (r: Result<StackValue, SsaError>)
    ensures
        old(stack)@.len() == 0 ==> r == Err::<StackValue, SsaError>(SsaError::StackUnderflow { block, instruction })
            && final(stack)@ == old(stack)@,
        old(stack)@.len() > 0 ==> r == Ok::<StackValue, SsaError>(old(stack)@[0]) && final(stack)@ == old(stack)@.drop_first(),
{
    if stack.len() == 0 {
        Err(SsaError::StackUnderflow { block, instruction })
    } else {
        Ok(stack.remove(0))
    }
}

/// The SSA value a stack slot holds, which must be data.
fn expect_data(value: StackValue, block: u32, instruction: u32) -> (r: Result<u32, SsaError>)
    ensures
        r == match value {
            StackValue::Data(v) => Ok::<u32, SsaError>(v),
            _ => Err(SsaError::ControlValueUsedSemantically { block, instruction }),
        },
{
    match value {
        StackValue::Data(value) => Ok(value),
        _ => Err(SsaError::ControlValueUsedSemantically { block, instruction }),
    }
}

/// Checks that a stack slot holds the destination pushed by `push`.
fn expect_control(value: StackValue, push: u32, block: u32, instruction: u32) -> (r: Result<(), SsaError>)
    ensures
        r == if value == StackValue::Control(push) {
            Ok::<(), SsaError>(())
        } else {
            Err(SsaError::InvalidControlValue { block, instruction })
        },
{
    if value == StackValue::Control(push) {
        Ok(())
    } else {
        Err(SsaError::InvalidControlValue { block, instruction })
    }
}

/// The return push a symbolic value is exactly, if it is one.
fn unique_return_push(function: u32, value: &SymbolicValue, verification: &Verification) -> (r: Option<u32>)
    ensures
        r == if value@.len() == 1 && value@[0] is Constant && verification.return_push_set().contains(
            (function, value@[0]->Constant_instruction),
        ) {
            Some(value@[0]->Constant_instruction)
        } else {
            None::<u32>
        },
{
    if value.len() != 1 {
        return None;
    }
    match value[0] {
        SymbolicAtom::Constant { instruction, .. } => {
            if verification.is_return_push(function, instruction) {
                Some(instruction)
            } else {
                None
            }
        },
        _ => None,
    }
}

/// No two pairs of a function and a source block share an SSA block.
pub open spec fn distinct_targets(map: Seq<Seq<Option<u32>>>, nb: nat) -> bool {
    forall|f: int, b: int, g: int, c: int|
        0 <= f < map.len() && 0 <= b < nb && 0 <= g < map.len() && 0 <= c < nb && (#[trigger] map[f][b]) is Some
            && map[f][b] == #[trigger] map[g][c] ==> f == g && b == c
}

/// The verified program in SSA form: its functions, their blocks (one per
/// function and source block it owns), and where each value is defined.
#[derive(Debug, Clone)]
pub struct SsaProgram {
    functions: Vec<SsaFunction>,
    blocks: Vec<SsaBlock>,
    values: Vec<SsaValueOrigin>,
    source_blocks: Vec<Vec<Option<u32>>>,
}

impl SsaProgram {
    pub closed spec fn function_list(&self) -> Seq<SsaFunction> {
        self.functions@
    }

    pub closed spec fn block_list(&self) -> Seq<SsaBlock> {
        self.blocks@
    }

    pub closed spec fn value_list(&self) -> Seq<SsaValueOrigin> {
        self.values@
    }

    pub closed spec fn source_map(&self) -> Seq<Seq<Option<u32>>> {
        self.source_blocks@.map_values(|v: Vec<Option<u32>>| v@)
    }

    /// Every block is in SSA form over the value table.
    pub open spec fn blocks_ok(&self) -> bool {
        forall|sb: int| 0 <= sb < self.block_list().len() ==> block_ok(self.value_list(), sb as u32, #[trigger] self.block_list()[sb])
    }

    /// Each function has an SSA block exactly for each source block it owns.
    pub open spec fn sources_ok(&self, ownership: Ownership, nb: nat) -> bool {
        &&& self.source_map().len() == ownership.function_list().len()
        &&& self.block_list().len() <= u32::MAX
        &&& forall|f: int| 0 <= f < self.source_map().len() ==> (#[trigger] self.source_map()[f]).len() == nb
        &&& forall|f: int, b: int|
            0 <= f < self.source_map().len() && 0 <= b < nb ==> (#[trigger] self.source_map()[f][b] is Some
                <==> ownership.owner_sets()[b].contains(f as u32))
        &&& forall|f: int, b: int|
            0 <= f < self.source_map().len() && 0 <= b < nb ==> (#[trigger] self.source_map()[f][b] matches Some(sb)
                ==> sb < self.block_list().len())
        &&& distinct_targets(self.source_map(), nb)
    }

    pub fn functions(&self) -> (r: &Vec<SsaFunction>)
        ensures
            r@ == self.function_list(),
    {
        &self.functions
    }

    pub fn blocks(&self) -> (r: &Vec<SsaBlock>)
        ensures
            r@ == self.block_list(),
    {
        &self.blocks
    }

    pub fn values(&self) -> (r: &Vec<SsaValueOrigin>)
        ensures
            r@ == self.value_list(),
    {
        &self.values
    }

    /// The SSA block of `block` in `function`, if the function owns it.
    pub fn source_block(&self, function: u32, block: u32) -> (r: Option<u32>)
        requires
            function < self.source_map().len(),
            block < self.source_map()[function as int].len(),
        ensures
            r == self.source_map()[function as int][block as int],
    {
        self.source_blocks[function as usize][block as usize]
    }
}

/// A value table extends another.
pub open spec fn extends(old_values: Seq<SsaValueOrigin>, new_values: Seq<SsaValueOrigin>) -> bool {
    old_values.len() <= new_values.len() && new_values.take(old_values.len() as int) == old_values
}

proof fn lemma_available_mono(
    a: Seq<SsaValueOrigin>,
    b: Seq<SsaValueOrigin>,
    sb: u32,
    k: int,
    k2: int,
    v: u32,
)
    requires
        extends(a, b),
        available(a, sb, k, v),
        k <= k2,
    ensures
        available(b, sb, k2, v),
{
    assert(b[v as int] == b.take(a.len() as int)[v as int]);
}

proof fn lemma_block_ok_mono(a: Seq<SsaValueOrigin>, b: Seq<SsaValueOrigin>, sb: u32, blk: SsaBlock)
    requires
        extends(a, b),
        block_ok(a, sb, blk),
    ensures
        block_ok(b, sb, blk),
{
    assert forall|p: int| 0 <= p < blk.inputs@.len() implies #[trigger] blk.inputs@[p] < b.len() && b[blk.inputs@[p] as int]
        == (SsaValueOrigin::BlockInput { block: sb, position: p as u16 }) by {
        assert(b[blk.inputs@[p] as int] == b.take(a.len() as int)[blk.inputs@[p] as int]);
    }
    let ops = blk.operations@;
    assert forall|k: int, o: int|
        0 <= k < ops.len() && 0 <= o < ops[k].outputs@.len() implies #[trigger] ops[k].outputs@[o] < b.len()
            && b[ops[k].outputs@[o] as int] == (SsaValueOrigin::Operation {
            block: sb,
            operation: k as u32,
            output: o as u16,
        }) by {
        assert(b[ops[k].outputs@[o] as int] == b.take(a.len() as int)[ops[k].outputs@[o] as int]);
    }
    assert forall|k: int, i: int|
        0 <= k < ops.len() && 0 <= i < ops[k].inputs@.len() implies available(b, sb, k, #[trigger] ops[k].inputs@[i]) by {
        lemma_available_mono(a, b, sb, k, k, ops[k].inputs@[i]);
    }
    assert forall|i: int| 0 <= i < blk.outputs@.len() implies available(b, sb, ops.len() as int, #[trigger] blk.outputs@[i]) by {
        lemma_available_mono(a, b, sb, ops.len() as int, ops.len() as int, blk.outputs@[i]);
    }
    if let SsaControl::Branch { condition, .. } = blk.control {
        lemma_available_mono(a, b, sb, ops.len() as int, ops.len() as int, condition);
    }
}

/// Every data slot of the stack holds a value available to operation `k`.
spec fn stack_ok(values: Seq<SsaValueOrigin>, sb: u32, k: int, stack: Seq<StackValue>) -> bool {
    forall|i: int| 0 <= i < stack.len() ==> (#[trigger] stack[i] matches StackValue::Data(v) ==> available(values, sb, k, v))
}

proof fn lemma_stack_ok_mono(a: Seq<SsaValueOrigin>, b: Seq<SsaValueOrigin>, sb: u32, k: int, k2: int, stack: Seq<StackValue>)
    requires
        extends(a, b),
        stack_ok(a, sb, k, stack),
        k <= k2,
    ensures
        stack_ok(b, sb, k2, stack),
{
    assert forall|i: int| 0 <= i < stack.len() implies (#[trigger] stack[i] matches StackValue::Data(v) ==> available(b, sb, k2, v)) by {
        if let StackValue::Data(v) = stack[i] {
            lemma_available_mono(a, b, sb, k, k2, v);
        }
    }
}

proof fn lemma_operations_ok_push(
    a: Seq<SsaValueOrigin>,
    b: Seq<SsaValueOrigin>,
    sb: u32,
    ops: Seq<SsaOperation>,
    ops2: Seq<SsaOperation>,
)
    requires
        extends(a, b),
        operations_ok(a, sb, ops),
        ops2.len() == ops.len() + 1,
        ops2.drop_last() == ops,
        forall|i: int| 0 <= i < ops2.last().inputs@.len() ==> available(a, sb, ops.len() as int, #[trigger] ops2.last().inputs@[i]),
        forall|o: int| 0 <= o < ops2.last().outputs@.len() ==> #[trigger] ops2.last().outputs@[o] < b.len()
            && b[ops2.last().outputs@[o] as int] == (SsaValueOrigin::Operation {
            block: sb,
            operation: ops.len() as u32,
            output: o as u16,
        }),
    ensures
        operations_ok(b, sb, ops2),
{
    assert forall|k: int, o: int|
        0 <= k < ops2.len() && 0 <= o < ops2[k].outputs@.len() implies #[trigger] ops2[k].outputs@[o] < b.len()
            && b[ops2[k].outputs@[o] as int] == (SsaValueOrigin::Operation {
            block: sb,
            operation: k as u32,
            output: o as u16,
        }) by {
        if k < ops.len() {
            assert(ops2[k] == ops[k]);
            assert(b[ops[k].outputs@[o] as int] == b.take(a.len() as int)[ops[k].outputs@[o] as int]);
        }
    }
    assert forall|k: int, i: int|
        0 <= k < ops2.len() && 0 <= i < ops2[k].inputs@.len() implies available(b, sb, k, #[trigger] ops2[k].inputs@[i]) by {
        if k < ops.len() {
            assert(ops2[k] == ops[k]);
            lemma_available_mono(a, b, sb, k, k, ops[k].inputs@[i]);
        } else {
            lemma_available_mono(a, b, sb, ops.len() as int, k, ops2.last().inputs@[i]);
        }
    }
}


proof fn lemma_entry_prefix_err(
    c: LowerContext,
    syms: Seq<Seq<SymbolicAtom>>,
    return_input: Option<u16>,
    values: Seq<SsaValueOrigin>,
    k: nat,
    n: nat,
)
    requires
        k <= n,
        entry_prefix(c, syms, return_input, values, k) is Err,
    ensures
        entry_prefix(c, syms, return_input, values, n) == entry_prefix(c, syms, return_input, values, k),
    decreases n - k,
{
    if k < n {
        lemma_entry_prefix_err(c, syms, return_input, values, k, (n - 1) as nat);
    }
}

/// Turns the verified entry stack of a block into the block's starting SSA
/// stack: the function's return destination and call return pushes stay
/// symbolic, every other value becomes a block input.
fn entry_stack(
    function: u32,
    block: u32,
    ssa_block: u32,
    symbolic_values: &Vec<SymbolicValue>,
    return_input: Option<u16>,
    verification: &Verification,
    values: &mut Vec<SsaValueOrigin>,
    Ghost(c): Ghost<LowerContext>,
) -> (r: Result<(Vec<StackValue>, Vec<u32>), SsaError>)
    requires
        c.function == function,
        c.block == block,
        c.ssa_block == ssa_block,
        c.verification == *verification,
    ensures
        match entry_prefix(c, views(symbolic_values@), return_input, old(values)@, symbolic_values@.len()) {
            Ok((slots, inputs, vals)) => r matches Ok(res) && res.0@ == slots && res.1@ == inputs && final(values)@ == vals,
            Err(e) => r == Err::<(Vec<StackValue>, Vec<u32>), SsaError>(e),
        },
        extends(old(values)@, final(values)@),
        forall|v: int| old(values)@.len() <= v < final(values)@.len() ==> origin_block(#[trigger] final(values)@[v]) == ssa_block,
        r matches Ok(res) ==> {
            &&& res.0@.len() == symbolic_values@.len()
            &&& inputs_ok(final(values)@, ssa_block, res.1@)
            &&& stack_ok(final(values)@, ssa_block, 0, res.0@)
        },
        r matches Err(e) ==> e == (SsaError::StackTooDeep { block }) || e == (SsaError::TooManyOperations { block: ssa_block }),
{
    let ghost start = values@;
    let mut stack: Vec<StackValue> = Vec::new();
    let mut inputs: Vec<u32> = Vec::new();
    let mut position: usize = 0;
    proof {
        assert(values@.take(values@.len() as int) =~= values@);
    }
    while position < symbolic_values.len()
        invariant
            start == old(values)@,
            position <= symbolic_values@.len(),
            stack@.len() == position,
            extends(start, values@),
            forall|v: int| start.len() <= v < values@.len() ==> origin_block(#[trigger] values@[v]) == ssa_block,
            inputs_ok(values@, ssa_block, inputs@),
            stack_ok(values@, ssa_block, 0, stack@),
            c.function == function,
            c.block == block,
            c.ssa_block == ssa_block,
            c.verification == *verification,
            entry_prefix(c, views(symbolic_values@), return_input, start, position as nat)
                == Ok::<(Seq<StackValue>, Seq<u32>, Seq<SsaValueOrigin>), SsaError>((stack@, inputs@, values@)),
        decreases symbolic_values@.len() - position,
    {
        proof {
            assert(views(symbolic_values@)[position as int] == symbolic_values@[position as int]@);
        }
        let value = &symbolic_values[position];
        let is_return = match return_input {
            Some(r) => value.len() == 1 && crate::symbolic::value_contains(value, SymbolicAtom::FunctionInput(r)),
            None => false,
        };
        let ghost before_values = values@;
        let ghost before_stack = stack@;
        if is_return {
            stack.push(StackValue::FunctionReturn);
        } else {
            match unique_return_push(function, value, verification) {
                Some(push) => {
                    stack.push(StackValue::CallReturn(push));
                },
                None => {
                    if inputs.len() > 65535 {
                        proof {
                            lemma_entry_prefix_err(c, views(symbolic_values@), return_input, start, (position + 1) as nat, symbolic_values@.len());
                        }
                        return Err(SsaError::StackTooDeep { block });
                    }
                    if values.len() as u64 > 0xffff_ffff {
                        proof {
                            lemma_entry_prefix_err(c, views(symbolic_values@), return_input, start, (position + 1) as nat, symbolic_values@.len());
                        }
                        return Err(SsaError::TooManyOperations { block: ssa_block });
                    }
                    let id = values.len() as u32;
                    let position_in_inputs = inputs.len() as u16;
                    values.push(SsaValueOrigin::BlockInput { block: ssa_block, position: position_in_inputs });
                    inputs.push(id);
                    stack.push(StackValue::Data(id));
                    proof {
                        assert(values@.take(before_values.len() as int) =~= before_values);
                        assert(values@.take(start.len() as int) =~= start);
                        assert forall|p: int| 0 <= p < inputs@.len() implies #[trigger] inputs@[p] < values@.len()
                            && values@[inputs@[p] as int] == (SsaValueOrigin::BlockInput { block: ssa_block, position: p as u16 }) by {
                            if p < inputs@.len() - 1 {
                                assert(values@[inputs@[p] as int] == before_values[inputs@[p] as int]);
                            }
                        }
                        lemma_stack_ok_mono(before_values, values@, ssa_block, 0, 0, before_stack);
                        assert forall|i: int| 0 <= i < stack@.len() implies (#[trigger] stack@[i] matches StackValue::Data(v)
                            ==> available(values@, ssa_block, 0, v)) by {
                            if i < before_stack.len() {
                                assert(stack@[i] == before_stack[i]);
                            }
                        }
                    }
                },
            }
        }
        proof {
            assert forall|i: int| 0 <= i < stack@.len() implies (#[trigger] stack@[i] matches StackValue::Data(v)
                ==> available(values@, ssa_block, 0, v)) by {
                if i < before_stack.len() {
                    assert(stack@[i] == before_stack[i]);
                    if values@ != before_values {
                        lemma_stack_ok_mono(before_values, values@, ssa_block, 0, 0, before_stack);
                    }
                }
            }
        }
        position = position + 1;
    }
    Ok((stack, inputs))
}

/// Pushes operation results so that the first result ends on top.
fn push_results(stack: &mut Vec<StackValue>, outputs: &Vec<u32>)
    ensures
        final(stack)@ == outputs@.map_values(|v: u32| StackValue::Data(v)) + old(stack)@,
{
    let mut i = outputs.len();
    while i > 0
        invariant
            i <= outputs@.len(),
            stack@ == outputs@.skip(i as int).map_values(|v: u32| StackValue::Data(v)) + old(stack)@,
        decreases i,
    {
        i = i - 1;
        let ghost before = stack@;
        stack.insert(0, StackValue::Data(outputs[i]));
        proof {
            assert(outputs@.skip(i as int).map_values(|v: u32| StackValue::Data(v)) =~= seq![StackValue::Data(outputs@[i as int])]
                + outputs@.skip(i + 1).map_values(|v: u32| StackValue::Data(v)));
            assert(stack@ =~= outputs@.skip(i as int).map_values(|v: u32| StackValue::Data(v)) + old(stack)@);
        }
    }
    proof {
        assert(outputs@.skip(0) =~= outputs@);
    }
}

/// The invariants of a block being lowered: its operations are in SSA form
/// and its stack holds available values.
spec fn lowering_ok(
    values: Seq<SsaValueOrigin>,
    sb: u32,
    operations: Seq<SsaOperation>,
    stack: Seq<StackValue>,
    branch_condition: Option<u32>,
) -> bool {
    &&& operations_ok(values, sb, operations)
    &&& stack_ok(values, sb, operations.len() as int, stack)
    &&& branch_condition matches Some(c) ==> available(values, sb, operations.len() as int, c)
}

/// Adding an operation whose inputs are available keeps a lowering in SSA form.
proof fn lemma_lowering_push(
    a: Seq<SsaValueOrigin>,
    b: Seq<SsaValueOrigin>,
    sb: u32,
    ops: Seq<SsaOperation>,
    ops2: Seq<SsaOperation>,
    stack: Seq<StackValue>,
    outputs: Seq<u32>,
    branch_condition: Option<u32>,
)
    requires
        extends(a, b),
        lowering_ok(a, sb, ops, stack, branch_condition),
        ops2.len() == ops.len() + 1,
        ops2.drop_last() == ops,
        forall|i: int| 0 <= i < ops2.last().inputs@.len() ==> available(a, sb, ops.len() as int, #[trigger] ops2.last().inputs@[i]),
        ops2.last().outputs@ == outputs,
        forall|o: int| 0 <= o < outputs.len() ==> #[trigger] outputs[o] < b.len() && b[outputs[o] as int] == (SsaValueOrigin::Operation {
            block: sb,
            operation: ops.len() as u32,
            output: o as u16,
        }),
    ensures
        lowering_ok(b, sb, ops2, outputs.map_values(|v: u32| StackValue::Data(v)) + stack, branch_condition),
{
    lemma_operations_ok_push(a, b, sb, ops, ops2);
    lemma_stack_ok_mono(a, b, sb, ops.len() as int, ops2.len() as int, stack);
    let full = outputs.map_values(|v: u32| StackValue::Data(v)) + stack;
    assert forall|i: int| 0 <= i < full.len() implies (#[trigger] full[i] matches StackValue::Data(v) ==> available(
        b,
        sb,
        ops2.len() as int,
        v,
    )) by {
        if i >= outputs.len() {
            assert(full[i] == stack[i - outputs.len()]);
        } else {
            assert(full[i] == StackValue::Data(outputs[i]));
        }
    }
    if let Some(c) = branch_condition {
        lemma_available_mono(a, b, sb, ops.len() as int, ops2.len() as int, c);
    }
}

/// Lowers one instruction of `block` for `function`: constants and opcodes
/// become operations, stack shuffles move SSA values, calls become internal
/// call operations, and jump destinations are checked against the pushes
/// that verification marked. Says whether the block ends here.
#[verifier::rlimit(100)]
#[verifier::loop_isolation(false)]
fn lower_instruction(
    function: u32,
    block: u32,
    ssa_block: u32,
    instruction_id: u32,
    decoded: &DecodedBytecode,
    inference: &InternalCallInference,
    cfg: &ProvisionalCfg,
    verification: &Verification,
    stack: &mut Vec<StackValue>,
    values: &mut Vec<SsaValueOrigin>,
    operations: &mut Vec<SsaOperation>,
    branch_condition: &mut Option<u32>,
) -> (r: Result<bool, SsaError>)
    requires
        decoded.wf(),
        inference.wf(),
        inference.source() == decoded.instruction_list(),
        cfg.built_from(decoded.instruction_list(), *inference),
        instruction_id < decoded.instruction_list().len(),
        block < cfg.control_list().len(),
        inference.function_list().len() <= verification.function_list().len(),
        lowering_ok(old(values)@, ssa_block, old(operations)@, old(stack)@, *old(branch_condition)),
    ensures
        extends(old(values)@, final(values)@),
        forall|v: int| old(values)@.len() <= v < final(values)@.len() ==> origin_block(#[trigger] final(values)@[v]) == ssa_block,
        r is Ok ==> lowering_ok(final(values)@, ssa_block, final(operations)@, final(stack)@, *final(branch_condition)),
        ({
            let c = lower_context(function, block, ssa_block, decoded.instruction_list(), *inference, *cfg, *verification);
            let st = Lowering {
                stack: old(stack)@,
                values: old(values)@,
                ops: op_views(old(operations)@),
                condition: *old(branch_condition),
            };
            match lower_step(c, st, instruction_id) {
                Ok((next, stop)) => {
                    &&& r == Ok::<bool, SsaError>(stop)
                    &&& final(stack)@ == next.stack
                    &&& final(values)@ == next.values
                    &&& op_views(final(operations)@) == next.ops
                    &&& *final(branch_condition) == next.condition
                },
                Err(e) => r == Err::<bool, SsaError>(e),
            }
        }),
{
    let ghost c = lower_context(function, block, ssa_block, decoded.instruction_list(), *inference, *cfg, *verification);
    let ghost st0 = Lowering { stack: stack@, values: values@, ops: op_views(operations@), condition: *branch_condition };
    let ghost ins = decoded.instruction_list();
    let ghost vals0 = values@;
    let ghost ops0 = operations@;
    let ghost stack0 = stack@;
    proof {
        assert(values@.take(values@.len() as int) =~= values@);
    }
    let instruction = decoded.instruction(instruction_id);
    proof {
        assert(instruction.decodes(decoded.code(), instruction.pc as int));
    }
    match instruction.op {
        Err(_) => {
            let outputs = match push_operation(
                ssa_block,
                values,
                operations,
                Some(instruction_id),
                SsaOperationKind::Opcode(Opcode::Invalid),
                Vec::new(),
                0,
            ) {
                Ok(o) => o,
                Err(e) => {
                    return Err(e);
                },
            };
            proof {
                lemma_values_added(vals0, values@, ssa_block, ops0.len() as u32, 0);
                lemma_lowering_push(vals0, values@, ssa_block, ops0, operations@, stack0, outputs@, *branch_condition);
                assert(outputs@.map_values(|v: u32| StackValue::Data(v)) + stack0 =~= stack0);
            }
            Ok(true)
        },
        Ok(op) => {
            if op.is_push() || op == Opcode::Push0 {
                if verification.is_return_push(function, instruction_id) {
                    stack.insert(0, StackValue::CallReturn(instruction_id));
                    proof {
                        lemma_stack_insert_ok(vals0, ssa_block, ops0.len() as int, stack0, StackValue::CallReturn(instruction_id));
                    }
                } else if verification.is_control_push(function, instruction_id) {
                    stack.insert(0, StackValue::Control(instruction_id));
                    proof {
                        lemma_stack_insert_ok(vals0, ssa_block, ops0.len() as int, stack0, StackValue::Control(instruction_id));
                    }
                } else {
                    let value = if op == Opcode::Push0 {
                        Word::zero()
                    } else {
                        match instruction.immediate_as_u256() {
                            Some(bytes) => {
                                let w = Word::from_be_bytes(bytes);
                                proof {
                                    assert(bytes@ =~= crate::stack_bound::pushed_bytes(*instruction));
                                    let p = pushed_word(*instruction);
                                    assert(crate::word::word_value(p) == crate::decode::be_value(crate::stack_bound::pushed_bytes(*instruction)));
                                    crate::word::lemma_word_value_injective(p, w);
                                }
                                w
                            },
                            None => {
                                proof {
                                    assert(false);
                                }
                                Word::zero()
                            },
                        }
                    };
                    let outputs = match push_operation(
                        ssa_block,
                        values,
                        operations,
                        Some(instruction_id),
                        SsaOperationKind::Constant(value),
                        Vec::new(),
                        1,
                    ) {
                        Ok(o) => o,
                        Err(e) => {
                            return Err(e);
                        },
                    };
                    proof {
                        lemma_values_added(vals0, values@, ssa_block, ops0.len() as u32, 1);
                        lemma_lowering_push(vals0, values@, ssa_block, ops0, operations@, stack0, outputs@, *branch_condition);
                    }
                    push_results(stack, &outputs);
                }
                Ok(false)
            } else if op.is_dup().is_some() {
                let depth = match op.is_dup() {
                    Some(d) => d as usize,
                    None => 1,
                };
                if stack.len() < depth {
                    return Err(SsaError::StackUnderflow { block, instruction: instruction_id });
                }
                let value = stack[depth - 1];
                stack.insert(0, value);
                proof {
                    assert(stack0[depth - 1] == value);
                    lemma_stack_insert_ok(vals0, ssa_block, ops0.len() as int, stack0, value);
                }
                Ok(false)
            } else if op.is_swap().is_some() {
                let depth = match op.is_swap() {
                    Some(d) => d as usize,
                    None => 1,
                };
                if stack.len() <= depth {
                    return Err(SsaError::StackUnderflow { block, instruction: instruction_id });
                }
                let top = stack[0];
                let deep = stack[depth];
                stack.set(0, deep);
                stack.set(depth, top);
                proof {
                    assert forall|i: int| 0 <= i < stack@.len() implies (#[trigger] stack@[i] matches StackValue::Data(v)
                        ==> available(values@, ssa_block, operations@.len() as int, v)) by {
                        if i == 0 {
                            assert(stack@[i] == stack0[depth as int]);
                        } else if i == depth {
                            assert(stack@[i] == stack0[0]);
                        } else {
                            assert(stack@[i] == stack0[i]);
                        }
                    }
                }
                Ok(false)
            } else if op == Opcode::Pop {
                match pop(stack, block, instruction_id) {
                    Ok(_) => {},
                    Err(e) => {
                        return Err(e);
                    },
                }
                proof {
                    lemma_stack_drop_ok(vals0, ssa_block, ops0.len() as int, stack0);
                }
                Ok(false)
            } else if op == Opcode::JumpDest {
                Ok(false)
            } else if op == Opcode::Jump {
                let destination = match pop(stack, block, instruction_id) {
                    Ok(v) => v,
                    Err(e) => {
                        return Err(e);
                    },
                };
                proof {
                    lemma_stack_drop_ok(vals0, ssa_block, ops0.len() as int, stack0);
                }
                let ghost stack1 = stack@;
                match inference.call(instruction_id) {
                    Some(call) => {
                        match expect_control(destination, call.destination_push, block, instruction_id) {
                            Ok(()) => {},
                            Err(e) => {
                                return Err(e);
                            },
                        }
                        let callee = verification.function(call.function).verified_arity();
                        let callee = match callee {
                            FunctionArity::Returning(a) => a,
                            FunctionArity::Root => {
                                return Err(SsaError::InvalidVerifiedCall { call: instruction_id });
                            },
                        };
                        if stack.len() < callee.physical.inputs as usize {
                            return Err(SsaError::StackUnderflow { block, instruction: instruction_id });
                        }
                        let expected_return = match verification.return_push(function, instruction_id) {
                            Some(p) => p,
                            None => {
                                return Err(SsaError::InvalidVerifiedCall { call: instruction_id });
                            },
                        };
                        let mut call_inputs: Vec<u32> = Vec::new();
                        let mut position: u16 = 0;
                        while position < callee.physical.inputs
                            invariant
                                take_call_inputs(stack1, position as nat, callee.return_input, expected_return, block, instruction_id)
                                    == Ok::<Seq<u32>, SsaError>(call_inputs@),
                                position <= callee.physical.inputs,
                                stack@.len() + position == stack1.len(),
                                stack1.len() >= callee.physical.inputs,
                                stack@ == stack1.skip(position as int),
                                stack_ok(values@, ssa_block, operations@.len() as int, stack1),
                                values@ == vals0,
                                vals0 == old(values)@,
                                extends(old(values)@, values@),
                                operations@ == ops0,
                                forall|i: int| 0 <= i < call_inputs@.len() ==> available(values@, ssa_block, operations@.len() as int, #[trigger] call_inputs@[i]),
                            decreases callee.physical.inputs - position,
                        {
                            let input = stack.remove(0);
                            proof {
                                assert(input == stack1[position as int]);
                                assert(stack@ =~= stack1.skip(position + 1));
                            }
                            if position == callee.return_input {
                                if input != StackValue::CallReturn(expected_return) {
                                    proof {
                                        lemma_take_call_inputs_err(stack1, (position + 1) as nat, callee.physical.inputs as nat, callee.return_input, expected_return, block, instruction_id);
                                    }
                                    return Err(SsaError::InvalidVerifiedCall { call: instruction_id });
                                }
                            } else {
                                let value = match expect_data(input, block, instruction_id) {
                                    Ok(v) => v,
                                    Err(e) => {
                                        proof {
                                            lemma_take_call_inputs_err(stack1, (position + 1) as nat, callee.physical.inputs as nat, callee.return_input, expected_return, block, instruction_id);
                                        }
                                        return Err(e);
                                    },
                                };
                                call_inputs.push(value);
                            }
                            position = position + 1;
                        }
                        let ghost stack2 = stack@;
                        proof {
                            assert forall|i: int| 0 <= i < stack2.len() implies (#[trigger] stack2[i] matches StackValue::Data(v)
                                ==> available(values@, ssa_block, operations@.len() as int, v)) by {
                                assert(stack2[i] == stack1[i + callee.physical.inputs]);
                            }
                        }
                        let outputs = match push_operation(
                            ssa_block,
                            values,
                            operations,
                            Some(instruction_id),
                            SsaOperationKind::InternalCall(call.function),
                            call_inputs,
                            callee.physical.outputs,
                        ) {
                            Ok(o) => o,
                            Err(e) => {
                                return Err(e);
                            },
                        };
                        proof {
                            lemma_values_added(vals0, values@, ssa_block, ops0.len() as u32, callee.physical.outputs as nat);
                            lemma_lowering_push(vals0, values@, ssa_block, ops0, operations@, stack2, outputs@, *branch_condition);
                        }
                        push_results(stack, &outputs);
                        proof {
                            let after = Lowering { stack: stack1.skip(callee.physical.inputs as int), ..st0 };
                            assert(stack2 == after.stack);
                            assert(push_op(c, after, Some(instruction_id), SsaOperationKind::InternalCall(call.function), call_inputs@, callee.physical.outputs as nat)
                                == Ok::<Lowering, SsaError>(Lowering { stack: stack@, values: values@, ops: op_views(operations@), condition: *branch_condition }));
                        }
                    },
                    None => {
                        if cfg.control(block) == BlockControl::InternalReturn {
                            if destination != StackValue::FunctionReturn {
                                return Err(SsaError::InvalidVerifiedReturn { function, block });
                            }
                        } else {
                            match inference.static_jump(instruction_id) {
                                Some(static_destination) => {
                                    match expect_control(destination, static_destination.push, block, instruction_id) {
                                        Ok(()) => {},
                                        Err(e) => {
                                            return Err(e);
                                        },
                                    }
                                },
                                None => {},
                            }
                        }
                    },
                }
                Ok(false)
            } else if op == Opcode::JumpI {
                let destination = match pop(stack, block, instruction_id) {
                    Ok(v) => v,
                    Err(e) => {
                        return Err(e);
                    },
                };
                proof {
                    lemma_stack_drop_ok(vals0, ssa_block, ops0.len() as int, stack0);
                }
                let ghost stack1 = stack@;
                let condition = match pop(stack, block, instruction_id) {
                    Ok(v) => v,
                    Err(e) => {
                        return Err(e);
                    },
                };
                proof {
                    lemma_stack_drop_ok(vals0, ssa_block, ops0.len() as int, stack1);
                    assert(condition == stack1[0]);
                }
                let static_destination = match inference.static_jump(instruction_id) {
                    Some(d) => d,
                    None => {
                        return Err(SsaError::InvalidVerifiedControl { block });
                    },
                };
                match expect_control(destination, static_destination.push, block, instruction_id) {
                    Ok(()) => {},
                    Err(e) => {
                        return Err(e);
                    },
                }
                let value = match expect_data(condition, block, instruction_id) {
                    Ok(v) => v,
                    Err(e) => {
                        return Err(e);
                    },
                };
                *branch_condition = Some(value);
                Ok(false)
            } else {
                let io = op.stack_io();
                let mut operation_inputs: Vec<u32> = Vec::new();
                let mut k: u16 = 0;
                let ghost stack0 = stack@;
                while k < io.inputs
                    invariant
                        take_data(stack0, k as nat, block, instruction_id) == Ok::<Seq<u32>, SsaError>(operation_inputs@),
                        k <= stack0.len(),
                        stack@ == stack0.skip(k as int),
                        k <= io.inputs,
                        values@ == vals0,
                        vals0 == old(values)@,
                        extends(old(values)@, values@),
                        operations@ == ops0,
                        stack_ok(values@, ssa_block, operations@.len() as int, stack@),
                        forall|i: int| 0 <= i < operation_inputs@.len() ==> available(values@, ssa_block, operations@.len() as int, #[trigger] operation_inputs@[i]),
                    decreases io.inputs - k,
                {
                    let ghost before = stack@;
                    let value = match pop(stack, block, instruction_id) {
                        Ok(v) => v,
                        Err(e) => {
                            proof {
                                lemma_take_data_err(stack0, (k + 1) as nat, io.inputs as nat, block, instruction_id);
                            }
                            return Err(e);
                        },
                    };
                    proof {
                        lemma_stack_drop_ok(values@, ssa_block, operations@.len() as int, before);
                        assert(value == before[0]);
                        assert(value == stack0[k as int]);
                        assert(stack@ =~= stack0.skip(k + 1));
                    }
                    let input = match expect_data(value, block, instruction_id) {
                        Ok(v) => v,
                        Err(e) => {
                            proof {
                                lemma_take_data_err(stack0, (k + 1) as nat, io.inputs as nat, block, instruction_id);
                            }
                            return Err(e);
                        },
                    };
                    operation_inputs.push(input);
                    k = k + 1;
                }
                let ghost stack2 = stack@;
                let outputs = match push_operation(
                    ssa_block,
                    values,
                    operations,
                    Some(instruction_id),
                    SsaOperationKind::Opcode(op),
                    operation_inputs,
                    io.outputs,
                ) {
                    Ok(o) => o,
                    Err(e) => {
                        return Err(e);
                    },
                };
                proof {
                    lemma_values_added(vals0, values@, ssa_block, ops0.len() as u32, io.outputs as nat);
                    lemma_lowering_push(vals0, values@, ssa_block, ops0, operations@, stack2, outputs@, *branch_condition);
                }
                push_results(stack, &outputs);
                proof {
                    let after = Lowering { stack: stack0.skip(io.inputs as int), ..st0 };
                    assert(stack2 == after.stack);
                    assert(push_op(c, after, Some(instruction_id), SsaOperationKind::Opcode(op), operation_inputs@, io.outputs as nat)
                        == Ok::<Lowering, SsaError>(Lowering { stack: stack@, values: values@, ops: op_views(operations@), condition: *branch_condition }));
                }
                Ok(op.is_terminating())
            }
        },
    }
}

/// A table extended by operation outputs of block `sb` extends the old one
/// with values of `sb`.
proof fn lemma_values_added(a: Seq<SsaValueOrigin>, b: Seq<SsaValueOrigin>, sb: u32, operation: u32, count: nat)
    requires
        b == a + Seq::new(count, |o: int| SsaValueOrigin::Operation { block: sb, operation, output: o as u16 }),
    ensures
        extends(a, b),
        forall|v: int| a.len() <= v < b.len() ==> origin_block(#[trigger] b[v]) == sb,
{
    assert(b.take(a.len() as int) =~= a);
}

proof fn lemma_stack_insert_ok(values: Seq<SsaValueOrigin>, sb: u32, k: int, stack: Seq<StackValue>, x: StackValue)
    requires
        stack_ok(values, sb, k, stack),
        x matches StackValue::Data(v) ==> available(values, sb, k, v),
    ensures
        stack_ok(values, sb, k, stack.insert(0, x)),
{
    let s2 = stack.insert(0, x);
    assert forall|i: int| 0 <= i < s2.len() implies (#[trigger] s2[i] matches StackValue::Data(v) ==> available(values, sb, k, v)) by {
        if i > 0 {
            assert(s2[i] == stack[i - 1]);
        }
    }
}

proof fn lemma_stack_drop_ok(values: Seq<SsaValueOrigin>, sb: u32, k: int, stack: Seq<StackValue>)
    requires
        stack_ok(values, sb, k, stack),
        stack.len() > 0,
    ensures
        stack_ok(values, sb, k, stack.drop_first()),
        stack[0] matches StackValue::Data(v) ==> available(values, sb, k, v),
{
    let s2 = stack.drop_first();
    assert forall|i: int| 0 <= i < s2.len() implies (#[trigger] s2[i] matches StackValue::Data(v) ==> available(values, sb, k, v)) by {
        assert(s2[i] == stack[i + 1]);
    }
}

/// Lowers the instructions of `block` of `function` into SSA block
/// `ssa_block`, as `lower_from` says, from the slots `stack`.
#[verifier::rlimit(60)]
fn lower_instructions(
    function: u32,
    block: u32,
    ssa_block: u32,
    decoded: &DecodedBytecode,
    inference: &InternalCallInference,
    cfg: &ProvisionalCfg,
    verification: &Verification,
    stack: &mut Vec<StackValue>,
    values: &mut Vec<SsaValueOrigin>,
    operations: &mut Vec<SsaOperation>,
    branch_condition: &mut Option<u32>,
) -> (r: Result<(), SsaError>)
    requires
        decoded.wf(),
        inference.wf(),
        inference.source() == decoded.instruction_list(),
        cfg.built_from(decoded.instruction_list(), *inference),
        block < inference.blocks_spec().block_list().len(),
        inference.function_list().len() <= verification.function_list().len(),
        lowering_ok(old(values)@, ssa_block, old(operations)@, old(stack)@, *old(branch_condition)),
    ensures
        extends(old(values)@, final(values)@),
        forall|v: int| old(values)@.len() <= v < final(values)@.len() ==> origin_block(#[trigger] final(values)@[v]) == ssa_block,
        r is Ok ==> lowering_ok(final(values)@, ssa_block, final(operations)@, final(stack)@, *final(branch_condition)),
        ({
            let c = lower_context(function, block, ssa_block, decoded.instruction_list(), *inference, *cfg, *verification);
            let st = Lowering {
                stack: old(stack)@,
                values: old(values)@,
                ops: op_views(old(operations)@),
                condition: *old(branch_condition),
            };
            let span = inference.blocks_spec().block_list()[block as int].instructions;
            match lower_from(c, st, span.start, span.end) {
                Ok(done) => {
                    &&& r is Ok
                    &&& final(stack)@ == done.stack
                    &&& final(values)@ == done.values
                    &&& op_views(final(operations)@) == done.ops
                    &&& *final(branch_condition) == done.condition
                },
                Err(e) => r == Err::<(), SsaError>(e),
            }
        }),
{
    let ghost ins = decoded.instruction_list();
    let ghost c = lower_context(function, block, ssa_block, ins, *inference, *cfg, *verification);
    let ghost st0 = Lowering { stack: stack@, values: values@, ops: op_views(operations@), condition: *branch_condition };
    let ghost vals0 = values@;
    let code_block = inference.code_blocks().block(block);
    let end = code_block.instructions.end;
    let start = code_block.instructions.start;
    let mut instruction_id = start;
    let mut stopped = false;
    proof {
        crate::icall::lemma_block_count(ins, inference.call_list(), inference.blocks_spec().block_list());
        assert(code_block.instructions.end <= ins.len());
        assert(vals0.take(vals0.len() as int) =~= vals0);
        assert(cfg.control_list().len() == inference.blocks_spec().block_list().len());
    }
    while instruction_id < end && !stopped
        invariant
            decoded.wf(),
            ins == decoded.instruction_list(),
            inference.wf(),
            inference.source() == ins,
            cfg.built_from(ins, *inference),
            end <= ins.len(),
            start <= instruction_id,
            block < inference.blocks_spec().block_list().len(),
            block < cfg.control_list().len(),
            *code_block == inference.blocks_spec().block_list()[block as int],
            start == code_block.instructions.start,
            end == code_block.instructions.end,
            inference.function_list().len() <= verification.function_list().len(),
            c == lower_context(function, block, ssa_block, ins, *inference, *cfg, *verification),
            vals0 == old(values)@,
            st0 == (Lowering {
                stack: old(stack)@,
                values: old(values)@,
                ops: op_views(old(operations)@),
                condition: *old(branch_condition),
            }),
            extends(vals0, values@),
            forall|v: int| vals0.len() <= v < values@.len() ==> origin_block(#[trigger] values@[v]) == ssa_block,
            lowering_ok(values@, ssa_block, operations@, stack@, *branch_condition),
            ({
                let cur = Lowering { stack: stack@, values: values@, ops: op_views(operations@), condition: *branch_condition };
                &&& stopped ==> lower_from(c, st0, start, end) == Ok::<Lowering, SsaError>(cur)
                &&& !stopped ==> lower_from(c, cur, instruction_id, end) == lower_from(c, st0, start, end)
            }),
        decreases end - instruction_id,
    {
        let ghost before = values@;
        let ghost cur = Lowering { stack: stack@, values: values@, ops: op_views(operations@), condition: *branch_condition };
        let step = lower_instruction(
            function,
            block,
            ssa_block,
            instruction_id,
            decoded,
            inference,
            cfg,
            verification,
            stack,
            values,
            operations,
            branch_condition,
        );
        proof {
            lemma_extends_trans(vals0, before, values@);
            assert forall|v: int| vals0.len() <= v < values@.len() implies origin_block(#[trigger] values@[v]) == ssa_block by {
                if v < before.len() {
                    assert(values@[v] == values@.take(before.len() as int)[v]);
                }
            }
        }
        match step {
            Ok(done) => {
                stopped = done;
            },
            Err(e) => {
                return Err(e);
            },
        }
        instruction_id = instruction_id + 1;
    }
    Ok(())
}

/// Ends SSA block `ssa_block`, lowered from `block`, as `finish_block` says:
/// the data slots of `stack` become its outputs unless it terminates, and
/// the source control, through `targets`, its control.
#[verifier::rlimit(60)]
fn finish_lowering(
    block: u32,
    ssa_block: u32,
    control: BlockControl,
    end: u32,
    stack: &Vec<StackValue>,
    targets: &Vec<Option<u32>>,
    values: &mut Vec<SsaValueOrigin>,
    operations: Vec<SsaOperation>,
    branch_condition: Option<u32>,
    inputs: Vec<u32>,
    Ghost(c): Ghost<LowerContext>,
    Ghost(entry_values): Ghost<Seq<SsaValueOrigin>>,
) -> (r: Result<SsaBlock, SsaError>)
    requires
        c.block == block,
        c.ssa_block == ssa_block,
        c.control == control,
        forall|k: int| 0 <= k < control.spec_successors().len() ==> #[trigger] control.spec_successors()[k] < targets@.len(),
        lowering_ok(old(values)@, ssa_block, operations@, stack@, branch_condition),
        inputs_ok(entry_values, ssa_block, inputs@),
        extends(entry_values, old(values)@),
        end >= 1,
    ensures
        extends(old(values)@, final(values)@),
        forall|v: int| old(values)@.len() <= v < final(values)@.len() ==> origin_block(#[trigger] final(values)@[v]) == ssa_block,
        r matches Ok(b) ==> block_ok(final(values)@, ssa_block, b),
        ({
            let st = Lowering { stack: stack@, values: old(values)@, ops: op_views(operations@), condition: branch_condition };
            match finish_block(c, st, inputs@, targets@, end) {
                Ok((view, vals)) => r matches Ok(b) && block_view(b) == view && final(values)@ == vals,
                Err(e) => r == Err::<SsaBlock, SsaError>(e),
            }
        }),
{
    let ghost old_values = values@;
    let ghost st = Lowering { stack: stack@, values: values@, ops: op_views(operations@), condition: branch_condition };
    let mut operations = operations;
    proof {
        assert(old_values.take(old_values.len() as int) =~= old_values);
    }
    let mut data_stack: Vec<u32> = Vec::new();
    let mut i: usize = 0;
    while i < stack.len()
        invariant
            i <= stack@.len(),
            values@ == old_values,
            lowering_ok(values@, ssa_block, operations@, stack@, branch_condition),
            forall|j: int| 0 <= j < data_stack@.len() ==> available(values@, ssa_block, operations@.len() as int, #[trigger] data_stack@[j]),
            data_stack@ == data_slots(stack@.take(i as int)),
        decreases stack@.len() - i,
    {
        proof {
            assert(stack@.take(i + 1).drop_last() =~= stack@.take(i as int));
        }
        match stack[i] {
            StackValue::Data(v) => {
                proof {
                    assert(stack@[i as int] == StackValue::Data(v));
                }
                data_stack.push(v);
            },
            _ => {},
        }
        i = i + 1;
    }
    proof {
        assert(stack@.take(stack@.len() as int) =~= stack@);
    }
    let ssa_control = match control {
        BlockControl::Fallthrough(target) | BlockControl::Goto(target) => {
            proof {
                assert(control.spec_successors()[0] == target);
            }
            match targets[target as usize] {
                Some(t) => SsaControl::Goto(t),
                None => {
                    return Err(SsaError::InvalidVerifiedControl { block });
                },
            }
        },
        BlockControl::Branch { non_zero, zero } => {
            proof {
                assert(control.spec_successors()[0] == non_zero);
                assert(control.spec_successors()[1] == zero);
            }
            let condition = match branch_condition {
                Some(c) => c,
                None => {
                    return Err(SsaError::MissingBranchCondition { instruction: end - 1 });
                },
            };
            let nz = match targets[non_zero as usize] {
                Some(t) => t,
                None => {
                    return Err(SsaError::InvalidVerifiedControl { block });
                },
            };
            let z = match targets[zero as usize] {
                Some(t) => t,
                None => {
                    return Err(SsaError::InvalidVerifiedControl { block });
                },
            };
            SsaControl::Branch { condition, non_zero: nz, zero: z }
        },
        BlockControl::InternalReturn => SsaControl::InternalReturn,
        BlockControl::Terminates => SsaControl::Terminates,
        BlockControl::EndOfCode | BlockControl::InvalidJump => {
            let kind = match control {
                BlockControl::EndOfCode => SsaOperationKind::SyntheticStop,
                _ => SsaOperationKind::SyntheticInvalid,
            };
            let ghost before = values@;
            let ghost ops_before = operations@;
            let outputs = match push_operation(ssa_block, values, &mut operations, None, kind, Vec::new(), 0) {
                Ok(o) => o,
                Err(e) => {
                    return Err(e);
                },
            };
            proof {
                lemma_values_added(before, values@, ssa_block, ops_before.len() as u32, 0);
                lemma_lowering_push(before, values@, ssa_block, ops_before, operations@, stack@, outputs@, branch_condition);
                assert forall|j: int| 0 <= j < data_stack@.len() implies available(values@, ssa_block, operations@.len() as int, #[trigger] data_stack@[j]) by {
                    lemma_available_mono(before, values@, ssa_block, ops_before.len() as int, operations@.len() as int, data_stack@[j]);
                }
                assert(push_op(c, st, None, kind, Seq::empty(), 0) == Ok::<Lowering, SsaError>(
                    Lowering { stack: stack@, values: values@, ops: op_views(operations@), condition: branch_condition },
                )) by {
                    assert(outputs@.map_values(|v: u32| StackValue::Data(v)) + stack@ =~= stack@);
                }
            }
            SsaControl::Terminates
        },
        _ => {
            return Err(SsaError::InvalidVerifiedControl { block });
        },
    };
    let outputs = match ssa_control {
        SsaControl::Terminates => Vec::new(),
        _ => data_stack,
    };
    let new_block = SsaBlock { source: Some(block), inputs, outputs, operations, control: ssa_control };
    proof {
        assert forall|p: int| 0 <= p < new_block.inputs@.len() implies #[trigger] new_block.inputs@[p] < values@.len()
            && values@[new_block.inputs@[p] as int] == (SsaValueOrigin::BlockInput { block: ssa_block, position: p as u16 }) by {
            assert(values@[new_block.inputs@[p] as int] == values@.take(entry_values.len() as int)[new_block.inputs@[p] as int]);
        }
        assert(block_ok(values@, ssa_block, new_block));
        lemma_extends_trans(old_values, old_values, values@);
    }
    Ok(new_block)
}

/// Lowers source block `block` of `function` into its SSA block: the entry
/// stack becomes block inputs, instructions become operations, the control
/// becomes a jump between the function's SSA blocks, and the data left on
/// the stack becomes the block's outputs unless the block terminates.
fn lower_block_to_ssa(
    function: u32,
    block: u32,
    decoded: &DecodedBytecode,
    inference: &InternalCallInference,
    cfg: &ProvisionalCfg,
    verification: &Verification,
    program: &mut SsaProgram,
    Ghost(ownership): Ghost<Ownership>,
) -> (r: Result<(), SsaError>)
    requires
        decoded.wf(),
        pipeline_ok(decoded.instruction_list(), *inference, *cfg, ownership),
        verification_holds(decoded.instruction_list(), *inference, *cfg, ownership, *verification),
        function < ownership.function_list().len(),
        block < inference.blocks_spec().block_list().len(),
        ownership.owner_sets()[block as int].contains(function),
        old(program).sources_ok(ownership, inference.blocks_spec().block_list().len()),
        old(program).blocks_ok(),
    ensures
        final(program).sources_ok(ownership, inference.blocks_spec().block_list().len()),
        final(program).source_map() == old(program).source_map(),
        final(program).function_list() == old(program).function_list(),
        final(program).block_list().len() == old(program).block_list().len(),
        r is Ok ==> final(program).blocks_ok(),
        r is Ok ==> extends(old(program).value_list(), final(program).value_list()),
        ({
            let sb = old(program).source_map()[function as int][block as int]->0;
            let c = lower_context(function, block, sb, decoded.instruction_list(), *inference, *cfg, *verification);
            let fv = verification.function_list()[function as int];
            let entry = match fv.states()[block as int] {
                Some(s) => Some(s.model()),
                None => None,
            };
            match lower_block(
                c,
                inference.blocks_spec().block_list()[block as int].instructions,
                entry,
                fv.spec_arity(),
                old(program).source_map()[function as int],
                old(program).value_list(),
            ) {
                Ok((view, vals)) => {
                    &&& r is Ok
                    &&& final(program).value_list() == vals
                    &&& block_view(final(program).block_list()[sb as int]) == view
                    &&& forall|other: int| 0 <= other < old(program).block_list().len() && other != sb ==> #[trigger] final(program).block_list()[other]
                        == old(program).block_list()[other]
                },
                Err(e) => r == Err::<(), SsaError>(e),
            }
        }),
{
    let ghost ins = decoded.instruction_list();
    let ghost nb = inference.blocks_spec().block_list().len();
    proof {
        lemma_verified_function(ins, *inference, *cfg, ownership, *verification, function as int);
        crate::icall::lemma_block_count(ins, inference.call_list(), inference.blocks_spec().block_list());
    }
    let ssa_block = match program.source_blocks[function as usize][block as usize] {
        Some(b) => b,
        None => {
            proof {
                assert(program.source_map()[function as int][block as int] is Some);
            }
            0
        },
    };
    proof {
        assert(program.source_map()[function as int][block as int] == Some(ssa_block));
    }
    let arity = verification.function(function).verified_arity();
    let state = match verification.entry_state(function, block) {
        Some(st) => st,
        None => {
            proof {
                assert(false);
            }
            return Err(SsaError::InvalidVerifiedStack { function, block });
        },
    };
    proof {
        assert(verification.function_list()[function as int].states()[block as int] == Some(*state));
    }
    if !state.is_open() && arity.physical_inputs() > state.next_input() {
        return Err(SsaError::InvalidVerifiedStack { function, block });
    }
    let symbolic_values = match state.finite_values(arity.physical_inputs()) {
        Ok(v) => v,
        Err(_) => {
            return Err(SsaError::InvalidVerifiedStack { function, block });
        },
    };
    let return_input = match arity {
        FunctionArity::Returning(a) => Some(a.return_input),
        FunctionArity::Root => None,
    };
    let ghost old_values = program.values@;
    let ghost old_blocks = program.blocks@;
    let entry = entry_stack(function, block, ssa_block, &symbolic_values, return_input, verification, &mut program.values, Ghost(lower_context(function, block, ssa_block, ins, *inference, *cfg, *verification)));
    let (mut stack, inputs) = match entry {
        Ok(pair) => pair,
        Err(e) => {
            return Err(e);
        },
    };
    let ghost entry_values = program.values@;
    let mut operations: Vec<SsaOperation> = Vec::new();
    let mut branch_condition: Option<u32> = None;
    proof {
        assert(entry_values.take(entry_values.len() as int) =~= entry_values);
        assert(inference.function_list().len() <= verification.function_list().len());
        assert(op_views(operations@) =~= Seq::<OpView>::empty());
    }
    let lowered = lower_instructions(
        function,
        block,
        ssa_block,
        decoded,
        inference,
        cfg,
        verification,
        &mut stack,
        &mut program.values,
        &mut operations,
        &mut branch_condition,
    );
    match lowered {
        Ok(()) => {},
        Err(e) => {
            return Err(e);
        },
    }
    let ghost lowered_values = program.values@;
    proof {
        lemma_extends_trans(old_values, entry_values, lowered_values);
    }
    let code_block = inference.code_blocks().block(block);
    let control = cfg.control(block);
    proof {
        crate::verify::lemma_successors_in_range(*inference, *cfg, block as int);
        assert(program.source_blocks@[function as int]@.len() == nb);
    }
    let new_block = match finish_lowering(
        block,
        ssa_block,
        control,
        code_block.instructions.end,
        &stack,
        &program.source_blocks[function as usize],
        &mut program.values,
        operations,
        branch_condition,
        inputs,
        Ghost(lower_context(function, block, ssa_block, ins, *inference, *cfg, *verification)),
        Ghost(entry_values),
    ) {
        Ok(b) => b,
        Err(e) => {
            return Err(e);
        },
    };
    proof {
        lemma_extends_trans(old_values, lowered_values, program.values@);
        assert forall|sb: int| 0 <= sb < old_blocks.len() implies block_ok(program.values@, sb as u32, #[trigger] old_blocks[sb]) by {
            lemma_block_ok_mono(old_values, program.values@, sb as u32, old_blocks[sb]);
        }
    }
    program.blocks.set(ssa_block as usize, new_block);
    Ok(())
}

proof fn lemma_extends_trans(a: Seq<SsaValueOrigin>, b: Seq<SsaValueOrigin>, c: Seq<SsaValueOrigin>)
    requires
        extends(a, b),
        extends(b, c),
    ensures
        extends(a, c),
{
    assert(c.take(a.len() as int) =~= b.take(a.len() as int));
}

/// The SSA blocks a function has, in source block order.
pub open spec fn present_blocks(s: Seq<Option<u32>>) -> Seq<u32>
    decreases s.len(),
{
    if s.len() == 0 {
        Seq::empty()
    } else {
        match s.last() {
            Some(b) => present_blocks(s.drop_last()).push(b),
            None => present_blocks(s.drop_last()),
        }
    }
}

/// The SSA inputs of an arity: all physical inputs but the return destination.
pub open spec fn arity_sir_inputs(a: FunctionArity) -> int {
    match a {
        FunctionArity::Root => 0,
        FunctionArity::Returning(r) => r.physical.inputs - 1,
    }
}

/// The outputs of an arity.
pub open spec fn arity_outputs(a: FunctionArity) -> int {
    match a {
        FunctionArity::Root => 0,
        FunctionArity::Returning(r) => r.physical.outputs as int,
    }
}

/// SSA block `sb` of `p` is what lowering source block `block` of
/// `function` gives when started on the first `k` values of the table, and
/// the values it added stand in the table.
pub open spec fn lowered_from_prefix(
    p: SsaProgram,
    ins: Seq<Instruction>,
    inference: InternalCallInference,
    cfg: ProvisionalCfg,
    verification: Verification,
    function: u32,
    block: u32,
    k: int,
) -> bool {
    let sb = p.source_map()[function as int][block as int]->0;
    let c = lower_context(function, block, sb, ins, inference, cfg, verification);
    let fv = verification.function_list()[function as int];
    let entry = match fv.states()[block as int] {
        Some(s) => Some(s.model()),
        None => None,
    };
    &&& 0 <= k <= p.value_list().len()
    &&& match lower_block(
        c,
        inference.blocks_spec().block_list()[block as int].instructions,
        entry,
        fv.spec_arity(),
        p.source_map()[function as int],
        p.value_list().take(k),
    ) {
        Ok((view, vals)) => view == block_view(p.block_list()[sb as int]) && vals.len() <= p.value_list().len()
            && p.value_list().take(vals.len() as int) == vals,
        Err(_) => false,
    }
}

/// The SSA block of `function` for source block `block` is what lowering
/// that block gives, started on some prefix of the value table.
pub open spec fn block_lowered(
    p: SsaProgram,
    ins: Seq<Instruction>,
    inference: InternalCallInference,
    cfg: ProvisionalCfg,
    verification: Verification,
    function: u32,
    block: u32,
) -> bool {
    exists|k: int| #[trigger] lowered_from_prefix(p, ins, inference, cfg, verification, function, block, k)
}

/// Lowering more blocks keeps what earlier blocks were lowered to.
proof fn lemma_block_lowered_keep(
    p0: SsaProgram,
    p1: SsaProgram,
    ins: Seq<Instruction>,
    inference: InternalCallInference,
    cfg: ProvisionalCfg,
    verification: Verification,
    function: u32,
    block: u32,
)
    requires
        block_lowered(p0, ins, inference, cfg, verification, function, block),
        p1.source_map() == p0.source_map(),
        extends(p0.value_list(), p1.value_list()),
        p1.block_list()[p0.source_map()[function as int][block as int]->0 as int] == p0.block_list()[p0.source_map()[function as int][block as int]->0 as int],
    ensures
        block_lowered(p1, ins, inference, cfg, verification, function, block),
{
    let k = choose|k: int| #[trigger] lowered_from_prefix(p0, ins, inference, cfg, verification, function, block, k);
    assert(p1.value_list().take(p0.value_list().len() as int) == p0.value_list());
    assert(p1.value_list().take(k) =~= p0.value_list().take(k));
    let sb = p0.source_map()[function as int][block as int]->0;
    let c = lower_context(function, block, sb, ins, inference, cfg, verification);
    let fv = verification.function_list()[function as int];
    let entry = match fv.states()[block as int] {
        Some(s) => Some(s.model()),
        None => None,
    };
    let span = inference.blocks_spec().block_list()[block as int].instructions;
    let vals = lower_block(c, span, entry, fv.spec_arity(), p0.source_map()[function as int], p0.value_list().take(k))->Ok_0.1;
    assert(p1.value_list().take(vals.len() as int) =~= p0.value_list().take(vals.len() as int));
    assert(lowered_from_prefix(p1, ins, inference, cfg, verification, function, block, k));
}

/// The verified stack at the entry of block `block` of `function`, if the
/// function reaches it.
pub open spec fn verified_entry(verification: Verification, function: u32, block: u32) -> Option<StackModel> {
    match verification.function_list()[function as int].states()[block as int] {
        Some(s) => Some(s.model()),
        None => None,
    }
}

/// Lowering source block `block` of `function` fails with `e`, for some SSA
/// block number, some targets and some value table.
pub open spec fn lowering_fails(
    ins: Seq<Instruction>,
    inference: InternalCallInference,
    cfg: ProvisionalCfg,
    verification: Verification,
    function: u32,
    block: u32,
    e: SsaError,
) -> bool {
    exists|sb: u32, targets: Seq<Option<u32>>, values: Seq<SsaValueOrigin>|
        #[trigger] lower_block(
            lower_context(function, block, sb, ins, inference, cfg, verification),
            inference.blocks_spec().block_list()[block as int].instructions,
            verified_entry(verification, function, block),
            verification.function_list()[function as int].spec_arity(),
            targets,
            values,
        ) == Err::<(BlockView, Seq<SsaValueOrigin>), SsaError>(e)
}

/// Puts the verified program in SSA form: one SSA block per function and
/// source block it owns, each lowered from the block's verified entry stack.
pub fn build_ssa(
    decoded: &DecodedBytecode,
    inference: &InternalCallInference,
    cfg: &ProvisionalCfg,
    ownership: &Ownership,
    verification: &Verification,
) -> (r: Result<SsaProgram, SsaError>)
    requires
        decoded.wf(),
        pipeline_ok(decoded.instruction_list(), *inference, *cfg, *ownership),
        verification_holds(decoded.instruction_list(), *inference, *cfg, *ownership, *verification),
    ensures
        r matches Ok(p) ==> {
            &&& p.blocks_ok()
            &&& p.sources_ok(*ownership, inference.blocks_spec().block_list().len())
            &&& p.function_list().len() == ownership.function_list().len()
            &&& forall|f: int|
                0 <= f < p.function_list().len() ==> {
                    let sf = #[trigger] p.function_list()[f];
                    &&& sf.kind == ownership.function_list()[f].kind
                    &&& p.source_map()[f][ownership.function_list()[f].entry as int] == Some(sf.entry)
                    &&& sf.blocks@ == present_blocks(p.source_map()[f])
                    &&& sf.inputs == arity_sir_inputs(verification.function_list()[f].spec_arity())
                    &&& sf.outputs == arity_outputs(verification.function_list()[f].spec_arity())
                }
            &&& forall|f: u32, b: u32|
                f < ownership.function_list().len() && b < inference.blocks_spec().block_list().len()
                    && ownership.owner_sets()[b as int].contains(f) ==> #[trigger] block_lowered(
                    p,
                    decoded.instruction_list(),
                    *inference,
                    *cfg,
                    *verification,
                    f,
                    b,
                )
        },
        r matches Err(e) ==> (e is TooManyOperations && ownership.function_list().len()
            * inference.blocks_spec().block_list().len() >= u32::MAX) || exists|f: u32, b: u32|
            f < ownership.function_list().len() && b < inference.blocks_spec().block_list().len()
                && ownership.owner_sets()[b as int].contains(f) && #[trigger] lowering_fails(
                decoded.instruction_list(),
                *inference,
                *cfg,
                *verification,
                f,
                b,
                e,
            ),
{
    let ghost ins = decoded.instruction_list();
    let n = ownership.functions().len();
    let nb = inference.code_blocks().blocks().len();
    proof {
        crate::icall::lemma_block_count(ins, inference.call_list(), inference.blocks_spec().block_list());
    }
    let mut source_blocks: Vec<Vec<Option<u32>>> = Vec::new();
    let mut f: usize = 0;
    while f < n
        invariant
            f <= n,
            source_blocks@.len() == f,
            forall|g: int| 0 <= g < f ==> (#[trigger] source_blocks@[g])@.len() == nb,
            forall|g: int, b: int| 0 <= g < f && 0 <= b < nb ==> #[trigger] source_blocks@[g]@[b] is None,
        decreases n - f,
    {
        let mut row: Vec<Option<u32>> = Vec::new();
        let mut b: usize = 0;
        while b < nb
            invariant
                b <= nb,
                row@.len() == b,
                forall|c: int| 0 <= c < b ==> #[trigger] row@[c] is None,
            decreases nb - b,
        {
            row.push(None);
            b = b + 1;
        }
        source_blocks.push(row);
        f = f + 1;
    }
    let mut blocks: Vec<SsaBlock> = Vec::new();
    let mut block: usize = 0;
    while block < nb
        invariant
            n == ownership.function_list().len(),
            nb == inference.blocks_spec().block_list().len(),
            nb == ownership.owner_sets().len(),
            nb <= u32::MAX,
            n <= u32::MAX + 1,
            block <= nb,
            source_blocks@.len() == n,
            blocks@.len() <= u32::MAX,
            blocks@.len() <= block * n,
            forall|g: int| 0 <= g < n ==> (#[trigger] source_blocks@[g])@.len() == nb,
            forall|g: int, b: int|
                0 <= g < n && 0 <= b < nb ==> (#[trigger] source_blocks@[g]@[b] is Some <==> (b < block
                    && ownership.owner_sets()[b].contains(g as u32))),
            forall|g: int, b: int|
                0 <= g < n && 0 <= b < nb ==> (#[trigger] source_blocks@[g]@[b] matches Some(sb) ==> sb < blocks@.len()),
            forall|sb: int| 0 <= sb < blocks@.len() ==> #[trigger] empty_block(blocks@[sb]),
            distinct_targets(source_blocks@.map_values(|v: Vec<Option<u32>>| v@), nb as nat),
        decreases nb - block,
    {
        let mut function: usize = 0;
        while function < n
            invariant
                n == ownership.function_list().len(),
                nb == inference.blocks_spec().block_list().len(),
                nb == ownership.owner_sets().len(),
                nb <= u32::MAX,
                n <= u32::MAX + 1,
                block < nb,
                function <= n,
                source_blocks@.len() == n,
                blocks@.len() <= u32::MAX,
                blocks@.len() <= block * n + function,
                forall|g: int| 0 <= g < n ==> (#[trigger] source_blocks@[g])@.len() == nb,
                forall|g: int, b: int|
                    0 <= g < n && 0 <= b < nb ==> (#[trigger] source_blocks@[g]@[b] is Some <==> (b < block
                        && ownership.owner_sets()[b].contains(g as u32)) || (b == block && g < function
                        && ownership.owner_sets()[b].contains(g as u32))),
                forall|g: int, b: int|
                    0 <= g < n && 0 <= b < nb ==> (#[trigger] source_blocks@[g]@[b] matches Some(sb) ==> sb < blocks@.len()),
                forall|sb: int| 0 <= sb < blocks@.len() ==> #[trigger] empty_block(blocks@[sb]),
                distinct_targets(source_blocks@.map_values(|v: Vec<Option<u32>>| v@), nb as nat),
            decreases n - function,
        {
            if ownership.is_owned_by(block as u32, function as u32) {
                if blocks.len() >= 0xffff_ffff {
                    proof {
                        assert(block * n + function < nb * n) by (nonlinear_arith)
                            requires
                                block < nb,
                                function < n,
                        ;
                    }
                    return Err(SsaError::TooManyOperations { block: block as u32 });
                }
                let id = blocks.len() as u32;
                let ghost before = source_blocks@;
                source_blocks[function].set(block, Some(id));
                blocks.push(
                    SsaBlock {
                        source: Some(block as u32),
                        inputs: Vec::new(),
                        outputs: Vec::new(),
                        operations: Vec::new(),
                        control: SsaControl::Terminates,
                    },
                );
                proof {
                    assert forall|g: int| 0 <= g < n implies (#[trigger] source_blocks@[g])@.len() == nb by {
                        if g != function {
                            assert(source_blocks@[g] == before[g]);
                        }
                    }
                    assert forall|g: int, b: int| 0 <= g < n && 0 <= b < nb implies (#[trigger] source_blocks@[g]@[b] is Some
                        <==> (b < block && ownership.owner_sets()[b].contains(g as u32)) || (b == block && g < function + 1
                        && ownership.owner_sets()[b].contains(g as u32))) by {
                        if g != function {
                            assert(source_blocks@[g] == before[g]);
                        }
                    }
                    assert forall|g: int, b: int| 0 <= g < n && 0 <= b < nb implies (#[trigger] source_blocks@[g]@[b] matches Some(sb)
                        ==> sb < blocks@.len()) by {
                        if g != function {
                            assert(source_blocks@[g] == before[g]);
                        }
                    }
                    let m0 = before.map_values(|v: Vec<Option<u32>>| v@);
                    let m1 = source_blocks@.map_values(|v: Vec<Option<u32>>| v@);
                    assert forall|g: int, b: int| 0 <= g < n && 0 <= b < nb implies #[trigger] m1[g][b] == if g == function && b == block {
                        Some(id)
                    } else {
                        m0[g][b]
                    } by {
                        if g != function {
                            assert(source_blocks@[g] == before[g]);
                        }
                    }
                    assert forall|g: int, b: int| 0 <= g < n && 0 <= b < nb implies (#[trigger] m0[g][b] matches Some(x) ==> x < id) by {
                        assert(m0[g][b] == before[g]@[b]);
                    }
                    assert(distinct_targets(m1, nb as nat)) by {
                        assert forall|f1: int, b1: int, g1: int, c1: int|
                            0 <= f1 < m1.len() && 0 <= b1 < nb && 0 <= g1 < m1.len() && 0 <= c1 < nb && (#[trigger] m1[f1][b1]) is Some
                                && m1[f1][b1] == #[trigger] m1[g1][c1] implies f1 == g1 && b1 == c1 by {
                            if !(f1 == function && b1 == block) && !(g1 == function && c1 == block) {
                                assert(m0[f1][b1] == m1[f1][b1]);
                                assert(m0[g1][c1] == m1[g1][c1]);
                            } else if f1 == function && b1 == block && !(g1 == function && c1 == block) {
                                assert(m0[g1][c1] == m1[g1][c1]);
                            } else if !(f1 == function && b1 == block) {
                                assert(m0[f1][b1] == m1[f1][b1]);
                            }
                        }
                    }
                }
            }
            function = function + 1;
        }
        proof {
            assert(block * n + n == (block + 1) * n) by (nonlinear_arith);
        }
        block = block + 1;
    }
    let mut functions: Vec<SsaFunction> = Vec::new();
    let candidates = ownership.functions();
    let mut f: usize = 0;
    while f < n
        invariant
            decoded.wf(),
            ins == decoded.instruction_list(),
            pipeline_ok(ins, *inference, *cfg, *ownership),
            verification_holds(ins, *inference, *cfg, *ownership, *verification),
            candidates@ == ownership.function_list(),
            n == ownership.function_list().len(),
            nb == inference.blocks_spec().block_list().len(),
            nb <= u32::MAX,
            f <= n,
            functions@.len() == f,
            source_blocks@.len() == n,
            forall|g: int| 0 <= g < n ==> (#[trigger] source_blocks@[g])@.len() == nb,
            forall|g: int, b: int|
                0 <= g < n && 0 <= b < nb ==> (#[trigger] source_blocks@[g]@[b] is Some <==> ownership.owner_sets()[b].contains(g as u32)),
            forall|g: int|
                0 <= g < f ==> {
                    let sf = #[trigger] functions@[g];
                    &&& sf.kind == ownership.function_list()[g].kind
                    &&& source_blocks@[g]@[ownership.function_list()[g].entry as int] == Some(sf.entry)
                    &&& sf.blocks@ == present_blocks(source_blocks@[g]@)
                    &&& sf.inputs == arity_sir_inputs(verification.function_list()[g].spec_arity())
                    &&& sf.outputs == arity_outputs(verification.function_list()[g].spec_arity())
                },
        decreases n - f,
    {
        let candidate = candidates[f];
        proof {
            lemma_verified_function(ins, *inference, *cfg, *ownership, *verification, f as int);
            crate::verify::lemma_entry_in_range(*inference, *cfg, *ownership, f as u32);
        }
        let row = &source_blocks[f];
        let entry = match row[candidate.entry as usize] {
            Some(e) => e,
            None => {
                proof {
                    crate::ownership::lemma_walk_start(cfg.control_list(), candidate.entry);
                    assert(ownership.owner_sets()[candidate.entry as int].contains(f as u32));
                    assert(false);
                }
                0
            },
        };
        let mut owned: Vec<u32> = Vec::new();
        let mut b: usize = 0;
        while b < nb
            invariant
                b <= nb,
                row@.len() == nb,
                owned@ == present_blocks(row@.take(b as int)),
            decreases nb - b,
        {
            proof {
                assert(row@.take(b + 1).drop_last() =~= row@.take(b as int));
            }
            match row[b] {
                Some(sb) => {
                    owned.push(sb);
                },
                None => {},
            }
            b = b + 1;
        }
        proof {
            assert(row@.take(nb as int) =~= row@);
        }
        let arity = verification.function(f as u32).verified_arity();
        functions.push(
            SsaFunction {
                entry,
                blocks: owned,
                kind: candidate.kind,
                inputs: arity.sir_inputs(),
                outputs: arity.outputs(),
            },
        );
        f = f + 1;
    }
    let mut program = SsaProgram { functions, blocks, values: Vec::new(), source_blocks };
    proof {
        assert forall|sb: int| 0 <= sb < program.block_list().len() implies block_ok(program.value_list(), sb as u32, #[trigger] program.block_list()[sb]) by {
            assert(empty_block(program.block_list()[sb]));
        }
    }
    let mut block: u32 = 0;
    while (block as usize) < nb
        invariant
            decoded.wf(),
            ins == decoded.instruction_list(),
            pipeline_ok(ins, *inference, *cfg, *ownership),
            verification_holds(ins, *inference, *cfg, *ownership, *verification),
            n == ownership.function_list().len(),
            nb == inference.blocks_spec().block_list().len(),
            nb <= u32::MAX,
            n <= u32::MAX + 1,
            block <= nb,
            program.sources_ok(*ownership, nb as nat),
            program.blocks_ok(),
            program.function_list().len() == n,
            forall|f: int|
                0 <= f < n ==> {
                    let sf = #[trigger] program.function_list()[f];
                    &&& sf.kind == ownership.function_list()[f].kind
                    &&& program.source_map()[f][ownership.function_list()[f].entry as int] == Some(sf.entry)
                    &&& sf.blocks@ == present_blocks(program.source_map()[f])
                    &&& sf.inputs == arity_sir_inputs(verification.function_list()[f].spec_arity())
                    &&& sf.outputs == arity_outputs(verification.function_list()[f].spec_arity())
                },
            forall|f: u32, b: u32|
                f < n && b < nb && b < block && ownership.owner_sets()[b as int].contains(f) ==> #[trigger] block_lowered(
                    program,
                    ins,
                    *inference,
                    *cfg,
                    *verification,
                    f,
                    b,
                ),
        decreases nb - block,
    {
        let mut index: usize = 0;
        while index < n
            invariant
                decoded.wf(),
                ins == decoded.instruction_list(),
                pipeline_ok(ins, *inference, *cfg, *ownership),
                verification_holds(ins, *inference, *cfg, *ownership, *verification),
                n == ownership.function_list().len(),
                nb == inference.blocks_spec().block_list().len(),
                n <= u32::MAX + 1,
                (block as int) < nb,
                index <= n,
                program.sources_ok(*ownership, nb as nat),
                program.blocks_ok(),
                program.function_list().len() == n,
                forall|f: int|
                    0 <= f < n ==> {
                        let sf = #[trigger] program.function_list()[f];
                        &&& sf.kind == ownership.function_list()[f].kind
                        &&& program.source_map()[f][ownership.function_list()[f].entry as int] == Some(sf.entry)
                        &&& sf.blocks@ == present_blocks(program.source_map()[f])
                        &&& sf.inputs == arity_sir_inputs(verification.function_list()[f].spec_arity())
                        &&& sf.outputs == arity_outputs(verification.function_list()[f].spec_arity())
                    },
                forall|f: u32, b: u32|
                    f < n && b < nb && (b < block || (b == block && f < index)) && ownership.owner_sets()[b as int].contains(f) ==> #[trigger] block_lowered(
                        program,
                        ins,
                        *inference,
                        *cfg,
                        *verification,
                        f,
                        b,
                    ),
            decreases n - index,
        {
            let function = index as u32;
            if ownership.is_owned_by(block, function) {
                let ghost p0 = program;
                match lower_block_to_ssa(
                    function,
                    block,
                    decoded,
                    inference,
                    cfg,
                    verification,
                    &mut program,
                    Ghost(*ownership),
                ) {
                    Ok(()) => {},
                    Err(e) => {
                        proof {
                            let sb = p0.source_map()[function as int][block as int]->0;
                            assert(lower_block(
                                lower_context(function, block, sb, ins, *inference, *cfg, *verification),
                                inference.blocks_spec().block_list()[block as int].instructions,
                                verified_entry(*verification, function, block),
                                verification.function_list()[function as int].spec_arity(),
                                p0.source_map()[function as int],
                                p0.value_list(),
                            ) == Err::<(BlockView, Seq<SsaValueOrigin>), SsaError>(e));
                            assert(lowering_fails(ins, *inference, *cfg, *verification, function, block, e));
                        }
                        return Err(e);
                    },
                }
                proof {
                    let sb = p0.source_map()[function as int][block as int]->0;
                    assert forall|f: u32, b: u32|
                        f < n && b < nb && (b < block || (b == block && f < function)) && ownership.owner_sets()[b as int].contains(f) implies #[trigger] block_lowered(
                            program,
                            ins,
                            *inference,
                            *cfg,
                            *verification,
                            f,
                            b,
                        ) by {
                        assert(block_lowered(p0, ins, *inference, *cfg, *verification, f, b));
                        let sb2 = p0.source_map()[f as int][b as int]->0;
                        assert(p0.source_map()[f as int][b as int] is Some);
                        assert(sb2 != sb);
                        lemma_block_lowered_keep(p0, program, ins, *inference, *cfg, *verification, f, b);
                    }
                    assert(block_lowered(program, ins, *inference, *cfg, *verification, function, block)) by {
                        let k = p0.value_list().len() as int;
                        assert(program.value_list().take(k) == p0.value_list());
                        assert(program.value_list().take(program.value_list().len() as int) =~= program.value_list());
                        let c = lower_context(function, block, sb, ins, *inference, *cfg, *verification);
                        let fv = verification.function_list()[function as int];
                        let entry = match fv.states()[block as int] {
                            Some(s) => Some(s.model()),
                            None => None,
                        };
                        let span = inference.blocks_spec().block_list()[block as int].instructions;
                        assert(lower_block(c, span, entry, fv.spec_arity(), program.source_map()[function as int], program.value_list().take(k))
                            == lower_block(c, span, entry, fv.spec_arity(), p0.source_map()[function as int], p0.value_list()));
                        assert(lowered_from_prefix(program, ins, *inference, *cfg, *verification, function, block, k));
                    }
                }
            }
            index = index + 1;
        }
        block = block + 1;
    }
    Ok(program)
}

/// A block with nothing in it yet.
pub open spec fn empty_block(blk: SsaBlock) -> bool {
    &&& blk.inputs@.len() == 0
    &&& blk.outputs@.len() == 0
    &&& blk.operations@.len() == 0
    &&& blk.control == SsaControl::Terminates
}

/// A lowered block leaves as its source block does, edge by edge: a goto or
/// fallthrough goes to the SSA block lowered from the target, and a branch
/// goes to the SSA block lowered from the nonzero target when the condition
/// is nonzero and to the one lowered from the zero target otherwise.
#[verifier::spinoff_prover]
pub proof fn lemma_lowered_edges(
    p: SsaProgram,
    ins: Seq<Instruction>,
    inference: InternalCallInference,
    cfg: ProvisionalCfg,
    verification: Verification,
    function: u32,
    block: u32,
)
    requires
        block_lowered(p, ins, inference, cfg, verification, function, block),
    ensures
        ({
            let targets = p.source_map()[function as int];
            let control = p.block_list()[targets[block as int]->0 as int].control;
            &&& cfg.control_list()[block as int] matches BlockControl::Branch { non_zero: t, zero: z } ==> (control matches SsaControl::Branch {
                non_zero: a,
                zero: c,
                ..
            } && targets[t as int] == Some(a) && targets[z as int] == Some(c))
            &&& cfg.control_list()[block as int] matches BlockControl::Goto(t) ==> (control matches SsaControl::Goto(a)
                && targets[t as int] == Some(a))
            &&& cfg.control_list()[block as int] matches BlockControl::Fallthrough(t) ==> (control matches SsaControl::Goto(a)
                && targets[t as int] == Some(a))
            &&& cfg.control_list()[block as int] == BlockControl::InternalReturn ==> control == SsaControl::InternalReturn
            &&& (cfg.control_list()[block as int] == BlockControl::Terminates || cfg.control_list()[block as int]
                == BlockControl::EndOfCode || cfg.control_list()[block as int] == BlockControl::InvalidJump) ==> control
                == SsaControl::Terminates
        }),
{
    let k = choose|k: int| #[trigger] lowered_from_prefix(p, ins, inference, cfg, verification, function, block, k);
    let sb = p.source_map()[function as int][block as int]->0;
    let c = lower_context(function, block, sb, ins, inference, cfg, verification);
    let fv = verification.function_list()[function as int];
    let entry = match fv.states()[block as int] {
        Some(s) => Some(s.model()),
        None => None,
    };
    let span = inference.blocks_spec().block_list()[block as int].instructions;
    let targets = p.source_map()[function as int];
    let r = lower_block(c, span, entry, fv.spec_arity(), targets, p.value_list().take(k));
    assert(r is Ok);
    let view = r->Ok_0.0;
    assert(view == block_view(p.block_list()[sb as int]));
    assert(view.control == p.block_list()[sb as int].control);
    let m = entry->0;
    let n = arity_physical_inputs(fv.spec_arity());
    let syms = m.values + input_values(m.next_input, (n - m.next_input) as nat);
    let return_input = match fv.spec_arity() {
        FunctionArity::Returning(a) => Some(a.return_input),
        FunctionArity::Root => None,
    };
    let pre = entry_prefix(c, syms, return_input, p.value_list().take(k), syms.len());
    assert(pre is Ok);
    let (stack, inputs, vals) = pre->Ok_0;
    let low = lower_from(c, Lowering { stack, values: vals, ops: Seq::empty(), condition: None }, span.start, span.end);
    assert(low is Ok);
    let fin = finish_block(c, low->Ok_0, inputs, targets, span.end);
    assert(fin == r);
    assert(c.control == cfg.control_list()[block as int]);
}

} // verus!
