//! The text listing of an SSA program.
use vstd::prelude::*;
use vstd::string::*;

use crate::ownership::{kind_text, FunctionKind};
use crate::ssa::{SsaBlock, SsaControl, SsaFunction, SsaOperation, SsaOperationKind, SsaProgram};
use crate::text::{dec_text, hex_min_text, joined, push_dec, push_word_hex};
use crate::word::word_value;

verus! {

/// Each value as ` v<n>`.
pub open spec fn value_refs_text(values: Seq<u32>) -> Seq<char> {
    joined(values.len(), |k: nat| " v"@ + dec_text(values[k as int] as nat))
}

/// What an operation does, as a listing shows it.
pub open spec fn operation_kind_text(kind: SsaOperationKind) -> Seq<char> {
    match kind {
        SsaOperationKind::Opcode(op) => op.spec_name(),
        SsaOperationKind::Constant(w) => "const 0x"@ + hex_min_text(word_value(w) as nat),
        SsaOperationKind::InternalCall(callee) => "icall f"@ + dec_text(callee as nat),
        SsaOperationKind::SyntheticInvalid => "invalid [synthetic]"@,
        SsaOperationKind::SyntheticStop => "stop [synthetic]"@,
    }
}

/// One operation line: its outputs, what it does, then its inputs.
pub open spec fn operation_text(op: SsaOperation) -> Seq<char> {
    "        "@ + if op.outputs@.len() == 0 {
        Seq::empty()
    } else {
        joined(op.outputs@.len(), |k: nat| "v"@ + dec_text(op.outputs@[k as int] as nat) + " "@) + "= "@
    } + operation_kind_text(op.kind) + value_refs_text(op.inputs@) + "\n"@
}

/// How control leaves an SSA block, as a listing shows it.
pub open spec fn ssa_control_text(control: SsaControl) -> Seq<char> {
    match control {
        SsaControl::Goto(target) => "%"@ + dec_text(target as nat),
        SsaControl::Branch { condition, non_zero, zero } => "v"@ + dec_text(condition as nat) + " ? %"@
            + dec_text(non_zero as nat) + " : %"@ + dec_text(zero as nat),
        SsaControl::InternalReturn => "iret"@,
        SsaControl::Terminates => "terminates"@,
    }
}

/// A block's header: its number, inputs, outputs and source block.
pub open spec fn ssa_block_header_text(id: nat, block: SsaBlock) -> Seq<char> {
    "    %"@ + dec_text(id) + value_refs_text(block.inputs@) + if block.outputs@.len() == 0 {
        Seq::empty()
    } else {
        " ->"@ + value_refs_text(block.outputs@)
    } + match block.source {
        Some(source) => " ; @"@ + dec_text(source as nat),
        None => " ; synthetic"@,
    } + "\n"@
}

/// A block: its header, its operations, and its control.
pub open spec fn ssa_block_text(id: nat, block: SsaBlock) -> Seq<char> {
    ssa_block_header_text(id, block) + joined(
        block.operations@.len(),
        |k: nat| operation_text(block.operations@[k as int]),
    ) + "        => "@ + ssa_control_text(block.control) + "\n"@
}

/// A function's header: its number, kind, arity and entry block.
pub open spec fn ssa_function_header_text(id: nat, function: SsaFunction) -> Seq<char> {
    "fn f"@ + dec_text(id) + " "@ + kind_text(function.kind) + " inputs="@ + dec_text(function.inputs as nat)
        + " outputs="@ + dec_text(function.outputs as nat) + " entry=%"@ + dec_text(function.entry as nat)
        + "\n"@
}

/// A function: its header, then each of its blocks.
pub open spec fn ssa_function_text(id: nat, function: SsaFunction, blocks: Seq<SsaBlock>) -> Seq<char> {
    ssa_function_header_text(id, function) + joined(
        function.blocks@.len(),
        |k: nat| ssa_block_text(function.blocks@[k as int] as nat, blocks[function.blocks@[k as int] as int]),
    )
}

/// Every function of the program, in order.
pub open spec fn ssa_program_text(functions: Seq<SsaFunction>, blocks: Seq<SsaBlock>) -> Seq<char> {
    joined(functions.len(), |i: nat| ssa_function_text(i, functions[i as int], blocks))
}

fn push_value_refs(text: &mut String, values: &Vec<u32>)
    ensures
        final(text)@ == old(text)@ + value_refs_text(values@),
{
    let ghost start = text@;
    let ghost each = |k: nat| " v"@ + dec_text(values@[k as int] as nat);
    let mut k: usize = 0;
    while k < values.len()
        invariant
            k <= values@.len(),
            each == (|k: nat| " v"@ + dec_text(values@[k as int] as nat)),
            text@ == start + joined(k as nat, each),
        decreases values@.len() - k,
    {
        let ghost before = text@;
        text.append(" v");
        push_dec(text, values[k] as u64);
        assert(text@ =~= before + each(k as nat));
        k = k + 1;
    }
}

fn push_operation(text: &mut String, op: &SsaOperation)
    ensures
        final(text)@ == old(text)@ + operation_text(*op),
{
    text.append("        ");
    let ghost start = text@;
    if op.outputs.len() != 0 {
        let ghost each = |k: nat| "v"@ + dec_text(op.outputs@[k as int] as nat) + " "@;
        let mut k: usize = 0;
        while k < op.outputs.len()
            invariant
                k <= op.outputs@.len(),
                each == (|k: nat| "v"@ + dec_text(op.outputs@[k as int] as nat) + " "@),
                text@ == start + joined(k as nat, each),
            decreases op.outputs@.len() - k,
        {
            let ghost before = text@;
            text.append("v");
            push_dec(text, op.outputs[k] as u64);
            text.append(" ");
            assert(text@ =~= before + each(k as nat));
            k = k + 1;
        }
        text.append("= ");
    }
    let ghost before_kind = text@;
    match op.kind {
        SsaOperationKind::Opcode(code) => text.append(code.name()),
        SsaOperationKind::Constant(w) => {
            text.append("const 0x");
            push_word_hex(text, w);
        },
        SsaOperationKind::InternalCall(callee) => {
            text.append("icall f");
            push_dec(text, callee as u64);
        },
        SsaOperationKind::SyntheticInvalid => text.append("invalid [synthetic]"),
        SsaOperationKind::SyntheticStop => text.append("stop [synthetic]"),
    }
    assert(text@ =~= before_kind + operation_kind_text(op.kind));
    push_value_refs(text, &op.inputs);
    text.append("\n");
    assert(text@ =~= old(text)@ + operation_text(*op));
}

fn push_ssa_control(text: &mut String, control: SsaControl)
    ensures
        final(text)@ == old(text)@ + ssa_control_text(control),
{
    match control {
        SsaControl::Goto(target) => {
            text.append("%");
            push_dec(text, target as u64);
        },
        SsaControl::Branch { condition, non_zero, zero } => {
            text.append("v");
            push_dec(text, condition as u64);
            text.append(" ? %");
            push_dec(text, non_zero as u64);
            text.append(" : %");
            push_dec(text, zero as u64);
        },
        SsaControl::InternalReturn => text.append("iret"),
        SsaControl::Terminates => text.append("terminates"),
    }
    assert(text@ =~= old(text)@ + ssa_control_text(control));
}

fn push_ssa_block_header(text: &mut String, id: u32, block: &SsaBlock)
    ensures
        final(text)@ == old(text)@ + ssa_block_header_text(id as nat, *block),
{
    text.append("    %");
    push_dec(text, id as u64);
    push_value_refs(text, &block.inputs);
    if block.outputs.len() != 0 {
        text.append(" ->");
        push_value_refs(text, &block.outputs);
    }
    match block.source {
        Some(source) => {
            text.append(" ; @");
            push_dec(text, source as u64);
        },
        None => text.append(" ; synthetic"),
    }
    text.append("\n");
    assert(text@ =~= old(text)@ + ssa_block_header_text(id as nat, *block));
}

fn push_ssa_block(text: &mut String, id: u32, block: &SsaBlock)
    ensures
        final(text)@ == old(text)@ + ssa_block_text(id as nat, *block),
{
    push_ssa_block_header(text, id, block);
    let ghost header = text@;
    let ghost each = |k: nat| operation_text(block.operations@[k as int]);
    let mut k: usize = 0;
    while k < block.operations.len()
        invariant
            k <= block.operations@.len(),
            each == (|k: nat| operation_text(block.operations@[k as int])),
            text@ == header + joined(k as nat, each),
        decreases block.operations@.len() - k,
    {
        let ghost before = text@;
        push_operation(text, &block.operations[k]);
        assert(text@ =~= before + each(k as nat));
        k = k + 1;
    }
    let ghost body = text@;
    text.append("        => ");
    push_ssa_control(text, block.control);
    text.append("\n");
    assert(text@ =~= body + "        => "@ + ssa_control_text(block.control) + "\n"@);
    assert(text@ =~= old(text)@ + ssa_block_text(id as nat, *block));
}

fn push_ssa_function_header(text: &mut String, id: u64, function: &SsaFunction)
    ensures
        final(text)@ == old(text)@ + ssa_function_header_text(id as nat, *function),
{
    text.append("fn f");
    push_dec(text, id);
    text.append(" ");
    match function.kind {
        FunctionKind::Returning => text.append("Returning"),
        FunctionKind::Root => text.append("Root"),
    }
    text.append(" inputs=");
    push_dec(text, function.inputs as u64);
    text.append(" outputs=");
    push_dec(text, function.outputs as u64);
    text.append(" entry=%");
    push_dec(text, function.entry as u64);
    text.append("\n");
    assert(text@ =~= old(text)@ + ssa_function_header_text(id as nat, *function));
}

fn push_ssa_function(text: &mut String, id: u64, function: &SsaFunction, blocks: &Vec<SsaBlock>)
    requires
        forall|k: int| 0 <= k < function.blocks@.len() ==> #[trigger] function.blocks@[k] < blocks@.len(),
    ensures
        final(text)@ == old(text)@ + ssa_function_text(id as nat, *function, blocks@),
{
    push_ssa_function_header(text, id, function);
    let ghost header = text@;
    let ghost each = |k: nat| ssa_block_text(function.blocks@[k as int] as nat, blocks@[function.blocks@[k as int] as int]);
    let mut k: usize = 0;
    while k < function.blocks.len()
        invariant
            k <= function.blocks@.len(),
            forall|j: int| 0 <= j < function.blocks@.len() ==> #[trigger] function.blocks@[j] < blocks@.len(),
            each == (|k: nat| ssa_block_text(function.blocks@[k as int] as nat, blocks@[function.blocks@[k as int] as int])),
            text@ == header + joined(k as nat, each),
        decreases function.blocks@.len() - k,
    {
        let ghost before = text@;
        let block = function.blocks[k];
        push_ssa_block(text, block, &blocks[block as usize]);
        assert(text@ =~= before + each(k as nat));
        k = k + 1;
    }
    assert(text@ =~= old(text)@ + ssa_function_text(id as nat, *function, blocks@));
}

impl SsaProgram {
    /// Every function with its blocks, their operations and their control.
    pub fn display(&self) -> (r: String)
        requires
            forall|f: int, k: int|
                0 <= f < self.function_list().len() && 0 <= k < self.function_list()[f].blocks@.len()
                    ==> #[trigger] self.function_list()[f].blocks@[k] < self.block_list().len(),
        ensures
            r@ == ssa_program_text(self.function_list(), self.block_list()),
    {
        let functions = self.functions();
        let blocks = self.blocks();
        let ghost each = |i: nat| ssa_function_text(i, functions@[i as int], blocks@);
        let mut text = String::new();
        let mut i: usize = 0;
        while i < functions.len()
            invariant
                i <= functions@.len(),
                forall|f: int, k: int|
                    0 <= f < functions@.len() && 0 <= k < functions@[f].blocks@.len() ==> #[trigger] functions@[f].blocks@[k]
                        < blocks@.len(),
                each == (|i: nat| ssa_function_text(i, functions@[i as int], blocks@)),
                text@ == joined(i as nat, each),
            decreases functions@.len() - i,
        {
            let ghost before = text@;
            let function = &functions[i];
            assert(forall|k: int|
                0 <= k < function.blocks@.len() ==> #[trigger] function.blocks@[k] < blocks@.len()) by {
                assert(function == functions@[i as int]);
            }
            push_ssa_function(&mut text, i as u64, function, blocks);
            assert(text@ =~= before + each(i as nat));
            i = i + 1;
        }
        text
    }
}

} // verus!
