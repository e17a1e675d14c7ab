use vstd::prelude::*;
use std::collections::{BTreeMap, BTreeSet};

use crate::opcode::StackIO;
use crate::symbolic::{
    single, views, StackModel, StackShapeMismatch, SymbolicAtom, SymbolicStack, SymbolicValue,
    normalize_model, materialize_model,
};
use crate::word::{lemma_word_value_injective, word_value, Word};
use crate::cfg::{BlockControl, ProvisionalCfg};
use crate::decode::{be_value, DecodedBytecode, Instruction};
use crate::icall::{in_block, InferredCall, InternalCallInference};
use crate::primitive_blocks::StaticJumpDestination;
use crate::assembler::Span;
use crate::opcode::Opcode;
use crate::ownership::Ownership;
use crate::ordered::sorted_members;
use vstd::std_specs::iter::IteratorSpec;
use crate::stack_bound::{
    admissible_atom, lemma_materialize_admissible, lemma_normalize_room, lemma_states_room_update,
    lemma_values_room_shrinks, model_admissible, model_room, none_count, pushed_bytes, states_room,
};

verus! {

/// The stack effect of a returning function: its inputs include the return
/// destination, found at input `return_input`.
#[derive(Debug, Clone, Copy, PartialEq, Eq, Structural)]
pub struct ReturningArity {
    pub physical: StackIO,
    pub return_input: u16,
}

/// The verified arity of a function candidate.
#[derive(Debug, Clone, Copy, PartialEq, Eq, Structural)]
pub enum FunctionArity {
    Root,
    Returning(ReturningArity),
}

impl FunctionArity {
    /// A returning arity is consistent when the return destination is one of
    /// its inputs.
    pub open spec fn consistent(self) -> bool {
        self matches FunctionArity::Returning(a) ==> a.return_input < a.physical.inputs
    }

    /// Inputs other than the return destination.
    pub fn sir_inputs(self) -> (r: u16)
        requires
            self matches FunctionArity::Returning(a) ==> a.physical.inputs >= 1,
        ensures
            r == match self {
                FunctionArity::Root => 0,
                FunctionArity::Returning(a) => a.physical.inputs - 1,
            },
    {
        match self {
            FunctionArity::Root => 0,
            FunctionArity::Returning(arity) => arity.physical.inputs - 1,
        }
    }

    pub fn outputs(self) -> (r: u16)
        ensures
            r == match self {
                FunctionArity::Root => 0,
                FunctionArity::Returning(a) => a.physical.outputs,
            },
    {
        match self {
            FunctionArity::Returning(arity) => arity.physical.outputs,
            FunctionArity::Root => 0,
        }
    }

    /// All inputs, the return destination included.
    pub fn physical_inputs(self) -> (r: u16)
        ensures
            r == match self {
                FunctionArity::Root => 0,
                FunctionArity::Returning(a) => a.physical.inputs,
            },
    {
        match self {
            FunctionArity::Root => 0,
            FunctionArity::Returning(arity) => arity.physical.inputs,
        }
    }
}

/// Why the lifted functions could not be verified.
#[derive(Debug, Clone, Copy, PartialEq, Eq, Structural)]
pub enum VerificationError {
    UnreachableFunctionCandidate,
    RecursiveCall { function: u32 },
    WrongFunctionOwner { function: u32, block: u32 },
    StackUnderflow { function: u32, block: u32, instruction: u32 },
    UnresolvedControl { function: u32, block: u32 },
    NoInternalReturn { function: u32 },
    UnexpectedReturn { function: u32, block: u32 },
    InvalidReturnDestination { function: u32, block: u32, instruction: u32 },
    InvalidReturnValue { function: u32, block: u32 },
    ReturnInputOutOfBounds { function: u32, return_input: u16, physical_inputs: u16 },
    InconsistentReturnArity { function: u32, expected: ReturningArity, actual: ReturningArity },
    StackTooDeep { function: u32, block: u32 },
    IncomingStackMismatch { function: u32, source_block: u32, target: u32, error: StackShapeMismatch },
    CrossFunctionCfgEdge { function: u32, source_block: u32, target: u32 },
    InvalidDirectControlValue { function: u32, block: u32, instruction: u32 },
    ReturningCallToNonReturningFunction { call: u32, callee: u32 },
    MissingCallContinuation { call: u32 },
    AmbiguousReturnDestination { call: u32 },
    WrongReturnDestination { call: u32, expected_pc: u32, actual: Word },
    DuplicatedReturnDestination { call: u32, push: u32 },
    ReturnDestinationUsedSemantically { call: u32, push: u32 },
}

/// The word holding a PC.
pub open spec fn pc_word(pc: u32) -> Word {
    Word { limb3: 0, limb2: 0, limb1: 0, limb0: pc as u64 }
}

/// `value` is exactly the constant pushed by `push` with value `pc`.
pub open spec fn is_direct_control_value(value: Seq<SymbolicAtom>, push: u32, pc: u32) -> bool {
    value.len() == 1 && value.contains(SymbolicAtom::Constant { instruction: push, value: pc_word(pc) })
}

fn underflow(function: u32, block: u32, instruction: u32) -> (r: VerificationError)
    ensures
        r == (VerificationError::StackUnderflow { function, block, instruction }),
{
    VerificationError::StackUnderflow { function, block, instruction }
}

/// Checks that a jump's destination is exactly the constant its static
/// destination names.
fn verify_direct_control_value(
    value: &SymbolicValue,
    push: u32,
    pc: u32,
    function: u32,
    block: u32,
    instruction: u32,
) -> (r: Result<(), VerificationError>)
    ensures
        r is Ok <==> is_direct_control_value(value@, push, pc),
        r matches Err(e) ==> e == (VerificationError::InvalidDirectControlValue {
            function,
            block,
            instruction,
        }),
{
    let expected = SymbolicAtom::Constant { instruction: push, value: Word::from_u32(pc) };
    if value.len() == 1 && crate::symbolic::value_contains(value, expected) {
        Ok(())
    } else {
        Err(VerificationError::InvalidDirectControlValue { function, block, instruction })
    }
}

/// The push that produced a constant atom.
pub open spec fn atom_push(a: SymbolicAtom) -> Option<u32> {
    match a {
        SymbolicAtom::Constant { instruction, .. } => Some(instruction),
        _ => None,
    }
}

/// The pushes whose constants `value` may hold.
pub open spec fn constant_pushes(value: Seq<SymbolicAtom>) -> Set<u32> {
    Set::new(|i: u32| exists|t: int| 0 <= t < value.len() && #[trigger] atom_push(value[t]) == Some(i))
}

/// Records, for `function`, every push whose constant `value` may hold as
/// used for its value.
fn record_semantic_constants(
    function: u32,
    value: &SymbolicValue,
    uses: &mut BTreeSet<(u32, u32)>,
)
    ensures
        forall|k: (u32, u32)|
            #[trigger] final(uses)@.contains(k) <==> old(uses)@.contains(k) || (k.0 == function
                && constant_pushes(value@).contains(k.1)),
{
    let ghost start = uses@;
    let mut k: usize = 0;
    while k < value.len()
        invariant
            k <= value@.len(),
            forall|x: (u32, u32)|
                #[trigger] uses@.contains(x) <==> start.contains(x) || (x.0 == function
                    && constant_pushes(value@.take(k as int)).contains(x.1)),
        decreases value@.len() - k,
    {
        let ghost before = uses@;
        match value[k] {
            SymbolicAtom::Constant { instruction, .. } => {
                uses.insert((function, instruction));
            },
            _ => {},
        }
        proof {
            let prefix = value@.take(k as int);
            let next = value@.take(k + 1);
            assert forall|i: u32| #[trigger] constant_pushes(next).contains(i) <==> constant_pushes(prefix).contains(i)
                || atom_push(value@[k as int]) == Some(i) by {
                if constant_pushes(next).contains(i) {
                    let t = choose|t: int| 0 <= t < next.len() && #[trigger] atom_push(next[t]) == Some(i);
                    if t < prefix.len() {
                        assert(prefix[t] == next[t]);
                    }
                }
                if constant_pushes(prefix).contains(i) {
                    let t = choose|t: int| 0 <= t < prefix.len() && #[trigger] atom_push(prefix[t]) == Some(i);
                    assert(next[t] == prefix[t]);
                }
                if atom_push(value@[k as int]) == Some(i) {
                    assert(next[k as int] == value@[k as int]);
                }
            }
        }
        k = k + 1;
    }
    proof {
        assert(value@.take(value@.len() as int) =~= value@);
    }
}

/// Some value may be a function input numbered `bound` or above.
pub open spec fn mentions_input_from(values: Seq<Seq<SymbolicAtom>>, bound: nat) -> bool {
    exists|i: int, j: int|
        0 <= i < values.len() && 0 <= j < values[i].len() && (#[trigger] values[i][j] matches SymbolicAtom::FunctionInput(k)
            && k >= bound)
}

/// What a return from `block` implies about its function: the destination
/// must be one function input, which is kept as the return input; the
/// physical inputs are those the stack needed; the outputs are the explicit
/// values plus the inputs left untouched.
pub open spec fn return_outcome(
    function: u32,
    block: u32,
    instruction: u32,
    destination: Seq<SymbolicAtom>,
    st: StackModel,
) -> Result<ReturningArity, VerificationError> {
    if !(destination.len() == 1 && destination[0] is FunctionInput) {
        Err(VerificationError::InvalidReturnDestination { function, block, instruction })
    } else {
        let return_input = match destination[0] {
            SymbolicAtom::FunctionInput(r) => r,
            _ => 0,
        };
        let n = normalize_model(st);
        let physical = n.required_inputs;
        if return_input >= physical || n.next_input > physical {
            Err(
                VerificationError::ReturnInputOutOfBounds {
                    function,
                    return_input,
                    physical_inputs: physical as u16,
                },
            )
        } else if mentions_input_from(n.values, physical) {
            Err(VerificationError::InvalidReturnValue { function, block })
        } else if n.values.len() + (physical - n.next_input) > u16::MAX {
            Err(VerificationError::StackTooDeep { function, block })
        } else {
            Ok(
                ReturningArity {
                    physical: StackIO {
                        inputs: physical as u16,
                        outputs: (n.values.len() + physical - n.next_input) as u16,
                    },
                    return_input,
                },
            )
        }
    }
}

/// Checks a return and derives the function's arity from the stack there.
fn verify_return(
    function: u32,
    block: u32,
    instruction: u32,
    destination: SymbolicValue,
    stack: &mut SymbolicStack,
) -> (r: Result<ReturningArity, VerificationError>)
    requires
        old(stack).wf(),
    ensures
        final(stack).wf(),
        r == return_outcome(function, block, instruction, destination@, old(stack).model()),
        final(stack).model() == if destination@.len() == 1 && destination@[0] is FunctionInput {
            normalize_model(old(stack).model())
        } else {
            old(stack).model()
        },
        r matches Ok(a) ==> a.return_input < a.physical.inputs,
{
    if destination.len() != 1 {
        return Err(VerificationError::InvalidReturnDestination { function, block, instruction });
    }
    let return_input = match destination[0] {
        SymbolicAtom::FunctionInput(input) => input,
        _ => {
            return Err(VerificationError::InvalidReturnDestination { function, block, instruction });
        },
    };
    stack.normalize();
    let physical_inputs = stack.required_inputs();
    if return_input >= physical_inputs || stack.next_input() > physical_inputs {
        return Err(
            VerificationError::ReturnInputOutOfBounds { function, return_input, physical_inputs },
        );
    }
    let values = stack.values_top_first();
    let ghost vs = stack.model().values;
    let ghost nmodel = stack.model();
    let mut i: usize = 0;
    while i < values.len()
        invariant
            stack.wf(),
            stack.model() == nmodel,
            nmodel == normalize_model(old(stack).model()),
            nmodel.values == vs,
            physical_inputs == nmodel.required_inputs,
            destination@.len() == 1,
            destination@[0] == SymbolicAtom::FunctionInput(return_input),
            !(return_input >= physical_inputs || nmodel.next_input > physical_inputs),
            views(values@) == vs,
            i <= values@.len(),
            forall|a: int, b: int|
                0 <= a < i && 0 <= b < vs[a].len() ==> !(#[trigger] vs[a][b] matches SymbolicAtom::FunctionInput(k)
                    && k >= physical_inputs),
        decreases values@.len() - i,
    {
        let value = &values[i];
        let mut j: usize = 0;
        while j < value.len()
            invariant
                stack.wf(),
                stack.model() == nmodel,
                nmodel == normalize_model(old(stack).model()),
                nmodel.values == vs,
                physical_inputs == nmodel.required_inputs,
                destination@.len() == 1,
                destination@[0] == SymbolicAtom::FunctionInput(return_input),
                !(return_input >= physical_inputs || nmodel.next_input > physical_inputs),
                views(values@) == vs,
                i < values@.len(),
                *value == values@[i as int],
                j <= value@.len(),
                forall|b: int|
                    0 <= b < j ==> !(#[trigger] vs[i as int][b] matches SymbolicAtom::FunctionInput(k)
                        && k >= physical_inputs),
            decreases value@.len() - j,
        {
            assert(vs[i as int] == value@);
            match value[j] {
                SymbolicAtom::FunctionInput(input) => {
                    if input >= physical_inputs {
                        proof {
                            assert(vs[i as int][j as int] == value@[j as int]);
                        }
                        return Err(VerificationError::InvalidReturnValue { function, block });
                    }
                },
                _ => {},
            }
            j = j + 1;
        }
        i = i + 1;
    }
    let implicit_outputs = physical_inputs - stack.next_input();
    let explicit = values.len();
    if explicit > 65535 {
        return Err(VerificationError::StackTooDeep { function, block });
    }
    let explicit_outputs = explicit as u16;
    match explicit_outputs.checked_add(implicit_outputs) {
        None => Err(VerificationError::StackTooDeep { function, block }),
        Some(outputs) => Ok(
            ReturningArity {
                physical: StackIO { inputs: physical_inputs, outputs },
                return_input,
            },
        ),
    }
}

/// How many of `values` may be `atom`.
pub open spec fn containing_count(values: Seq<Seq<SymbolicAtom>>, atom: SymbolicAtom) -> nat
    decreases values.len(),
{
    if values.len() == 0 {
        0
    } else {
        containing_count(values.drop_last(), atom) + if values.last().contains(atom) {
            1nat
        } else {
            0nat
        }
    }
}

/// The results of a call, first output on top.
pub open spec fn call_results(call: u32, outputs: nat) -> Seq<Seq<SymbolicAtom>> {
    Seq::new(outputs, |o: int| single(SymbolicAtom::CallResult { call, output: o as u16 }))
}

/// The return destination a call's stack holds: the single constant at the
/// callee's return input.
pub open spec fn call_return_atom(st: StackModel, callee: ReturningArity) -> Option<SymbolicAtom> {
    let rv = st.values[callee.return_input as int];
    if rv.len() == 1 && rv[0] is Constant {
        Some(rv[0])
    } else {
        None
    }
}

/// Checks a call against its callee's arity and replaces the callee's inputs
/// on the stack by its results. The return destination must be one
/// constant, pushed once, equal to the call's continuation; the push is
/// recorded as the call's return push.
fn verify_and_apply_call(
    function: u32,
    block: u32,
    call: u32,
    continuation_pc: Option<u32>,
    callee: ReturningArity,
    stack: &mut SymbolicStack,
    return_pushes: &mut BTreeMap<(u32, u32), u32>,
) -> (r: Result<(), VerificationError>)
    requires
        old(stack).wf(),
        callee.return_input < callee.physical.inputs,
    ensures
        final(stack).wf(),
        continuation_pc is None ==> r == Err::<(), VerificationError>(
            VerificationError::MissingCallContinuation { call },
        ) && final(stack).model() == old(stack).model() && final(return_pushes)@ == old(return_pushes)@,
        continuation_pc matches Some(cp) ==> {
            let (st, ok) = materialize_model(old(stack).model(), callee.physical.inputs as nat);
            &&& !ok ==> r == Err::<(), VerificationError>(underflow_error(function, block, call))
                && final(stack).model() == st && final(return_pushes)@ == old(return_pushes)@
            &&& ok ==> match call_return_atom(st, callee) {
                None => r == Err::<(), VerificationError>(
                    VerificationError::AmbiguousReturnDestination { call },
                ) && final(stack).model() == st && final(return_pushes)@ == old(return_pushes)@,
                Some(atom) => {
                    let push = atom->Constant_instruction;
                    let w = atom->Constant_value;
                    if w != pc_word(cp) {
                        r == Err::<(), VerificationError>(
                            VerificationError::WrongReturnDestination {
                                call,
                                expected_pc: cp,
                                actual: w,
                            },
                        ) && final(stack).model() == st && final(return_pushes)@ == old(
                            return_pushes,
                        )@
                    } else if containing_count(st.values, atom) != 1 {
                        r == Err::<(), VerificationError>(
                            VerificationError::DuplicatedReturnDestination { call, push },
                        ) && final(stack).model() == st && final(return_pushes)@ == old(
                            return_pushes,
                        )@
                    } else {
                        &&& final(return_pushes)@ == old(return_pushes)@.insert((function, call), push)
                        &&& if old(return_pushes)@.contains_key((function, call)) && old(
                            return_pushes,
                        )@[(function, call)] != push {
                            r == Err::<(), VerificationError>(
                                VerificationError::AmbiguousReturnDestination { call },
                            ) && final(stack).model() == st
                        } else {
                            r == Ok::<(), VerificationError>(()) && final(stack).model() == (
                            StackModel {
                                values: call_results(call, callee.physical.outputs as nat)
                                    + st.values.skip(callee.physical.inputs as int),
                                ..st
                            })
                        }
                    }
                },
            }
        },
{
    let continuation_pc = match continuation_pc {
        Some(pc) => pc,
        None => {
            return Err(VerificationError::MissingCallContinuation { call });
        },
    };
    match stack.materialize(callee.physical.inputs as usize) {
        Ok(()) => {},
        Err(_) => {
            return Err(underflow(function, block, call));
        },
    }
    let ghost st = stack.model();
    let values = stack.values_top_first();
    let return_value = &values[callee.return_input as usize];
    proof {
        assert(return_value@ == st.values[callee.return_input as int]);
    }
    if return_value.len() != 1 {
        return Err(VerificationError::AmbiguousReturnDestination { call });
    }
    let atom = return_value[0];
    let (return_push, return_pc) = match atom {
        SymbolicAtom::Constant { instruction, value } => (instruction, value),
        _ => {
            return Err(VerificationError::AmbiguousReturnDestination { call });
        },
    };
    if return_pc != Word::from_u32(continuation_pc) {
        return Err(
            VerificationError::WrongReturnDestination {
                call,
                expected_pc: continuation_pc,
                actual: return_pc,
            },
        );
    }
    let mut occurrences: usize = 0;
    let mut i: usize = 0;
    while i < values.len()
        invariant
            views(values@) == st.values,
            i <= values@.len(),
            occurrences == containing_count(st.values.take(i as int), atom),
            occurrences <= i,
        decreases values@.len() - i,
    {
        proof {
            assert(st.values.take(i + 1).drop_last() =~= st.values.take(i as int));
            assert(values@[i as int]@ == st.values[i as int]);
        }
        if crate::symbolic::value_contains(&values[i], atom) {
            occurrences = occurrences + 1;
        }
        i = i + 1;
    }
    proof {
        assert(st.values.take(values@.len() as int) =~= st.values);
    }
    if occurrences != 1 {
        return Err(VerificationError::DuplicatedReturnDestination { call, push: return_push });
    }
    let previous = return_pushes.insert((function, call), return_push);
    match previous {
        Some(old_push) => {
            if old_push != return_push {
                return Err(VerificationError::AmbiguousReturnDestination { call });
            }
        },
        None => {},
    }
    let mut popped: u16 = 0;
    while popped < callee.physical.inputs
        invariant
            stack.wf(),
            popped <= callee.physical.inputs,
            st.values.len() >= callee.physical.inputs,
            stack.model() == (StackModel { values: st.values.skip(popped as int), ..st }),
        decreases callee.physical.inputs - popped,
    {
        let ghost before = stack.model();
        let _ = stack.pop();
        proof {
            assert(materialize_model(before, 1).0 == before);
            assert(st.values.skip(popped as int).drop_first() =~= st.values.skip(popped + 1));
        }
        popped = popped + 1;
    }
    let mut output: u16 = callee.physical.outputs;
    while output > 0
        invariant
            stack.wf(),
            output <= callee.physical.outputs,
            stack.model() == (StackModel {
                values: call_results(call, callee.physical.outputs as nat).skip(output as int)
                    + st.values.skip(callee.physical.inputs as int),
                ..st
            }),
        decreases output,
    {
        output = output - 1;
        let ghost before = stack.model();
        stack.push_atom(SymbolicAtom::CallResult { call, output });
        proof {
            let all = call_results(call, callee.physical.outputs as nat);
            assert(all.skip(output as int) =~= seq![single(SymbolicAtom::CallResult { call, output })]
                + all.skip(output + 1));
            assert(stack.model().values =~= all.skip(output as int) + st.values.skip(callee.physical.inputs as int));
        }
    }
    proof {
        assert(call_results(call, callee.physical.outputs as nat).skip(0) =~= call_results(
            call,
            callee.physical.outputs as nat,
        ));
    }
    Ok(())
}

/// The error a stack underflow in `block` at `instruction` gives.
pub open spec fn underflow_error(function: u32, block: u32, instruction: u32) -> VerificationError {
    VerificationError::StackUnderflow { function, block, instruction }
}

/// The stack models of the blocks that have one.
pub open spec fn entry_models(states: Seq<Option<SymbolicStack>>) -> Seq<Option<StackModel>> {
    states.map_values(
        |o: Option<SymbolicStack>|
            match o {
                Some(s) => Some(s.model()),
                None => None,
            },
    )
}

/// Every stored stack is well formed and made of admissible atoms.
pub open spec fn entries_ok(ins: Seq<Instruction>, states: Seq<Option<SymbolicStack>>) -> bool {
    forall|b: int|
        0 <= b < states.len() ==> (#[trigger] states[b] matches Some(s) ==> s.wf() && model_admissible(
            ins,
            s.model(),
        ))
}

/// Every value of `st` holds some atom.
pub open spec fn values_nonempty(st: StackModel) -> bool {
    forall|i: int| 0 <= i < st.values.len() ==> #[trigger] st.values[i].len() > 0
}

/// `st` is as the analysis keeps entry stacks: normalized, and every value
/// holds some atom.
pub open spec fn kept_normal(st: StackModel) -> bool {
    normalize_model(st) == st && values_nonempty(st)
}

/// Every stored stack is kept normal.
pub open spec fn states_normal(states: Seq<Option<SymbolicStack>>) -> bool {
    forall|b: int| 0 <= b < states.len() ==> (#[trigger] states[b] matches Some(s) ==> kept_normal(s.model()))
}

/// What leaves a block, `out`, is covered by the stack `s` kept at the entry
/// of a successor: once normalized it has the same shape, it requires no
/// more inputs, and each of its values may be only atoms that the
/// corresponding value of `s` may be.
pub open spec fn included(out: StackModel, s: StackModel) -> bool {
    let n = normalize_model(out);
    &&& n.open == s.open
    &&& n.next_input == s.next_input
    &&& n.values.len() == s.values.len()
    &&& n.required_inputs <= s.required_inputs
    &&& forall|i: int| 0 <= i < n.values.len() ==> (#[trigger] n.values[i]).to_set().subset_of(s.values[i].to_set())
}

/// `s2` has the shape of `s` and covers it.
pub open spec fn grows(s: StackModel, s2: StackModel) -> bool {
    &&& s.open == s2.open
    &&& s.next_input == s2.next_input
    &&& s.values.len() == s2.values.len()
    &&& s.required_inputs <= s2.required_inputs
    &&& forall|i: int| 0 <= i < s.values.len() ==> (#[trigger] s.values[i]).to_set().subset_of(s2.values[i].to_set())
}

proof fn lemma_included_grows(out: StackModel, s: StackModel, s2: StackModel)
    requires
        included(out, s),
        grows(s, s2),
    ensures
        included(out, s2),
{
    let n = normalize_model(out);
    assert forall|i: int| 0 <= i < n.values.len() implies (#[trigger] n.values[i]).to_set().subset_of(s2.values[i].to_set()) by {
        assert(n.values[i].to_set().subset_of(s.values[i].to_set()));
        assert(s.values[i].to_set().subset_of(s2.values[i].to_set()));
    }
}

proof fn lemma_grows_trans(s: StackModel, s2: StackModel, s3: StackModel)
    requires
        grows(s, s2),
        grows(s2, s3),
    ensures
        grows(s, s3),
{
    assert forall|i: int| 0 <= i < s.values.len() implies (#[trigger] s.values[i]).to_set().subset_of(s3.values[i].to_set()) by {
        assert(s.values[i].to_set().subset_of(s2.values[i].to_set()));
        assert(s2.values[i].to_set().subset_of(s3.values[i].to_set()));
    }
}

proof fn lemma_grows_refl(s: StackModel)
    ensures
        grows(s, s),
{
}

/// A normalized stack is covered by itself.
proof fn lemma_included_normalized(out: StackModel)
    ensures
        included(out, normalize_model(out)),
{
}

/// Normalizing keeps values nonempty.
proof fn lemma_normalize_nonempty(st: StackModel)
    requires
        values_nonempty(st),
    ensures
        kept_normal(normalize_model(st)),
{
    crate::stack_bound::lemma_normalize_prefix(st);
    crate::stack_bound::lemma_normalize_twice(st);
    let n = normalize_model(st);
    assert forall|i: int| 0 <= i < n.values.len() implies #[trigger] n.values[i].len() > 0 by {
        assert(n.values[i] == st.values[i]);
    }
}

/// Merging into a kept stack gives a kept stack: no value of the merge can
/// become a lone trailing input the kept stack did not already end with.
proof fn lemma_merge_normal(left: StackModel, m: StackModel)
    requires
        kept_normal(left),
        crate::symbolic::model_wf(left),
        crate::symbolic::model_wf(m),
        grows(left, m),
    ensures
        kept_normal(m),
{
    assert forall|i: int| 0 <= i < m.values.len() implies #[trigger] m.values[i].len() > 0 by {
        assert(left.values[i].len() > 0);
        assert(left.values[i].to_set().contains(left.values[i][0]));
        assert(m.values[i].to_set().contains(left.values[i][0]));
    }
    if m.open && m.next_input > 0 && m.values.len() > 0 && m.values.last() == single(
        SymbolicAtom::FunctionInput((m.next_input - 1) as u16),
    ) {
        let x = SymbolicAtom::FunctionInput((m.next_input - 1) as u16);
        let l = left.values.last();
        let k = left.values.len() - 1;
        assert(l == left.values[k]);
        assert(l.len() > 0);
        assert(l.to_set().subset_of(m.values[k].to_set()));
        assert(m.values[k] == single(x));
        assert forall|a: SymbolicAtom| l.to_set().contains(a) implies a == x by {
            assert(m.values[k].to_set().contains(a));
            let j = choose|j: int| 0 <= j < m.values[k].len() && m.values[k][j] == a;
        }
        assert(l.no_duplicates());
        l.unique_seq_to_set();
        assert(l.to_set() =~= set![x]) by {
            assert(l.to_set().contains(l[0]));
        }
        assert(l.len() == 1);
        assert(l =~= single(x)) by {
            assert(l.to_set().contains(l[0]));
        }
        let smaller = StackModel { values: left.values.drop_last(), next_input: (left.next_input - 1) as nat, ..left };
        crate::stack_bound::lemma_normalize_prefix(smaller);
        assert(normalize_model(left) == normalize_model(smaller));
        assert(false);
    }
}

/// Joining `incoming` into the kept stack `kept` fails: once both are
/// normalized their shapes differ, and `m` records the two shapes.
pub open spec fn shape_mismatch(kept: StackModel, incoming: StackModel, m: StackShapeMismatch) -> bool {
    let left = normalize_model(kept);
    let right = normalize_model(incoming);
    &&& !(left.open == right.open && left.next_input == right.next_input && left.values.len() == right.values.len())
    &&& m == StackShapeMismatch {
        left_values: left.values.len() as usize,
        left_next_input: left.next_input as u16,
        right_values: right.values.len() as usize,
        right_next_input: right.next_input as u16,
    }
}

/// Hands a block's outgoing stack to `target`: the target must belong to the
/// same function; its entry stack becomes the normalized stack or grows by
/// merging it, and it is queued again when it changed.
#[verifier::spinoff_prover]
fn propagate(
    function: u32,
    source: u32,
    target: u32,
    state: SymbolicStack,
    ownership: &Ownership,
    entry_states: &mut Vec<Option<SymbolicStack>>,
    worklist: &mut Vec<u32>,
    Ghost(ins): Ghost<Seq<Instruction>>,
) -> (r: Result<(), VerificationError>)
    requires
        state.wf(),
        model_admissible(ins, state.model()),
        values_nonempty(state.model()),
        target < old(entry_states)@.len(),
        target < ownership.owner_sets().len(),
        entries_ok(ins, old(entry_states)@),
        states_normal(old(entry_states)@),
    ensures
        final(entry_states)@.len() == old(entry_states)@.len(),
        entries_ok(ins, final(entry_states)@),
        states_normal(final(entry_states)@),
        forall|b: int| 0 <= b < old(entry_states)@.len() && b != target ==> #[trigger] entry_models(final(entry_states)@)[b]
            == entry_models(old(entry_states)@)[b],
        forall|b: int| 0 <= b < old(entry_states)@.len() && old(entry_states)@[b] is Some ==> #[trigger] final(entry_states)@[b] is Some,
        old(entry_states)@[target as int] matches Some(s) ==> (final(entry_states)@[target as int] matches Some(t) && grows(
            s.model(),
            t.model(),
        )),
        r is Ok ==> (final(entry_states)@[target as int] matches Some(t) && included(state.model(), t.model())),
        final(worklist)@ == old(worklist)@ ==> entry_models(final(entry_states)@) == entry_models(old(entry_states)@),
        !ownership.owner_sets()[target as int].contains(function) ==> r == Err::<(), VerificationError>(
            VerificationError::CrossFunctionCfgEdge { function, source_block: source, target },
        ),
        r matches Err(e) ==> (e == VerificationError::CrossFunctionCfgEdge { function, source_block: source, target }
            && !ownership.owner_sets()[target as int].contains(function)) || (e matches VerificationError::IncomingStackMismatch {
            function: f,
            source_block: s,
            target: t,
            error: m,
        } && f == function && s == source && t == target && old(entry_states)@[target as int] is Some
            && shape_mismatch(old(entry_states)@[target as int]->0.model(), state.model(), m)),
        r is Ok ==> final(entry_states)@[target as int] is Some,
        r is Ok ==> ownership.owner_sets()[target as int].contains(function),
        final(worklist)@ == old(worklist)@ || final(worklist)@ == old(worklist)@.push(target),
        old(entry_states)@[target as int] is None && r is Ok ==> final(worklist)@ == old(worklist)@.push(target),
        r is Err ==> final(worklist)@ == old(worklist)@ && entry_models(final(entry_states)@) == entry_models(old(entry_states)@),
        final(worklist)@.len() != old(worklist)@.len() ==> none_count(entry_models(final(entry_states)@))
            < none_count(entry_models(old(entry_states)@)) || (none_count(entry_models(final(entry_states)@))
            == none_count(entry_models(old(entry_states)@)) && states_room(ins.len(), entry_models(final(entry_states)@))
            < states_room(ins.len(), entry_models(old(entry_states)@))),
        final(worklist)@.len() == old(worklist)@.len() ==> none_count(entry_models(final(entry_states)@)) == none_count(
            entry_models(old(entry_states)@),
        ) && states_room(ins.len(), entry_models(final(entry_states)@)) <= states_room(
            ins.len(),
            entry_models(old(entry_states)@),
        ),
{
    if !ownership.is_owned_by(target, function) {
        return Err(VerificationError::CrossFunctionCfgEdge { function, source_block: source, target });
    }
    let ghost orig = state.model();
    let mut state = state;
    proof {
        lemma_normalize_room(ins, state.model());
        crate::stack_bound::lemma_normalize_twice(orig);
        lemma_normalize_nonempty(orig);
        lemma_included_normalized(orig);
    }
    state.normalize();
    let ghost old_states = entry_states@;
    let ghost old_models = entry_models(entry_states@);
    let mut slot: Option<SymbolicStack> = None;
    entry_states.set_and_swap(target as usize, &mut slot);
    match slot {
        Some(existing) => {
            let ghost existing_model = existing.model();
            proof {
                assert(old_states[target as int] == Some(existing));
                lemma_normalize_room(ins, existing_model);
                lemma_grows_refl(existing_model);
            }
            let mut grown = existing.duplicate_stack();
            let merged = grown.merge(&state);
            match merged {
                Ok(true) => {
                    proof {
                        let left = normalize_model(existing_model);
                        let right = normalize_model(state.model());
                        let m = grown.model();
                        assert(left == existing_model);
                        assert forall|i: int, j: int| 0 <= i < m.values.len() && 0 <= j < m.values[i].len() implies crate::stack_bound::admissible_atom(
                            ins,
                            #[trigger] m.values[i][j],
                        ) by {
                            let a = m.values[i][j];
                            assert(m.values[i].to_set().contains(a));
                            assert(left.values[i].to_set().contains(a) || right.values[i].to_set().contains(a));
                            if left.values[i].to_set().contains(a) {
                                let k = choose|k: int| 0 <= k < left.values[i].len() && left.values[i][k] == a;
                                assert(crate::stack_bound::admissible_atom(ins, left.values[i][k]));
                            } else {
                                let k = choose|k: int| 0 <= k < right.values[i].len() && right.values[i][k] == a;
                                assert(crate::stack_bound::admissible_atom(ins, right.values[i][k]));
                            }
                        }
                        assert forall|i: int| 0 <= i < left.values.len() implies left.values[i].to_set().subset_of(
                            #[trigger] m.values[i].to_set(),
                        ) by {}
                        lemma_values_room_shrinks(ins, left.values, m.values);
                        if exists|i: int| 0 <= i < left.values.len() && !(#[trigger] right.values[i]).to_set().subset_of(
                            left.values[i].to_set(),
                        ) {
                            let i = choose|i: int| 0 <= i < left.values.len() && !(#[trigger] right.values[i]).to_set().subset_of(
                                left.values[i].to_set(),
                            );
                            let a = choose|a: SymbolicAtom| right.values[i].to_set().contains(a) && !left.values[i].to_set().contains(a);
                            assert(m.values[i].to_set().contains(a));
                        }
                        assert(model_room(ins.len(), m) < model_room(ins.len(), left));
                        assert(grows(existing_model, m));
                        lemma_merge_normal(existing_model, m);
                        assert(included(orig, m)) by {
                            let n = normalize_model(orig);
                            assert(n == right);
                            assert forall|i: int| 0 <= i < n.values.len() implies (#[trigger] n.values[i]).to_set().subset_of(m.values[i].to_set()) by {}
                        }
                    }
                    entry_states.set(target as usize, Some(grown));
                    proof {
                        lemma_states_room_update(ins.len(), old_models, target as int, Some(grown.model()));
                        assert(entry_models(entry_states@) =~= old_models.update(target as int, Some(grown.model())));
                        assert forall|b: int| 0 <= b < entry_states@.len() implies (#[trigger] entry_states@[b] matches Some(s) ==> s.wf()
                            && model_admissible(ins, s.model()) && kept_normal(s.model())) by {
                            if b != target {
                                assert(entry_states@[b] == old_states[b]);
                            }
                        }
                    }
                    worklist.push(target);
                    proof {
                        assert(worklist@.len() != old(worklist)@.len());
                        assert(worklist@ != old(worklist)@);
                    }
                    Ok(())
                },
                _ => {
                    entry_states.set(target as usize, Some(existing));
                    proof {
                        assert(entry_states@ =~= old_states);
                        assert(entry_models(entry_states@) == entry_models(old(entry_states)@));
                        if merged is Ok {
                            let left = normalize_model(existing_model);
                            let n = normalize_model(orig);
                            assert(left == existing_model);
                            assert(n == normalize_model(state.model()));
                            assert forall|i: int| 0 <= i < n.values.len() implies (#[trigger] n.values[i]).to_set().subset_of(
                                existing_model.values[i].to_set(),
                            ) by {
                                if !n.values[i].to_set().subset_of(left.values[i].to_set()) {
                                    assert(exists|k: int| 0 <= k < left.values.len() && !(#[trigger] normalize_model(state.model()).values[k]).to_set().subset_of(
                                        left.values[k].to_set(),
                                    ));
                                }
                            }
                            assert(included(orig, existing_model));
                        }
                    }
                    match merged {
                        Err(error) => Err(
                            VerificationError::IncomingStackMismatch {
                                function,
                                source_block: source,
                                target,
                                error,
                            },
                        ),
                        Ok(_) => Ok(()),
                    }
                },
            }
        },
        None => {
            proof {
                assert(old_states[target as int] is None);
            }
            entry_states.set(target as usize, Some(state));
            proof {
                lemma_states_room_update(ins.len(), old_models, target as int, Some(state.model()));
                assert(entry_models(entry_states@) =~= old_models.update(target as int, Some(state.model())));
                assert forall|b: int| 0 <= b < entry_states@.len() implies (#[trigger] entry_states@[b] matches Some(s) ==> s.wf()
                    && model_admissible(ins, s.model()) && kept_normal(s.model())) by {
                    if b != target {
                        assert(entry_states@[b] == old_states[b]);
                    }
                }
            }
            worklist.push(target);
            Ok(())
        },
    }
}

/// A function's verification: its arity and the stack at the entry of each
/// block it reaches.
pub struct FunctionVerification {
    pub arity: FunctionArity,
    entry_states: Vec<Option<SymbolicStack>>,
}

impl FunctionVerification {
    pub closed spec fn states(&self) -> Seq<Option<SymbolicStack>> {
        self.entry_states@
    }

    pub closed spec fn spec_arity(&self) -> FunctionArity {
        self.arity
    }

    /// The verified arity.
    pub fn verified_arity(&self) -> (r: FunctionArity)
        ensures
            r == self.spec_arity(),
    {
        self.arity
    }
}

/// The arity of each verified function whose verification is done.
pub closed spec fn callee_arities_ok(verified: Seq<Option<FunctionVerification>>) -> bool {
    forall|g: int| 0 <= g < verified.len() ==> (#[trigger] verified[g] matches Some(v) ==> v.arity.consistent())
}

/// Function `f` calls function `g` from a block it owns.
pub open spec fn calls_into(
    inference: InternalCallInference,
    cfg: ProvisionalCfg,
    ownership: Ownership,
    f: u32,
    g: u32,
) -> bool {
    exists|b: int, k: int|
        0 <= b < cfg.call_lists().len() && ownership.owner_sets()[b].contains(f) && 0 <= k
            < cfg.call_lists()[b].len() && (#[trigger] inference.call_list()[cfg.call_lists()[b][k] as int]
            matches Some(c) && c.function == g)
}

/// The instructions `ins`, inference, graph and ownership fit together.
pub open spec fn pipeline_ok(
    ins: Seq<Instruction>,
    inference: InternalCallInference,
    cfg: ProvisionalCfg,
    ownership: Ownership,
) -> bool {
    &&& inference.wf()
    &&& inference.source() == ins
    &&& cfg.built_from(ins, inference)
    &&& ownership.analyzes(inference, cfg)
}

/// Every call in `start..end` is listed by `calls_between`.
proof fn lemma_calls_between(
    calls: Seq<Option<crate::icall::InferredCall>>,
    start: int,
    end: int,
    i: int,
)
    requires
        start <= i < end <= calls.len(),
        calls[i] is Some,
    ensures
        crate::cfg::calls_between(calls, start, end).contains(i as u32),
    decreases end - start,
{
    let list = crate::cfg::calls_between(calls, start, end);
    if i == end - 1 {
        assert(list.last() == i as u32);
    } else {
        lemma_calls_between(calls, start, end - 1, i);
        let prev = crate::cfg::calls_between(calls, start, end - 1);
        let t = choose|t: int| 0 <= t < prev.len() && prev[t] == i as u32;
        if calls[end - 1] is Some {
            assert(list[t] == i as u32);
        }
    }
}

proof fn lemma_outputs_small(op: Opcode)
    ensures
        op.spec_stack_io().outputs <= 1 || op.spec_dup_depth() is Some || op.spec_swap_depth() is Some,
{
}

proof fn lemma_zero_word_bytes(instr: Instruction)
    requires
        instr.declared_len() == 0,
    ensures
        be_value(pushed_bytes(instr)) == 0,
{
    let s = pushed_bytes(instr);
    crate::decode::lemma_be_value_leading_zeros(s, 32);
    assert(s.skip(32) =~= Seq::<u8>::empty());
}

/// The word a `PUSH1`..`PUSH32` instruction pushes.
pub open spec fn pushed_word(i: Instruction) -> Word {
    choose|w: Word| word_value(w) == be_value(pushed_bytes(i))
}

/// `st` with `atom` pushed on top.
pub open spec fn push_model(st: StackModel, atom: SymbolicAtom) -> StackModel {
    StackModel { values: seq![single(atom)] + st.values, ..st }
}

/// Pops the top value, drawing a function input if the stack needs one;
/// `None` on underflow.
pub open spec fn pop_model(st: StackModel) -> Option<(StackModel, Seq<SymbolicAtom>)> {
    let (m, ok) = materialize_model(st, 1);
    if ok {
        Some((StackModel { values: m.values.drop_first(), ..m }, m.values[0]))
    } else {
        None
    }
}

/// `DUPn`: pushes a copy of the `depth`th value; `None` on underflow.
pub open spec fn dup_model(st: StackModel, depth: nat) -> Option<StackModel> {
    let (m, ok) = materialize_model(st, depth);
    if ok {
        Some(StackModel { values: seq![m.values[depth - 1]] + m.values, ..m })
    } else {
        None
    }
}

/// `SWAPn`: exchanges the top value with the one `depth` below it; `None`
/// on underflow.
pub open spec fn swap_model(st: StackModel, depth: nat) -> Option<StackModel> {
    let (m, ok) = materialize_model(st, depth + 1);
    if ok {
        Some(StackModel { values: m.values.update(0, m.values[depth as int]).update(depth as int, m.values[0]), ..m })
    } else {
        None
    }
}

/// Pops `n` values one at a time: the stack left and the values popped, top
/// first; `None` on underflow.
pub open spec fn pop_values(st: StackModel, n: nat) -> Option<(StackModel, Seq<Seq<SymbolicAtom>>)>
    decreases n,
{
    if n == 0 {
        Some((st, Seq::empty()))
    } else {
        match pop_values(st, (n - 1) as nat) {
            Some((s1, popped)) => match pop_model(s1) {
                Some((s2, v)) => Some((s2, popped.push(v))),
                None => None,
            },
            None => None,
        }
    }
}

/// The pushes whose constants some of `values` may hold.
pub open spec fn pushes_of(values: Seq<Seq<SymbolicAtom>>) -> Set<u32>
    decreases values.len(),
{
    if values.len() == 0 {
        Set::empty()
    } else {
        pushes_of(values.drop_last()) + constant_pushes(values.last())
    }
}

/// The results of instruction `id`, first output on top.
pub open spec fn instruction_results(id: u32, outputs: nat) -> Seq<Seq<SymbolicAtom>> {
    Seq::new(outputs, |o: int| single(SymbolicAtom::InstructionResult { instruction: id, output: o as u8 }))
}

/// What running a block's instructions has given so far: the stack, the
/// arity a return there implies, the pushes checked as jump destinations,
/// the return push of each call, the pushes whose constants were used as
/// values, and whether an instruction stopped the block.
pub struct BlockRun {
    pub stack: StackModel,
    pub ret: Option<ReturningArity>,
    pub control: Set<u32>,
    pub returns: Map<u32, u32>,
    pub uses: Set<u32>,
    pub stopped: bool,
}

/// A run that has done nothing yet, from stack `st`.
pub open spec fn run_start(st: StackModel) -> BlockRun {
    BlockRun { stack: st, ret: None, control: Set::empty(), returns: Map::empty(), uses: Set::empty(), stopped: false }
}

/// What running block `block` of `function` reads besides the stack: the
/// instructions, the inferred calls and static jumps, the block's control,
/// the arity of each verified function, and the return pushes recorded
/// before.
pub struct RunContext {
    pub function: u32,
    pub block: u32,
    pub ins: Seq<Instruction>,
    pub calls: Seq<Option<InferredCall>>,
    pub static_jumps: Seq<Option<StaticJumpDestination>>,
    pub control: BlockControl,
    pub arities: Seq<Option<FunctionArity>>,
    pub recorded: Map<(u32, u32), u32>,
}

/// The context of block `block` of `function`.
pub open spec fn run_context(
    ins: Seq<Instruction>,
    inference: InternalCallInference,
    cfg: ProvisionalCfg,
    function: u32,
    block: u32,
    arities: Seq<Option<FunctionArity>>,
    recorded: Map<(u32, u32), u32>,
) -> RunContext {
    RunContext {
        function,
        block,
        ins,
        calls: inference.call_list(),
        static_jumps: inference.static_jump_list(),
        control: cfg.control_list()[block as int],
        arities,
        recorded,
    }
}

/// The arities of the functions verified so far.
pub open spec fn arities_of(verified: Seq<Option<FunctionVerification>>) -> Seq<Option<FunctionArity>> {
    verified.map_values(|v: Option<FunctionVerification>| match v {
        Some(fv) => Some(fv.spec_arity()),
        None => None,
    })
}

/// A call with continuation `continuation` to a function of arity `callee`:
/// the callee's inputs must be there, the return destination among them one
/// constant pushed once, equal to the continuation and not recorded with
/// another push before; the inputs are replaced by the call's results.
/// Gives the stack after the call and the return push.
pub open spec fn call_outcome(
    c: RunContext,
    st: StackModel,
    call: u32,
    continuation: Option<u32>,
    callee: ReturningArity,
) -> Result<(StackModel, u32), VerificationError> {
    match continuation {
        None => Err(VerificationError::MissingCallContinuation { call }),
        Some(cp) => {
            let (m, ok) = materialize_model(st, callee.physical.inputs as nat);
            if !ok {
                Err(underflow_error(c.function, c.block, call))
            } else {
                match call_return_atom(m, callee) {
                    None => Err(VerificationError::AmbiguousReturnDestination { call }),
                    Some(atom) => {
                        let push = atom->Constant_instruction;
                        let w = atom->Constant_value;
                        if w != pc_word(cp) {
                            Err(VerificationError::WrongReturnDestination { call, expected_pc: cp, actual: w })
                        } else if containing_count(m.values, atom) != 1 {
                            Err(VerificationError::DuplicatedReturnDestination { call, push })
                        } else if c.recorded.contains_key((c.function, call)) && c.recorded[(c.function, call)] != push {
                            Err(VerificationError::AmbiguousReturnDestination { call })
                        } else {
                            Ok((
                                StackModel {
                                    values: call_results(call, callee.physical.outputs as nat)
                                        + m.values.skip(callee.physical.inputs as int),
                                    ..m
                                },
                                push,
                            ))
                        }
                    },
                }
            }
        },
    }
}

/// A `JUMP` at `id`, after its destination `dest` was popped leaving `st`:
/// a call is checked and applied, a return is verified, and a static jump
/// must go where its push says.
pub open spec fn jump_step(
    c: RunContext,
    r: BlockRun,
    id: u32,
    st: StackModel,
    dest: Seq<SymbolicAtom>,
) -> Result<BlockRun, VerificationError> {
    let bad_target = VerificationError::InvalidDirectControlValue { function: c.function, block: c.block, instruction: id };
    match c.calls[id as int] {
        Some(call) => if !is_direct_control_value(dest, call.destination_push, call.destination_pc) {
            Err(bad_target)
        } else {
            match c.arities[call.function as int] {
                Some(FunctionArity::Returning(a)) => match call_outcome(c, st, id, call.continuation_pc, a) {
                    Ok((s2, push)) => Ok(BlockRun {
                        stack: s2,
                        control: r.control.insert(call.destination_push),
                        returns: r.returns.insert(id, push),
                        ..r
                    }),
                    Err(e) => Err(e),
                },
                _ => Err(VerificationError::ReturningCallToNonReturningFunction { call: id, callee: call.function }),
            }
        },
        None => if c.control == BlockControl::InternalReturn {
            match return_outcome(c.function, c.block, id, dest, st) {
                Ok(a) => Ok(BlockRun { stack: normalize_model(st), ret: Some(a), ..r }),
                Err(e) => Err(e),
            }
        } else {
            match c.static_jumps[id as int] {
                Some(sd) => if is_direct_control_value(dest, sd.push, sd.pc) {
                    Ok(BlockRun { stack: st, control: r.control.insert(sd.push), ..r })
                } else {
                    Err(bad_target)
                },
                None => Ok(BlockRun { stack: st, ..r }),
            }
        },
    }
}

/// Runs instruction `id`.
pub open spec fn run_step(c: RunContext, r: BlockRun, id: u32) -> Result<BlockRun, VerificationError> {
    let i = c.ins[id as int];
    let uf = underflow_error(c.function, c.block, id);
    match i.op {
        Err(_) => Ok(BlockRun { stopped: true, ..r }),
        Ok(op) => if op.spec_is_push() {
            Ok(BlockRun { stack: push_model(r.stack, SymbolicAtom::Constant { instruction: id, value: pushed_word(i) }), ..r })
        } else if op == Opcode::Push0 {
            Ok(BlockRun {
                stack: push_model(r.stack, SymbolicAtom::Constant { instruction: id, value: Word { limb3: 0, limb2: 0, limb1: 0, limb0: 0 } }),
                ..r
            })
        } else if op.spec_dup_depth() is Some {
            match dup_model(r.stack, op.spec_dup_depth()->0 as nat) {
                Some(s) => Ok(BlockRun { stack: s, ..r }),
                None => Err(uf),
            }
        } else if op.spec_swap_depth() is Some {
            match swap_model(r.stack, op.spec_swap_depth()->0 as nat) {
                Some(s) => Ok(BlockRun { stack: s, ..r }),
                None => Err(uf),
            }
        } else if op == Opcode::Pop {
            match pop_model(r.stack) {
                Some((s, _)) => Ok(BlockRun { stack: s, ..r }),
                None => Err(uf),
            }
        } else if op == Opcode::JumpDest {
            Ok(r)
        } else if op == Opcode::Jump {
            match pop_model(r.stack) {
                Some((s, dest)) => jump_step(c, r, id, s, dest),
                None => Err(uf),
            }
        } else if op == Opcode::JumpI {
            match pop_model(r.stack) {
                Some((s1, dest)) => match pop_model(s1) {
                    Some((s2, cond)) => {
                        let uses = r.uses + constant_pushes(cond);
                        match c.static_jumps[id as int] {
                            Some(sd) => if is_direct_control_value(dest, sd.push, sd.pc) {
                                Ok(BlockRun { stack: s2, control: r.control.insert(sd.push), uses, ..r })
                            } else {
                                Err(VerificationError::InvalidDirectControlValue { function: c.function, block: c.block, instruction: id })
                            },
                            None => Ok(BlockRun { stack: s2, uses, ..r }),
                        }
                    },
                    None => Err(uf),
                },
                None => Err(uf),
            }
        } else {
            let io = op.spec_stack_io();
            match pop_values(r.stack, io.inputs as nat) {
                Some((s, popped)) => {
                    let uses = r.uses + pushes_of(popped);
                    if op.spec_is_terminating() {
                        Ok(BlockRun { stack: s, uses, stopped: true, ..r })
                    } else {
                        Ok(BlockRun {
                            stack: StackModel { values: instruction_results(id, io.outputs as nat) + s.values, ..s },
                            uses,
                            ..r
                        })
                    }
                },
                None => Err(uf),
            }
        },
    }
}

/// Runs instructions `id..end`, up to the first that stops the block.
pub open spec fn run_from(c: RunContext, r: BlockRun, id: u32, end: u32) -> Result<BlockRun, VerificationError>
    decreases end - id,
{
    if id >= end || r.stopped {
        Ok(r)
    } else {
        match run_step(c, r, id) {
            Ok(r2) => run_from(c, r2, (id + 1) as u32, end),
            Err(e) => Err(e),
        }
    }
}

/// Runs the instructions of a block, spanning `span`, from stack `st`.
pub open spec fn run_block(c: RunContext, span: Span, st: StackModel) -> Result<BlockRun, VerificationError> {
    run_from(c, run_start(st), span.start, span.end)
}

/// The pairs `(function, p)` for the `p` in `s`.
pub open spec fn tagged_set(function: u32, s: Set<u32>) -> Set<(u32, u32)> {
    Set::new(|k: (u32, u32)| k.0 == function && s.contains(k.1))
}

/// The entries `(function, c) -> p` for the `c -> p` in `m`.
pub open spec fn tagged_map(function: u32, m: Map<u32, u32>) -> Map<(u32, u32), u32> {
    Map::new(|k: (u32, u32)| k.0 == function && m.contains_key(k.1), |k: (u32, u32)| m[k.1])
}

/// Facts that tie the analysis records to a run of a block begun when they
/// were `c0`, `r0` and `u0`.
pub open spec fn records_follow(
    function: u32,
    control_pushes: Set<(u32, u32)>,
    return_pushes: Map<(u32, u32), u32>,
    uses: Set<(u32, u32)>,
    c0: Set<(u32, u32)>,
    r0: Map<(u32, u32), u32>,
    u0: Set<(u32, u32)>,
    run: BlockRun,
) -> bool {
    &&& control_pushes == c0 + tagged_set(function, run.control)
    &&& return_pushes == r0.union_prefer_right(tagged_map(function, run.returns))
    &&& uses == u0 + tagged_set(function, run.uses)
}

/// Runs instruction `instruction_id` of `block`, as `run_step` says, and
/// keeps the records in step with the run.
#[verifier::rlimit(100)]
#[verifier::loop_isolation(false)]
fn execute_instruction(
    function: u32,
    block: u32,
    instruction_id: u32,
    decoded: &DecodedBytecode,
    inference: &InternalCallInference,
    cfg: &ProvisionalCfg,
    ownership: &Ownership,
    verified: &Vec<Option<FunctionVerification>>,
    stack: &mut SymbolicStack,
    return_arity: &mut Option<ReturningArity>,
    control_pushes: &mut BTreeSet<(u32, u32)>,
    return_pushes: &mut BTreeMap<(u32, u32), u32>,
    semantic_constant_uses: &mut BTreeSet<(u32, u32)>,
    Ghost(run): Ghost<BlockRun>,
    Ghost(c0): Ghost<Set<(u32, u32)>>,
    Ghost(r0): Ghost<Map<(u32, u32), u32>>,
    Ghost(u0): Ghost<Set<(u32, u32)>>,
) -> (r: Result<bool, VerificationError>)
    requires
        decoded.wf(),
        pipeline_ok(decoded.instruction_list(), *inference, *cfg, *ownership),
        block < inference.blocks_spec().block_list().len(),
        inference.blocks_spec().block_list()[block as int].instructions.start <= instruction_id,
        instruction_id < inference.blocks_spec().block_list()[block as int].instructions.end,
        ownership.owner_sets()[block as int].contains(function),
        callee_arities_ok(verified@),
        forall|g: u32| #[trigger] calls_into(*inference, *cfg, *ownership, function, g) ==> g < verified@.len()
            && verified@[g as int] is Some,
        old(stack).wf(),
        model_admissible(decoded.instruction_list(), old(stack).model()),
        old(stack).model() == run.stack,
        *old(return_arity) == run.ret,
        *old(return_arity) matches Some(a) ==> a.return_input < a.physical.inputs
            && cfg.control_list()[block as int] == BlockControl::InternalReturn,
        !run.stopped,
        forall|k: u32| #[trigger] run.returns.contains_key(k) ==> k < instruction_id,
        records_follow(function, old(control_pushes)@, old(return_pushes)@, old(semantic_constant_uses)@, c0, r0, u0, run),
    ensures
        final(stack).wf(),
        model_admissible(decoded.instruction_list(), final(stack).model()),
        *final(return_arity) matches Some(a) ==> a.return_input < a.physical.inputs
            && cfg.control_list()[block as int] == BlockControl::InternalReturn,
        ({
            let c = run_context(decoded.instruction_list(), *inference, *cfg, function, block, arities_of(verified@), r0);
            match run_step(c, run, instruction_id) {
                Ok(next) => {
                    &&& r == Ok::<bool, VerificationError>(next.stopped)
                    &&& final(stack).model() == next.stack
                    &&& *final(return_arity) == next.ret
                    &&& records_follow(function, final(control_pushes)@, final(return_pushes)@, final(semantic_constant_uses)@, c0, r0, u0, next)
                },
                Err(e) => r == Err::<bool, VerificationError>(e),
            }
        }),
{
    let ghost ins = decoded.instruction_list();
    let ghost c = run_context(ins, *inference, *cfg, function, block, arities_of(verified@), r0);
    proof {
        assert(inference.blocks_spec().block_list()[block as int].instructions.end <= ins.len());
    }
    let instruction = decoded.instruction(instruction_id);
    proof {
        assert(instruction.decodes(decoded.code(), instruction.pc as int));
        assert(c.ins[instruction_id as int] == *instruction);
    }
    let op = match instruction.op {
        Err(_) => {
            return Ok(true);
        },
        Ok(op) => op,
    };
    if op.is_push() {
        let bytes = match instruction.immediate_as_u256() {
            Some(b) => b,
            None => {
                proof {
                    assert(false);
                }
                [0u8; 32]
            },
        };
        let value = Word::from_be_bytes(bytes);
        let atom = SymbolicAtom::Constant { instruction: instruction_id, value };
        proof {
            assert(bytes@ =~= pushed_bytes(ins[instruction_id as int]));
            assert(admissible_atom(ins, atom));
            let w = pushed_word(*instruction);
            assert(word_value(w) == be_value(pushed_bytes(*instruction)));
            lemma_word_value_injective(w, value);
        }
        stack.push_atom(atom);
        Ok(false)
    } else if op == Opcode::Push0 {
        let atom = SymbolicAtom::Constant { instruction: instruction_id, value: Word::zero() };
        proof {
            lemma_zero_word_bytes(ins[instruction_id as int]);
            assert(admissible_atom(ins, atom));
        }
        stack.push_atom(atom);
        Ok(false)
    } else if op.is_dup().is_some() {
        let depth = match op.is_dup() {
            Some(d) => d,
            None => 1,
        };
        proof {
            lemma_materialize_admissible(ins, stack.model(), depth as nat);
        }
        match stack.duplicate(depth) {
            Ok(()) => Ok(false),
            Err(_) => Err(underflow(function, block, instruction_id)),
        }
    } else if op.is_swap().is_some() {
        let depth = match op.is_swap() {
            Some(d) => d,
            None => 1,
        };
        proof {
            lemma_materialize_admissible(ins, stack.model(), depth as nat + 1);
        }
        match stack.swap(depth) {
            Ok(()) => Ok(false),
            Err(_) => Err(underflow(function, block, instruction_id)),
        }
    } else if op == Opcode::Pop {
        proof {
            lemma_materialize_admissible(ins, stack.model(), 1);
        }
        match stack.pop() {
            Ok(_) => Ok(false),
            Err(_) => Err(underflow(function, block, instruction_id)),
        }
    } else if op == Opcode::JumpDest {
        Ok(false)
    } else if op == Opcode::Jump {
        proof {
            lemma_materialize_admissible(ins, stack.model(), 1);
        }
        let destination = match stack.pop() {
            Ok(v) => v,
            Err(_) => {
                return Err(underflow(function, block, instruction_id));
            },
        };
        match execute_jump(
            function,
            block,
            instruction_id,
            decoded,
            inference,
            cfg,
            ownership,
            verified,
            destination,
            stack,
            return_arity,
            control_pushes,
            return_pushes,
            Ghost(run),
            Ghost(c0),
            Ghost(r0),
            Ghost(u0),
            Ghost(semantic_constant_uses@),
        ) {
            Ok(()) => Ok(false),
            Err(e) => Err(e),
        }
    } else if op == Opcode::JumpI {
        proof {
            lemma_materialize_admissible(ins, stack.model(), 1);
        }
        let destination = match stack.pop() {
            Ok(v) => v,
            Err(_) => {
                return Err(underflow(function, block, instruction_id));
            },
        };
        proof {
            lemma_materialize_admissible(ins, stack.model(), 1);
        }
        let condition = match stack.pop() {
            Ok(v) => v,
            Err(_) => {
                return Err(underflow(function, block, instruction_id));
            },
        };
        record_semantic_constants(function, &condition, semantic_constant_uses);
        proof {
            assert(semantic_constant_uses@ =~= u0 + tagged_set(function, run.uses + constant_pushes(condition@)));
        }
        match inference.static_jump(instruction_id) {
            Some(static_destination) => {
                match verify_direct_control_value(
                    &destination,
                    static_destination.push,
                    static_destination.pc,
                    function,
                    block,
                    instruction_id,
                ) {
                    Ok(()) => {},
                    Err(e) => {
                        return Err(e);
                    },
                }
                control_pushes.insert((function, static_destination.push));
                proof {
                    assert(control_pushes@ =~= c0 + tagged_set(function, run.control.insert(static_destination.push)));
                }
            },
            None => {},
        }
        Ok(false)
    } else {
        let io = op.stack_io();
        let ghost mut popped: Seq<Seq<SymbolicAtom>> = Seq::empty();
        let mut k: u16 = 0;
        proof {
            assert(semantic_constant_uses@ =~= u0 + tagged_set(function, run.uses + pushes_of(popped)));
        }
        while k < io.inputs
            invariant
                stack.wf(),
                model_admissible(ins, stack.model()),
                k <= io.inputs,
                pop_values(run.stack, k as nat) == Some((stack.model(), popped)),
                semantic_constant_uses@ == u0 + tagged_set(function, run.uses + pushes_of(popped)),
            decreases io.inputs - k,
        {
            proof {
                lemma_materialize_admissible(ins, stack.model(), 1);
            }
            let ghost before = stack.model();
            let value = match stack.pop() {
                Ok(v) => v,
                Err(_) => {
                    proof {
                        assert(pop_model(before) is None);
                        lemma_pop_values_stuck(run.stack, k as nat, io.inputs as nat);
                    }
                    return Err(underflow(function, block, instruction_id));
                },
            };
            let ghost prev = popped;
            proof {
                assert(pop_model(before) == Some((stack.model(), value@)));
                popped = popped.push(value@);
                assert(popped.drop_last() =~= prev);
            }
            record_semantic_constants(function, &value, semantic_constant_uses);
            proof {
                assert(pushes_of(popped) == pushes_of(prev) + constant_pushes(value@));
                assert(semantic_constant_uses@ =~= u0 + tagged_set(function, run.uses + pushes_of(popped)));
            }
            k = k + 1;
        }
        if op.is_terminating() {
            Ok(true)
        } else {
            proof {
                lemma_outputs_small(op);
            }
            let ghost popped_stack = stack.model();
            let mut output: u16 = io.outputs;
            while output > 0
                invariant
                    stack.wf(),
                    model_admissible(ins, stack.model()),
                    output <= io.outputs,
                    io.outputs <= 1,
                    instruction_id < ins.len(),
                    stack.model() == (StackModel {
                        values: instruction_results(instruction_id, io.outputs as nat).skip(output as int) + popped_stack.values,
                        ..popped_stack
                    }),
                decreases output,
            {
                output = output - 1;
                let atom = SymbolicAtom::InstructionResult { instruction: instruction_id, output: output as u8 };
                stack.push_atom(atom);
                proof {
                    let all = instruction_results(instruction_id, io.outputs as nat);
                    assert(all.skip(output as int) =~= seq![single(atom)] + all.skip(output + 1));
                    assert(stack.model().values =~= all.skip(output as int) + popped_stack.values);
                }
            }
            proof {
                assert(instruction_results(instruction_id, io.outputs as nat).skip(0) =~= instruction_results(
                    instruction_id,
                    io.outputs as nat,
                ));
            }
            Ok(false)
        }
    }
}

/// Popping fails from the step where it first fails on.
proof fn lemma_pop_values_stuck(st: StackModel, k: nat, n: nat)
    requires
        k < n,
        pop_values(st, k) matches Some((s, _)) && pop_model(s) is None,
    ensures
        pop_values(st, n) is None,
    decreases n - k,
{
    if k + 1 < n {
        lemma_pop_values_none(st, k + 1, n);
    }
}

/// Popping that failed stays failed.
proof fn lemma_pop_values_none(st: StackModel, k: nat, n: nat)
    requires
        k <= n,
        pop_values(st, k) is None,
    ensures
        pop_values(st, n) is None,
    decreases n - k,
{
    if k < n {
        lemma_pop_values_none(st, k + 1, n);
    }
}

/// Runs a `JUMP` whose destination was popped.
fn execute_jump(
    function: u32,
    block: u32,
    instruction_id: u32,
    decoded: &DecodedBytecode,
    inference: &InternalCallInference,
    cfg: &ProvisionalCfg,
    ownership: &Ownership,
    verified: &Vec<Option<FunctionVerification>>,
    destination: SymbolicValue,
    stack: &mut SymbolicStack,
    return_arity: &mut Option<ReturningArity>,
    control_pushes: &mut BTreeSet<(u32, u32)>,
    return_pushes: &mut BTreeMap<(u32, u32), u32>,
    Ghost(run): Ghost<BlockRun>,
    Ghost(c0): Ghost<Set<(u32, u32)>>,
    Ghost(r0): Ghost<Map<(u32, u32), u32>>,
    Ghost(u0): Ghost<Set<(u32, u32)>>,
    Ghost(uses): Ghost<Set<(u32, u32)>>,
) -> (r: Result<(), VerificationError>)
    requires
        decoded.wf(),
        pipeline_ok(decoded.instruction_list(), *inference, *cfg, *ownership),
        block < inference.blocks_spec().block_list().len(),
        inference.blocks_spec().block_list()[block as int].instructions.start <= instruction_id,
        instruction_id < inference.blocks_spec().block_list()[block as int].instructions.end,
        ownership.owner_sets()[block as int].contains(function),
        callee_arities_ok(verified@),
        forall|g: u32| #[trigger] calls_into(*inference, *cfg, *ownership, function, g) ==> g < verified@.len()
            && verified@[g as int] is Some,
        old(stack).wf(),
        model_admissible(decoded.instruction_list(), old(stack).model()),
        pop_model(run.stack) == Some((old(stack).model(), destination@)),
        *old(return_arity) == run.ret,
        *old(return_arity) matches Some(a) ==> a.return_input < a.physical.inputs
            && cfg.control_list()[block as int] == BlockControl::InternalReturn,
        !run.stopped,
        forall|k: u32| #[trigger] run.returns.contains_key(k) ==> k < instruction_id,
        records_follow(function, old(control_pushes)@, old(return_pushes)@, uses, c0, r0, u0, run),
    ensures
        final(stack).wf(),
        model_admissible(decoded.instruction_list(), final(stack).model()),
        *final(return_arity) matches Some(a) ==> a.return_input < a.physical.inputs
            && cfg.control_list()[block as int] == BlockControl::InternalReturn,
        ({
            let c = run_context(decoded.instruction_list(), *inference, *cfg, function, block, arities_of(verified@), r0);
            match jump_step(c, run, instruction_id, old(stack).model(), destination@) {
                Ok(next) => {
                    &&& r is Ok
                    &&& final(stack).model() == next.stack
                    &&& *final(return_arity) == next.ret
                    &&& !next.stopped
                    &&& records_follow(function, final(control_pushes)@, final(return_pushes)@, uses, c0, r0, u0, next)
                },
                Err(e) => r == Err::<(), VerificationError>(e),
            }
        }),
{
    let ghost ins = decoded.instruction_list();
    let ghost c = run_context(ins, *inference, *cfg, function, block, arities_of(verified@), r0);
    let ghost st = stack.model();
    let code_block = inference.code_blocks().block(block);
    proof {
        assert(code_block.instructions.end <= ins.len());
    }
    match inference.call(instruction_id) {
        Some(call) => {
            match verify_direct_control_value(
                &destination,
                call.destination_push,
                call.destination_pc,
                function,
                block,
                instruction_id,
            ) {
                Ok(()) => {},
                Err(e) => {
                    return Err(e);
                },
            }
            control_pushes.insert((function, call.destination_push));
            proof {
                assert(control_pushes@ =~= c0 + tagged_set(function, run.control.insert(call.destination_push)));
                let b = block as int;
                let list = cfg.call_lists()[b];
                lemma_calls_between(
                    inference.call_list(),
                    code_block.instructions.start as int,
                    code_block.instructions.end as int,
                    instruction_id as int,
                );
                let k = choose|k: int| 0 <= k < list.len() && list[k] == instruction_id;
                assert(calls_into(*inference, *cfg, *ownership, function, call.function));
                assert(verified@[call.function as int] is Some);
                assert(arities_of(verified@)[call.function as int] == Some(verified@[call.function as int]->0.arity));
            }
            let callee = match &verified[call.function as usize] {
                Some(v) => v.arity,
                None => {
                    proof {
                        assert(false);
                    }
                    FunctionArity::Root
                },
            };
            let callee_arity = match callee {
                FunctionArity::Returning(a) => a,
                FunctionArity::Root => {
                    return Err(
                        VerificationError::ReturningCallToNonReturningFunction {
                            call: instruction_id,
                            callee: call.function,
                        },
                    );
                },
            };
            proof {
                lemma_materialize_admissible(ins, stack.model(), callee_arity.physical.inputs as nat);
                assert(!tagged_map(function, run.returns).contains_key((function, instruction_id)));
                assert(return_pushes@.contains_key((function, instruction_id)) == r0.contains_key((function, instruction_id)));
                if r0.contains_key((function, instruction_id)) {
                    assert(return_pushes@[(function, instruction_id)] == r0[(function, instruction_id)]);
                }
            }
            let ghost before_map = return_pushes@;
            match verify_and_apply_call(
                function,
                block,
                instruction_id,
                call.continuation_pc,
                callee_arity,
                stack,
                return_pushes,
            ) {
                Ok(()) => {},
                Err(e) => {
                    return Err(e);
                },
            }
            proof {
                let mst = materialize_model(st, callee_arity.physical.inputs as nat).0;
                let atom = call_return_atom(mst, callee_arity)->0;
                let push = atom->Constant_instruction;
                assert(return_pushes@ =~= r0.union_prefer_right(tagged_map(function, run.returns.insert(instruction_id, push))));
                let m = stack.model();
                assert forall|i: int, j: int| 0 <= i < m.values.len() && 0 <= j < m.values[i].len() implies admissible_atom(
                    ins,
                    #[trigger] m.values[i][j],
                ) by {
                    let nout = callee_arity.physical.outputs as int;
                    if i >= nout {
                        assert(m.values[i] == mst.values[i - nout + callee_arity.physical.inputs]);
                    } else {
                        assert(m.values[i] == call_results(instruction_id, nout as nat)[i]);
                    }
                }
            }
            Ok(())
        },
        None => {
            if cfg.control(block) == BlockControl::InternalReturn {
                proof {
                    lemma_normalize_room(ins, st);
                }
                match verify_return(function, block, instruction_id, destination, stack) {
                    Ok(arity) => {
                        *return_arity = Some(arity);
                        Ok(())
                    },
                    Err(e) => Err(e),
                }
            } else {
                match inference.static_jump(instruction_id) {
                    Some(static_destination) => {
                        match verify_direct_control_value(
                            &destination,
                            static_destination.push,
                            static_destination.pc,
                            function,
                            block,
                            instruction_id,
                        ) {
                            Ok(()) => {},
                            Err(e) => {
                                return Err(e);
                            },
                        }
                        control_pushes.insert((function, static_destination.push));
                        proof {
                            assert(control_pushes@ =~= c0 + tagged_set(function, run.control.insert(static_destination.push)));
                        }
                        Ok(())
                    },
                    None => Ok(()),
                }
            }
        },
    }
}

#[verifier::rlimit(60)]
/// Runs the instructions of `block` on `stack` for `function`, as
/// `run_block` says: checks every jump's destination, applies calls,
/// verifies a return when the block ends in one, and records which pushes
/// feed control and which feed values.
fn execute_block(
    function: u32,
    block: u32,
    decoded: &DecodedBytecode,
    inference: &InternalCallInference,
    cfg: &ProvisionalCfg,
    ownership: &Ownership,
    verified: &Vec<Option<FunctionVerification>>,
    entry: SymbolicStack,
    control_pushes: &mut BTreeSet<(u32, u32)>,
    return_pushes: &mut BTreeMap<(u32, u32), u32>,
    semantic_constant_uses: &mut BTreeSet<(u32, u32)>,
) -> (r: Result<(SymbolicStack, Option<ReturningArity>), VerificationError>)
    requires
        decoded.wf(),
        pipeline_ok(decoded.instruction_list(), *inference, *cfg, *ownership),
        block < inference.blocks_spec().block_list().len(),
        ownership.owner_sets()[block as int].contains(function),
        callee_arities_ok(verified@),
        forall|g: u32| #[trigger] calls_into(*inference, *cfg, *ownership, function, g) ==> g < verified@.len()
            && verified@[g as int] is Some,
        entry.wf(),
        model_admissible(decoded.instruction_list(), entry.model()),
    ensures
        r matches Ok(res) ==> res.0.wf() && model_admissible(decoded.instruction_list(), res.0.model()),
        r matches Ok(res) ==> (res.1 matches Some(a) ==> a.return_input < a.physical.inputs
            && cfg.control_list()[block as int] == BlockControl::InternalReturn),
        ({
            let c = run_context(
                decoded.instruction_list(),
                *inference,
                *cfg,
                function,
                block,
                arities_of(verified@),
                old(return_pushes)@,
            );
            let span = inference.blocks_spec().block_list()[block as int].instructions;
            match run_block(c, span, entry.model()) {
                Ok(done) => r matches Ok(res) && res.0.model() == done.stack && res.1 == done.ret
                    && records_follow(
                    function,
                    final(control_pushes)@,
                    final(return_pushes)@,
                    final(semantic_constant_uses)@,
                    old(control_pushes)@,
                    old(return_pushes)@,
                    old(semantic_constant_uses)@,
                    done,
                ),
                Err(e) => r == Err::<(SymbolicStack, Option<ReturningArity>), VerificationError>(e),
            }
        }),
{
    let ghost ins = decoded.instruction_list();
    let ghost c = run_context(ins, *inference, *cfg, function, block, arities_of(verified@), return_pushes@);
    let ghost c0 = control_pushes@;
    let ghost r0 = return_pushes@;
    let ghost u0 = semantic_constant_uses@;
    let code_block = inference.code_blocks().block(block);
    let start = code_block.instructions.start;
    let end = code_block.instructions.end;
    proof {
        assert(code_block.instructions.end <= ins.len());
    }
    let ghost st0 = entry.model();
    let mut stack = entry;
    let mut return_arity: Option<ReturningArity> = None;
    let mut stopped = false;
    let mut instruction_id = start;
    let ghost mut run = run_start(st0);
    proof {
        assert(control_pushes@ =~= c0 + tagged_set(function, run.control));
        assert(return_pushes@ =~= r0.union_prefer_right(tagged_map(function, run.returns)));
        assert(semantic_constant_uses@ =~= u0 + tagged_set(function, run.uses));
    }
    while instruction_id < end && !stopped
        invariant
            decoded.wf(),
            ins == decoded.instruction_list(),
            pipeline_ok(ins, *inference, *cfg, *ownership),
            block < inference.blocks_spec().block_list().len(),
            *code_block == inference.blocks_spec().block_list()[block as int],
            start == code_block.instructions.start,
            end == code_block.instructions.end,
            end <= ins.len(),
            start <= instruction_id <= end,
            ownership.owner_sets()[block as int].contains(function),
            callee_arities_ok(verified@),
            forall|g: u32| #[trigger] calls_into(*inference, *cfg, *ownership, function, g) ==> g
                < verified@.len() && verified@[g as int] is Some,
            c == run_context(ins, *inference, *cfg, function, block, arities_of(verified@), r0),
            stack.wf(),
            model_admissible(ins, stack.model()),
            return_arity matches Some(a) ==> a.return_input < a.physical.inputs
                && cfg.control_list()[block as int] == BlockControl::InternalReturn,
            run.stack == stack.model(),
            run.ret == return_arity,
            run.stopped == stopped,
            forall|k: u32| #[trigger] run.returns.contains_key(k) ==> k < instruction_id,
            records_follow(function, control_pushes@, return_pushes@, semantic_constant_uses@, c0, r0, u0, run),
            run_from(c, run, instruction_id, end) == run_from(c, run_start(st0), start, end),
            c0 == old(control_pushes)@,
            r0 == old(return_pushes)@,
            st0 == entry.model(),
            u0 == old(semantic_constant_uses)@,
        decreases end - instruction_id,
    {
        let step = execute_instruction(
            function,
            block,
            instruction_id,
            decoded,
            inference,
            cfg,
            ownership,
            verified,
            &mut stack,
            &mut return_arity,
            control_pushes,
            return_pushes,
            semantic_constant_uses,
            Ghost(run),
            Ghost(c0),
            Ghost(r0),
            Ghost(u0),
        );
        match step {
            Ok(done) => {
                proof {
                    let next = run_step(c, run, instruction_id)->Ok_0;
                    run = next;
                }
                stopped = done;
            },
            Err(e) => {
                proof {
                    assert(run_from(c, run, instruction_id, end) == Err::<BlockRun, VerificationError>(e));
                }
                return Err(e);
            },
        }
        instruction_id = instruction_id + 1;
    }
    proof {
        assert(run_from(c, run, instruction_id, end) == Ok::<BlockRun, VerificationError>(run));
    }
    Ok((stack, return_arity))
}

/// The context of a run with no return pushes recorded before.
pub open spec fn unrecorded(c: RunContext) -> RunContext {
    RunContext { recorded: Map::empty(), ..c }
}

proof fn lemma_step_unrecorded(c: RunContext, r: BlockRun, id: u32)
    ensures
        run_step(c, r, id) is Ok ==> run_step(unrecorded(c), r, id) == run_step(c, r, id),
{
}

/// A run that succeeds after some return pushes were recorded runs the same
/// way with none recorded.
proof fn lemma_run_unrecorded(c: RunContext, r: BlockRun, id: u32, end: u32)
    ensures
        run_from(c, r, id, end) is Ok ==> run_from(unrecorded(c), r, id, end) == run_from(c, r, id, end),
    decreases end - id,
{
    if !(id >= end || r.stopped) {
        lemma_step_unrecorded(c, r, id);
        if let Ok(r2) = run_step(c, r, id) {
            lemma_run_unrecorded(c, r2, (id + 1) as u32, end);
        }
    }
}

proof fn lemma_materialize_nonempty(st: StackModel, depth: nat)
    requires
        values_nonempty(st),
    ensures
        values_nonempty(materialize_model(st, depth).0),
{
    let m = materialize_model(st, depth).0;
    assert forall|i: int| 0 <= i < m.values.len() implies #[trigger] m.values[i].len() > 0 by {
        if i >= st.values.len() {
            assert(m.values[i].len() == 1);
        } else {
            assert(m.values[i] == st.values[i]);
        }
    }
}

proof fn lemma_pop_values_nonempty(st: StackModel, n: nat)
    requires
        values_nonempty(st),
    ensures
        pop_values(st, n) matches Some((s, _)) ==> values_nonempty(s),
    decreases n,
{
    if n > 0 {
        lemma_pop_values_nonempty(st, (n - 1) as nat);
        if let Some((s1, _)) = pop_values(st, (n - 1) as nat) {
            lemma_materialize_nonempty(s1, 1);
            let m = materialize_model(s1, 1).0;
            if let Some((s2, _)) = pop_model(s1) {
                assert forall|i: int| 0 <= i < s2.values.len() implies #[trigger] s2.values[i].len() > 0 by {
                    assert(s2.values[i] == m.values[i + 1]);
                }
            }
        }
    }
}

/// A successful step keeps every value nonempty.
#[verifier::spinoff_prover]
proof fn lemma_step_nonempty(c: RunContext, r: BlockRun, id: u32)
    requires
        values_nonempty(r.stack),
    ensures
        run_step(c, r, id) matches Ok(r2) ==> values_nonempty(r2.stack),
{
    let st = r.stack;
    lemma_materialize_nonempty(st, 1);
    let m1 = materialize_model(st, 1).0;
    if let Some((s1, _)) = pop_model(st) {
        assert forall|i: int| 0 <= i < s1.values.len() implies #[trigger] s1.values[i].len() > 0 by {
            assert(s1.values[i] == m1.values[i + 1]);
        }
        lemma_materialize_nonempty(s1, 1);
        let m2 = materialize_model(s1, 1).0;
        if let Some((s2, _)) = pop_model(s1) {
            assert forall|i: int| 0 <= i < s2.values.len() implies #[trigger] s2.values[i].len() > 0 by {
                assert(s2.values[i] == m2.values[i + 1]);
            }
        }
        lemma_normalize_nonempty(s1);
        if let Some(call) = c.calls[id as int] {
            if let Some(FunctionArity::Returning(a)) = c.arities[call.function as int] {
                lemma_materialize_nonempty(s1, a.physical.inputs as nat);
                let m = materialize_model(s1, a.physical.inputs as nat).0;
                if let Ok((s3, _)) = call_outcome(c, s1, id, call.continuation_pc, a) {
                    let k = a.physical.outputs as int;
                    assert forall|i: int| 0 <= i < s3.values.len() implies #[trigger] s3.values[i].len() > 0 by {
                        if i < k {
                            assert(s3.values[i] == call_results(id, a.physical.outputs as nat)[i]);
                        } else {
                            assert(s3.values[i] == m.values[i - k + a.physical.inputs]);
                        }
                    }
                }
            }
        }
    }
    let i = c.ins[id as int];
    if let Ok(op) = i.op {
        if let Some(d) = op.spec_dup_depth() {
            lemma_materialize_nonempty(st, d as nat);
        }
        if let Some(d) = op.spec_swap_depth() {
            lemma_materialize_nonempty(st, d as nat + 1);
        }
        let io = op.spec_stack_io();
        lemma_pop_values_nonempty(st, io.inputs as nat);
        if let Some((s, _)) = pop_values(st, io.inputs as nat) {
            let k = io.outputs as int;
            let v = instruction_results(id, io.outputs as nat) + s.values;
            assert forall|j: int| 0 <= j < v.len() implies #[trigger] v[j].len() > 0 by {
                if j >= k {
                    assert(v[j] == s.values[j - k]);
                }
            }
        }
    }
}

/// A successful run keeps every value nonempty.
proof fn lemma_run_nonempty(c: RunContext, r: BlockRun, id: u32, end: u32)
    requires
        values_nonempty(r.stack),
    ensures
        run_from(c, r, id, end) matches Ok(r2) ==> values_nonempty(r2.stack),
    decreases end - id,
{
    if !(id >= end || r.stopped) {
        lemma_step_nonempty(c, r, id);
        if let Ok(r2) = run_step(c, r, id) {
            lemma_run_nonempty(c, r2, (id + 1) as u32, end);
        }
    }
}

/// A run reads the arities only of the functions called in it.
proof fn lemma_run_arities(c1: RunContext, a2: Seq<Option<FunctionArity>>, r: BlockRun, id: u32, end: u32)
    requires
        forall|j: int| id <= j < end && (#[trigger] c1.calls[j]) is Some ==> c1.arities[c1.calls[j]->0.function as int]
            == a2[c1.calls[j]->0.function as int],
    ensures
        run_from(c1, r, id, end) == run_from(RunContext { arities: a2, ..c1 }, r, id, end),
    decreases end - id,
{
    let c2 = RunContext { arities: a2, ..c1 };
    if !(id >= end || r.stopped) {
        assert(run_step(c1, r, id) == run_step(c2, r, id)) by {
            if c1.calls[id as int] is Some {
                assert(c1.arities[c1.calls[id as int]->0.function as int] == a2[c1.calls[id as int]->0.function as int]);
            }
        }
        if let Ok(r2) = run_step(c1, r, id) {
            lemma_run_arities(c1, a2, r2, (id + 1) as u32, end);
        }
    }
}

/// Whether a block of `function` is settled, and the arity its return
/// implies, depend on the arities only of the functions it calls.
proof fn lemma_settled_arities(
    ins: Seq<Instruction>,
    inference: InternalCallInference,
    cfg: ProvisionalCfg,
    ownership: Ownership,
    function: u32,
    a1: Seq<Option<FunctionArity>>,
    a2: Seq<Option<FunctionArity>>,
    states: Seq<Option<SymbolicStack>>,
    b: int,
)
    requires
        pipeline_ok(ins, inference, cfg, ownership),
        0 <= b < inference.blocks_spec().block_list().len(),
        states[b] is Some ==> ownership.owner_sets()[b].contains(function),
        forall|g: u32| #[trigger] calls_into(inference, cfg, ownership, function, g) ==> a1[g as int] == a2[g as int],
    ensures
        block_settled(ins, inference, cfg, function, a1, states, b) == block_settled(ins, inference, cfg, function, a2, states, b),
        block_return(ins, inference, cfg, function, a1, states, b) == block_return(ins, inference, cfg, function, a2, states, b),
{
    if states[b] is Some {
        let c1 = run_context(ins, inference, cfg, function, b as u32, a1, Map::empty());
        let span = inference.blocks_spec().block_list()[b].instructions;
        crate::icall::lemma_block_count(ins, inference.call_list(), inference.blocks_spec().block_list());
        assert(span.end <= ins.len());
        assert forall|j: int| span.start <= j < span.end && (#[trigger] c1.calls[j]) is Some implies c1.arities[c1.calls[j]->0.function as int]
            == a2[c1.calls[j]->0.function as int] by {
            let list = cfg.call_lists()[b];
            lemma_calls_between(inference.call_list(), span.start as int, span.end as int, j);
            let k = choose|k: int| 0 <= k < list.len() && list[k] == j as u32;
            assert(calls_into(inference, cfg, ownership, function, c1.calls[j]->0.function));
        }
        lemma_run_arities(c1, a2, run_start(states[b]->0.model()), span.start, span.end);
        assert(RunContext { arities: a2, ..c1 } == run_context(ins, inference, cfg, function, b as u32, a2, Map::empty()));
    }
}

/// A function's settledness carries over to arities that agree on the
/// functions it calls.
proof fn lemma_settled_transport(
    ins: Seq<Instruction>,
    inference: InternalCallInference,
    cfg: ProvisionalCfg,
    ownership: Ownership,
    function: u32,
    a1: Seq<Option<FunctionArity>>,
    a2: Seq<Option<FunctionArity>>,
    fv: FunctionVerification,
)
    requires
        pipeline_ok(ins, inference, cfg, ownership),
        function < ownership.function_list().len(),
        fv.states().len() == inference.blocks_spec().block_list().len(),
        states_closed(cfg, ownership, function, fv.states()),
        function_settled(ins, inference, cfg, ownership, function, a1, fv),
        forall|g: u32| #[trigger] calls_into(inference, cfg, ownership, function, g) ==> a1[g as int] == a2[g as int],
    ensures
        function_settled(ins, inference, cfg, ownership, function, a2, fv),
{
    let states = fv.states();
    assert forall|b: int| 0 <= b < states.len() implies (#[trigger] block_settled(ins, inference, cfg, function, a1, states, b)
        == block_settled(ins, inference, cfg, function, a2, states, b)
        && block_return(ins, inference, cfg, function, a1, states, b) == block_return(ins, inference, cfg, function, a2, states, b)) by {
        lemma_settled_arities(ins, inference, cfg, ownership, function, a1, a2, states, b);
    }
    assert forall|b: int| 0 <= b < states.len() implies #[trigger] block_settled(ins, inference, cfg, function, a2, states, b) by {
        assert(block_settled(ins, inference, cfg, function, a1, states, b));
    }
    if let FunctionArity::Returning(a) = fv.spec_arity() {
        let b = choose|b: int| 0 <= b < states.len() && #[trigger] block_return(ins, inference, cfg, function, a1, states, b) == Some(a);
        lemma_settled_arities(ins, inference, cfg, ownership, function, a1, a2, states, b);
        assert(block_return(ins, inference, cfg, function, a2, states, b) == Some(a));
        assert forall|b: int| 0 <= b < states.len() && (#[trigger] block_return(ins, inference, cfg, function, a2, states, b)) is Some
            implies block_return(ins, inference, cfg, function, a2, states, b) == Some(a) by {
            lemma_settled_arities(ins, inference, cfg, ownership, function, a1, a2, states, b);
        }
    }
}

/// The errors running a block can give, each naming the function and block
/// where it applies.
pub open spec fn block_error(function: u32, block: u32, e: VerificationError) -> bool {
    match e {
        VerificationError::StackUnderflow { function: f, block: b, .. } => f == function && b == block,
        VerificationError::InvalidDirectControlValue { function: f, block: b, .. } => f == function && b == block,
        VerificationError::InvalidReturnDestination { function: f, block: b, .. } => f == function && b == block,
        VerificationError::ReturnInputOutOfBounds { function: f, .. } => f == function,
        VerificationError::InvalidReturnValue { function: f, block: b } => f == function && b == block,
        VerificationError::StackTooDeep { function: f, block: b } => f == function && b == block,
        VerificationError::ReturningCallToNonReturningFunction { .. } => true,
        VerificationError::MissingCallContinuation { .. } => true,
        VerificationError::AmbiguousReturnDestination { .. } => true,
        VerificationError::WrongReturnDestination { .. } => true,
        VerificationError::DuplicatedReturnDestination { .. } => true,
        _ => false,
    }
}

proof fn lemma_step_error(c: RunContext, r: BlockRun, id: u32)
    ensures
        run_step(c, r, id) matches Err(e) ==> block_error(c.function, c.block, e),
{
}

/// Every error of a run is a block error.
proof fn lemma_run_error(c: RunContext, r: BlockRun, id: u32, end: u32)
    ensures
        run_from(c, r, id, end) matches Err(e) ==> block_error(c.function, c.block, e),
    decreases end - id,
{
    if !(id >= end || r.stopped) {
        lemma_step_error(c, r, id);
        if let Ok(r2) = run_step(c, r, id) {
            lemma_run_error(c, r2, (id + 1) as u32, end);
        }
    }
}

/// A control that leaves the jump unresolved.
pub open spec fn unresolved(c: BlockControl) -> bool {
    c is UnresolvedJump || c is UnresolvedJumpI || c is UnresolvedCall
}

/// `states` covers what the function reaches: every block with a stack
/// belongs to the function, has a resolved control, returns only in a
/// returning function, and hands a stack to each of its successors.
pub open spec fn states_closed(
    cfg: ProvisionalCfg,
    ownership: Ownership,
    function: u32,
    states: Seq<Option<SymbolicStack>>,
) -> bool {
    forall|b: int|
        0 <= b < states.len() && #[trigger] states[b] is Some ==> {
            &&& ownership.owner_sets()[b].contains(function)
            &&& !unresolved(cfg.control_list()[b])
            &&& cfg.control_list()[b] == BlockControl::InternalReturn ==> ownership.function_list()[function as int].kind
                == crate::ownership::FunctionKind::Returning
            &&& forall|k: int|
                0 <= k < cfg.control_list()[b].spec_successors().len() ==> states[cfg.control_list()[b].spec_successors()[k] as int] is Some
        }
}

/// The arity the return blocks agree on.
fn agreed_arity(function: u32, return_arities: &Vec<Option<ReturningArity>>) -> (r: Result<ReturningArity, VerificationError>)
    requires
        forall|b: int| 0 <= b < return_arities@.len() ==> (#[trigger] return_arities@[b] matches Some(a) ==> a.return_input < a.physical.inputs),
    ensures
        (forall|b: int| 0 <= b < return_arities@.len() ==> #[trigger] return_arities@[b] is None) ==> r
            == Err::<ReturningArity, VerificationError>(VerificationError::NoInternalReturn { function }),
        r matches Ok(a) ==> a.return_input < a.physical.inputs && exists|b: int| 0 <= b < return_arities@.len() && #[trigger] return_arities@[b] == Some(a),
        r matches Ok(a) ==> forall|b: int| 0 <= b < return_arities@.len() && #[trigger] return_arities@[b] is Some ==> return_arities@[b] == Some(a),
        r matches Err(e) ==> (e == VerificationError::NoInternalReturn { function } && forall|b: int|
            0 <= b < return_arities@.len() ==> #[trigger] return_arities@[b] is None) || (e matches VerificationError::InconsistentReturnArity { function: f, expected, actual }
            && f == function && expected != actual && (exists|b: int| 0 <= b < return_arities@.len() && #[trigger] return_arities@[b] == Some(expected))
            && (exists|b: int| 0 <= b < return_arities@.len() && #[trigger] return_arities@[b] == Some(actual))),
{
    let mut found: Option<ReturningArity> = None;
    let mut b: usize = 0;
    while b < return_arities.len()
        invariant
            b <= return_arities@.len(),
            forall|c: int| 0 <= c < return_arities@.len() ==> (#[trigger] return_arities@[c] matches Some(a) ==> a.return_input < a.physical.inputs),
            found is None <==> forall|c: int| 0 <= c < b ==> #[trigger] return_arities@[c] is None,
            found matches Some(a) ==> exists|c: int| 0 <= c < b && #[trigger] return_arities@[c] == Some(a),
            found matches Some(a) ==> forall|c: int| 0 <= c < b && #[trigger] return_arities@[c] is Some ==> return_arities@[c] == Some(a),
        decreases return_arities@.len() - b,
    {
        match return_arities[b] {
            Some(actual) => {
                match found {
                    None => {
                        found = Some(actual);
                    },
                    Some(expected) => {
                        if actual != expected {
                            return Err(
                                VerificationError::InconsistentReturnArity { function, expected, actual },
                            );
                        }
                    },
                }
            },
            None => {},
        }
        b = b + 1;
    }
    match found {
        Some(a) => Ok(a),
        None => Err(VerificationError::NoInternalReturn { function }),
    }
}

/// Block `b` of `states` is closed: the function owns it, its control is
/// resolved, returns only where the function returns, and its successors
/// have stacks.
pub open spec fn block_closed(
    cfg: ProvisionalCfg,
    ownership: Ownership,
    function: u32,
    states: Seq<Option<SymbolicStack>>,
    b: int,
) -> bool {
    &&& ownership.owner_sets()[b].contains(function)
    &&& !unresolved(cfg.control_list()[b])
    &&& cfg.control_list()[b] == BlockControl::InternalReturn ==> ownership.function_list()[function as int].kind
        == crate::ownership::FunctionKind::Returning
    &&& forall|k: int|
        0 <= k < cfg.control_list()[b].spec_successors().len() ==> states[cfg.control_list()[b].spec_successors()[k] as int] is Some
}

/// Some block of `function` fails with `e` when it runs from a stack the
/// analysis reaches, with the callees' arities `arities` and some return
/// pushes recorded before.
pub open spec fn block_fails(
    ins: Seq<Instruction>,
    inference: InternalCallInference,
    cfg: ProvisionalCfg,
    ownership: Ownership,
    function: u32,
    arities: Seq<Option<FunctionArity>>,
    e: VerificationError,
) -> bool {
    exists|b: u32, st: StackModel, recorded: Map<(u32, u32), u32>|
        #![trigger stack_reached(ins, inference, cfg, ownership, function, arities, b, st), run_context(ins, inference, cfg, function, b, arities, recorded)]
        b < inference.blocks_spec().block_list().len() && ownership.owner_sets()[b as int].contains(function)
            && stack_reached(ins, inference, cfg, ownership, function, arities, b, st) && run_block(
            run_context(ins, inference, cfg, function, b, arities, recorded),
            inference.blocks_spec().block_list()[b as int].instructions,
            st,
        ) == Err::<BlockRun, VerificationError>(e)
}

/// An error from handing the stack that leaves `block` to its successors
/// is one of the facts an error of `function` states.
proof fn lemma_mismatch_facts(
    ins: Seq<Instruction>,
    inference: InternalCallInference,
    cfg: ProvisionalCfg,
    ownership: Ownership,
    function: u32,
    arities: Seq<Option<FunctionArity>>,
    st: StackModel,
    fin: Seq<Option<SymbolicStack>>,
    block: u32,
    control: BlockControl,
    incoming: StackModel,
    e: VerificationError,
)
    requires
        block < inference.blocks_spec().block_list().len(),
        stack_reached(ins, inference, cfg, ownership, function, arities, block, st),
        block_run_from(ins, inference, cfg, function, arities, block, st) matches Ok(done) && done.stack == incoming,
        states_reached(ins, inference, cfg, ownership, function, arities, fin),
        ownership.owner_sets()[block as int].contains(function),
        control == cfg.control_list()[block as int],
        (e matches VerificationError::CrossFunctionCfgEdge { function: f, source_block: s, target: t }
            && f == function && s == block && control.spec_successors().contains(t) && !ownership.owner_sets()[t as int].contains(function))
            || (e matches VerificationError::IncomingStackMismatch { function: f, source_block: s, target: t, error: m }
            && f == function && s == block && control.spec_successors().contains(t) && t < fin.len()
            && fin[t as int] is Some && shape_mismatch(fin[t as int]->0.model(), incoming, m)),
    ensures
        function_error_facts(ins, inference, cfg, ownership, function, arities, e),
{
    if let VerificationError::IncomingStackMismatch { function: f, source_block: s, target: t, error: m } = e {
        let kept = fin[t as int]->0.model();
        assert(fin[t as int] is Some);
        lemma_kept_reached(ins, inference, cfg, ownership, function, arities, fin, t);
        assert(block_run_from(ins, inference, cfg, function, arities, block, st)->Ok_0.stack == incoming);
    }
}

/// `states` is a settled analysis of `function`: every kept stack is one
/// the analysis reaches, the entry's kept stack covers the stack the
/// function starts with, kept stacks are normalized, and every block with a
/// kept stack is closed, runs from it, and hands each successor a stack
/// that the successor's kept stack covers.
pub open spec fn analysis_settled(
    ins: Seq<Instruction>,
    inference: InternalCallInference,
    cfg: ProvisionalCfg,
    ownership: Ownership,
    function: u32,
    arities: Seq<Option<FunctionArity>>,
    states: Seq<Option<SymbolicStack>>,
) -> bool {
    let candidate = ownership.function_list()[function as int];
    &&& states.len() == inference.blocks_spec().block_list().len()
    &&& states[candidate.entry as int] matches Some(s) && included(
        initial_model(candidate.kind != crate::ownership::FunctionKind::Root),
        s.model(),
    )
    &&& states_normal(states)
    &&& states_reached(ins, inference, cfg, ownership, function, arities, states)
    &&& forall|b: int| 0 <= b < states.len() ==> #[trigger] block_settled(ins, inference, cfg, function, arities, states, b)
    &&& forall|b: int| 0 <= b < states.len() && #[trigger] states[b] is Some ==> block_closed(cfg, ownership, function, states, b)
}

/// What an error from verifying `function`, with its callees' arities
/// `arities`, says about the code.
pub open spec fn function_error_facts(
    ins: Seq<Instruction>,
    inference: InternalCallInference,
    cfg: ProvisionalCfg,
    ownership: Ownership,
    function: u32,
    arities: Seq<Option<FunctionArity>>,
    e: VerificationError,
) -> bool {
    match e {
        VerificationError::WrongFunctionOwner { function: f, block } => f == function && !ownership.owner_sets()[block as int].contains(function)
            && exists|st: StackModel| #[trigger] stack_reached(ins, inference, cfg, ownership, function, arities, block, st),
        VerificationError::UnresolvedControl { function: f, block } => f == function && ownership.owner_sets()[block as int].contains(function)
            && unresolved(cfg.control_list()[block as int]) && exists|st: StackModel|
            #[trigger] stack_reached(ins, inference, cfg, ownership, function, arities, block, st),
        VerificationError::UnexpectedReturn { function: f, block } => f == function && cfg.control_list()[block as int]
            == BlockControl::InternalReturn && ownership.function_list()[function as int].kind
            != crate::ownership::FunctionKind::Returning && exists|st: StackModel|
            #[trigger] stack_reached(ins, inference, cfg, ownership, function, arities, block, st),
        VerificationError::NoInternalReturn { function: f } => f == function && ownership.function_list()[function as int].kind
            == crate::ownership::FunctionKind::Returning && exists|states: Seq<Option<SymbolicStack>>|
            #[trigger] analysis_settled(ins, inference, cfg, ownership, function, arities, states) && forall|b: int|
                0 <= b < states.len() ==> #[trigger] block_return(ins, inference, cfg, function, arities, states, b) is None,
        VerificationError::InconsistentReturnArity { function: f, expected, actual } => f == function && expected != actual
            && exists|states: Seq<Option<SymbolicStack>>|
            #[trigger] analysis_settled(ins, inference, cfg, ownership, function, arities, states) && (exists|b: int|
                0 <= b < states.len() && #[trigger] block_return(ins, inference, cfg, function, arities, states, b) == Some(expected))
                && (exists|b: int|
                0 <= b < states.len() && #[trigger] block_return(ins, inference, cfg, function, arities, states, b) == Some(actual)),
        VerificationError::CrossFunctionCfgEdge { function: f, source_block, target } => f == function
            && ownership.owner_sets()[source_block as int].contains(function) && !ownership.owner_sets()[target as int].contains(function)
            && cfg.control_list()[source_block as int].spec_successors().contains(target) && exists|st: StackModel|
            #[trigger] stack_reached(ins, inference, cfg, ownership, function, arities, source_block, st)
                && block_run_from(ins, inference, cfg, function, arities, source_block, st) is Ok,
        VerificationError::IncomingStackMismatch { function: f, source_block, target, error } => f == function
            && ownership.owner_sets()[source_block as int].contains(function)
            && cfg.control_list()[source_block as int].spec_successors().contains(target)
            && exists|st: StackModel, kept: StackModel|
            #![trigger stack_reached(ins, inference, cfg, ownership, function, arities, source_block, st), stack_reached(ins, inference, cfg, ownership, function, arities, target, kept)]
            stack_reached(ins, inference, cfg, ownership, function, arities, source_block, st)
                && stack_reached(ins, inference, cfg, ownership, function, arities, target, kept)
                && block_run_from(ins, inference, cfg, function, arities, source_block, st) is Ok
                && shape_mismatch(kept, block_run_from(ins, inference, cfg, function, arities, source_block, st)->Ok_0.stack, error),
        _ => block_fails(ins, inference, cfg, ownership, function, arities, e),
    }
}

/// A stack kept for the entry that covers the function's starting stack is
/// reached.
proof fn lemma_entry_reached(
    ins: Seq<Instruction>,
    inference: InternalCallInference,
    cfg: ProvisionalCfg,
    ownership: Ownership,
    function: u32,
    arities: Seq<Option<FunctionArity>>,
    st: StackModel,
)
    requires
        included(
            initial_model(ownership.function_list()[function as int].kind != crate::ownership::FunctionKind::Root),
            st,
        ),
    ensures
        stack_reached(ins, inference, cfg, ownership, function, arities, ownership.function_list()[function as int].entry, st),
{
    let path = seq![(ownership.function_list()[function as int].entry, st)];
    assert(reached_path(ins, inference, cfg, ownership, function, arities, path));
}

/// Handing the stack that leaves a reached block to its successors keeps
/// every kept stack reached.
proof fn lemma_states_reached_step(
    ins: Seq<Instruction>,
    inference: InternalCallInference,
    cfg: ProvisionalCfg,
    ownership: Ownership,
    function: u32,
    arities: Seq<Option<FunctionArity>>,
    s0: Seq<Option<SymbolicStack>>,
    s1: Seq<Option<SymbolicStack>>,
    block: u32,
    out: StackModel,
)
    requires
        states_reached(ins, inference, cfg, ownership, function, arities, s0),
        s0.len() == s1.len(),
        block < s0.len(),
        block < inference.blocks_spec().block_list().len(),
        s0[block as int] is Some,
        ownership.owner_sets()[block as int].contains(function),
        block_run_from(ins, inference, cfg, function, arities, block, s0[block as int]->0.model()) matches Ok(done)
            && done.stack == out,
        forall|b: int|
            0 <= b < s0.len() && #[trigger] entry_models(s1)[b] != entry_models(s0)[b] ==> (cfg.control_list()[block as int].spec_successors().contains(
                b as u32,
            ) && s1[b] is Some && included(out, s1[b]->0.model())),
    ensures
        states_reached(ins, inference, cfg, ownership, function, arities, s1),
{
    reveal(states_reached);
    assert forall|c: int| 0 <= c < s1.len() && #[trigger] s1[c] is Some implies stack_reached(
        ins,
        inference,
        cfg,
        ownership,
        function,
        arities,
        c as u32,
        s1[c]->0.model(),
    ) by {
        if entry_models(s1)[c] == entry_models(s0)[c] {
            assert(s0[c] is Some);
            assert(s0[c]->0.model() == s1[c]->0.model());
        } else {
            assert(stack_reached(ins, inference, cfg, ownership, function, arities, block, s0[block as int]->0.model()));
            lemma_reached_extend(
                ins,
                inference,
                cfg,
                ownership,
                function,
                arities,
                block,
                s0[block as int]->0.model(),
                c as u32,
                s1[c]->0.model(),
            );
        }
    }
}

/// The analysis progressed from `(s0, w0)` to `(s1, w1)`: fewer blocks
/// without a stack, or as many and less room, or neither changed and the
/// worklist kept its length.
pub open spec fn progressed(
    n: nat,
    s0: Seq<Option<SymbolicStack>>,
    s1: Seq<Option<SymbolicStack>>,
    w0: nat,
    w1: nat,
) -> bool {
    let a0 = none_count(entry_models(s0));
    let a1 = none_count(entry_models(s1));
    let b0 = states_room(n, entry_models(s0));
    let b1 = states_room(n, entry_models(s1));
    ||| a1 < a0
    ||| (a1 == a0 && b1 < b0)
    ||| (a1 == a0 && b1 <= b0 && w1 == w0)
}

/// Hands the stack at the end of `block` to each successor its control names.
fn propagate_successors(
    function: u32,
    block: u32,
    control: BlockControl,
    stack: SymbolicStack,
    ownership: &Ownership,
    entry_states: &mut Vec<Option<SymbolicStack>>,
    worklist: &mut Vec<u32>,
    Ghost(ins): Ghost<Seq<Instruction>>,
) -> (r: Result<(), VerificationError>)
    requires
        stack.wf(),
        model_admissible(ins, stack.model()),
        values_nonempty(stack.model()),
        entries_ok(ins, old(entry_states)@),
        states_normal(old(entry_states)@),
        old(entry_states)@.len() == ownership.owner_sets().len(),
        forall|k: int| 0 <= k < control.spec_successors().len() ==> #[trigger] control.spec_successors()[k]
            < old(entry_states)@.len(),
    ensures
        forall|b: int|
            0 <= b < old(entry_states)@.len() && #[trigger] entry_models(final(entry_states)@)[b] != entry_models(old(entry_states)@)[b]
                ==> (control.spec_successors().contains(b as u32) && final(entry_states)@[b] is Some && included(
                stack.model(),
                final(entry_states)@[b]->0.model(),
            )),
        final(entry_states)@.len() == old(entry_states)@.len(),
        entries_ok(ins, final(entry_states)@),
        states_normal(final(entry_states)@),
        forall|b: int| 0 <= b < old(entry_states)@.len() && (#[trigger] old(entry_states)@[b]) is Some ==> (old(entry_states)@[b] matches Some(s)
            && final(entry_states)@[b] matches Some(t) && grows(s.model(), t.model())),
        forall|b: int| 0 <= b < old(entry_states)@.len() && #[trigger] entry_models(final(entry_states)@)[b] != entry_models(old(entry_states)@)[b]
            ==> final(worklist)@.contains(b as u32),
        r is Ok ==> forall|k: int| 0 <= k < control.spec_successors().len() ==> (#[trigger] final(entry_states)@[control.spec_successors()[k] as int]
            matches Some(t) && included(stack.model(), t.model())),
        forall|b: int| 0 <= b < old(entry_states)@.len() && old(entry_states)@[b] is Some ==> #[trigger] final(entry_states)@[b] is Some,
        forall|y: u32| old(worklist)@.contains(y) ==> #[trigger] final(worklist)@.contains(y),
        forall|t: int| 0 <= t < final(worklist)@.len() ==> (#[trigger] final(worklist)@[t] < old(entry_states)@.len()
            && final(entry_states)@[final(worklist)@[t] as int] is Some) || old(worklist)@.contains(final(worklist)@[t]),
        forall|b: int| 0 <= b < old(entry_states)@.len() && old(entry_states)@[b] is None && #[trigger] final(entry_states)@[b] is Some
            ==> final(worklist)@.contains(b as u32),
        progressed(ins.len(), old(entry_states)@, final(entry_states)@, old(worklist)@.len(), final(worklist)@.len()),
        r is Ok ==> forall|k: int| 0 <= k < control.spec_successors().len() ==> final(entry_states)@[control.spec_successors()[k] as int] is Some,
        r matches Err(e) ==> (e matches VerificationError::CrossFunctionCfgEdge { function: f, source_block: s, target: t }
            && f == function && s == block && control.spec_successors().contains(t) && !ownership.owner_sets()[t as int].contains(function))
            || (e matches VerificationError::IncomingStackMismatch { function: f, source_block: s, target: t, error: m }
            && f == function && s == block && control.spec_successors().contains(t) && t < final(entry_states)@.len()
            && final(entry_states)@[t as int] is Some && shape_mismatch(final(entry_states)@[t as int]->0.model(), stack.model(), m)),
{
    let ghost s0 = entry_states@;
    let ghost w0 = worklist@;
    match control {
        BlockControl::Fallthrough(target) | BlockControl::Goto(target) => {
            proof {
                assert(control.spec_successors()[0] == target);
                assert(control.spec_successors().contains(target));
            }
            let ghost out = stack.model();
            let r = propagate(function, block, target, stack, ownership, entry_states, worklist, Ghost(ins));
            proof {
                lemma_push_keeps(w0, target);
                lemma_models_agree(s0, entry_states@, target as int);
                lemma_target_status(s0, entry_states@, target as int);
                lemma_models_grow(s0, entry_states@, target as int);
                lemma_changed_queued(s0, entry_states@, w0, worklist@, target as int);
            }
            r
        },
        BlockControl::Branch { non_zero, zero } => {
            proof {
                assert(control.spec_successors()[0] == non_zero);
                assert(control.spec_successors()[1] == zero);
                assert(control.spec_successors().contains(non_zero));
                assert(control.spec_successors().contains(zero));
            }
            let copy = stack.duplicate_stack();
            let first = propagate(function, block, non_zero, copy, ownership, entry_states, worklist, Ghost(ins));
            let ghost s1 = entry_states@;
            let ghost w1 = worklist@;
            proof {
                lemma_push_keeps(w0, non_zero);
                lemma_models_agree(s0, s1, non_zero as int);
                lemma_target_status(s0, s1, non_zero as int);
                lemma_models_grow(s0, s1, non_zero as int);
                lemma_changed_queued(s0, s1, w0, w1, non_zero as int);
            }
            match first {
                Ok(()) => {},
                Err(e) => {
                    return Err(e);
                },
            }
            let ghost out = stack.model();
            let second = propagate(function, block, zero, stack, ownership, entry_states, worklist, Ghost(ins));
            proof {
                let s2 = entry_states@;
                lemma_push_keeps(w1, zero);
                lemma_models_agree(s1, s2, zero as int);
                lemma_target_status(s1, s2, zero as int);
                lemma_models_grow(s1, s2, zero as int);
                lemma_changed_queued(s1, s2, w1, worklist@, zero as int);
                assert forall|b: int| 0 <= b < s0.len() && (#[trigger] s0[b]) is Some implies (s0[b] matches Some(x)
                    && s2[b] matches Some(y) && grows(x.model(), y.model())) by {
                    lemma_grows_trans(s0[b]->0.model(), s1[b]->0.model(), s2[b]->0.model());
                }
                assert forall|b: int| 0 <= b < s0.len() && #[trigger] entry_models(s2)[b] != entry_models(s0)[b] implies worklist@.contains(b as u32) by {
                    if entry_models(s1)[b] != entry_models(s0)[b] {
                        assert(w1.contains(b as u32));
                    }
                }
                if second is Ok {
                    lemma_included_grows(out, s1[non_zero as int]->0.model(), s2[non_zero as int]->0.model());
                }
            }
            second
        },
        _ => {
            proof {
                assert(control.spec_successors().len() == 0);
            }
            Ok(())
        },
    }
}

/// After a propagation to `t`, every stored stack is still there and grows.
proof fn lemma_models_grow(s0: Seq<Option<SymbolicStack>>, s1: Seq<Option<SymbolicStack>>, t: int)
    requires
        s0.len() == s1.len(),
        0 <= t < s0.len(),
        forall|b: int| 0 <= b < s0.len() && b != t ==> #[trigger] entry_models(s1)[b] == entry_models(s0)[b],
        s0[t] matches Some(s) ==> (s1[t] matches Some(x) && grows(s.model(), x.model())),
    ensures
        forall|b: int| 0 <= b < s0.len() && (#[trigger] s0[b]) is Some ==> (s0[b] matches Some(s) && s1[b] matches Some(x)
            && grows(s.model(), x.model())),
{
    assert forall|b: int| 0 <= b < s0.len() && (#[trigger] s0[b]) is Some implies (s0[b] matches Some(s) && s1[b] matches Some(x)
        && grows(s.model(), x.model())) by {
        if b != t {
            assert(entry_models(s1)[b] == entry_models(s0)[b]);
            lemma_grows_refl(s0[b]->0.model());
        }
    }
}

/// Stacks that changed in a propagation to `t` are queued.
proof fn lemma_changed_queued(
    s0: Seq<Option<SymbolicStack>>,
    s1: Seq<Option<SymbolicStack>>,
    w0: Seq<u32>,
    w1: Seq<u32>,
    t: int,
)
    requires
        s0.len() == s1.len(),
        0 <= t < s0.len(),
        forall|b: int| 0 <= b < s0.len() && b != t ==> #[trigger] entry_models(s1)[b] == entry_models(s0)[b],
        w1 == w0 ==> entry_models(s1) == entry_models(s0),
        w1 == w0 || w1 == w0.push(t as u32),
    ensures
        forall|b: int| 0 <= b < s0.len() && #[trigger] entry_models(s1)[b] != entry_models(s0)[b] ==> w1.contains(b as u32),
{
    assert forall|b: int| 0 <= b < s0.len() && #[trigger] entry_models(s1)[b] != entry_models(s0)[b] implies w1.contains(b as u32) by {
        assert(b == t);
        if w1 == w0 {
        } else {
            assert(w1[w0.len() as int] == t as u32);
        }
    }
}

/// Equal models mean equal presence of stacks.
proof fn lemma_target_status(s0: Seq<Option<SymbolicStack>>, s1: Seq<Option<SymbolicStack>>, t: int)
    requires
        s0.len() == s1.len(),
        0 <= t < s0.len(),
    ensures
        entry_models(s1) == entry_models(s0) ==> (s1[t] is Some <==> s0[t] is Some),
{
    if entry_models(s1) == entry_models(s0) {
        assert(entry_models(s1)[t] == entry_models(s0)[t]);
    }
}

/// Pushing keeps the members.
proof fn lemma_push_keeps(s: Seq<u32>, x: u32)
    ensures
        forall|y: u32| s.contains(y) ==> #[trigger] s.push(x).contains(y),
        s.push(x).contains(x),
{
    crate::icall::lemma_push_contains(s, x);
}

/// Stores that agree on models away from `t` agree on which blocks have a stack there.
proof fn lemma_models_agree(s0: Seq<Option<SymbolicStack>>, s1: Seq<Option<SymbolicStack>>, t: int)
    requires
        s0.len() == s1.len(),
        forall|b: int| 0 <= b < s0.len() && b != t ==> #[trigger] entry_models(s1)[b] == entry_models(s0)[b],
    ensures
        forall|b: int| 0 <= b < s0.len() && b != t ==> (#[trigger] s1[b] is Some <==> s0[b] is Some),
{
    assert forall|b: int| 0 <= b < s0.len() && b != t implies (#[trigger] s1[b] is Some <==> s0[b] is Some) by {
        assert(entry_models(s1)[b] == entry_models(s0)[b]);
    }
}

/// The run of block `b` of `function` from the stack kept at its entry, with
/// no return pushes recorded before.
pub open spec fn kept_run(
    ins: Seq<Instruction>,
    inference: InternalCallInference,
    cfg: ProvisionalCfg,
    function: u32,
    arities: Seq<Option<FunctionArity>>,
    states: Seq<Option<SymbolicStack>>,
    b: int,
) -> Result<BlockRun, VerificationError> {
    run_block(
        run_context(ins, inference, cfg, function, b as u32, arities, Map::empty()),
        inference.blocks_spec().block_list()[b].instructions,
        states[b]->0.model(),
    )
}

/// Running block `b` of `function` from stack `st`, with the callees'
/// arities `arities` and nothing recorded before.
pub open spec fn block_run_from(
    ins: Seq<Instruction>,
    inference: InternalCallInference,
    cfg: ProvisionalCfg,
    function: u32,
    arities: Seq<Option<FunctionArity>>,
    b: u32,
    st: StackModel,
) -> Result<BlockRun, VerificationError> {
    run_block(
        run_context(ins, inference, cfg, function, b, arities, Map::empty()),
        inference.blocks_spec().block_list()[b as int].instructions,
        st,
    )
}

/// `path` is a walk of the analysis of `function`: it starts at the entry
/// with a stack that covers the function's starting stack, and each step
/// goes from a block the function owns to a successor whose stack covers
/// what running the block leaves.
pub open spec fn reached_path(
    ins: Seq<Instruction>,
    inference: InternalCallInference,
    cfg: ProvisionalCfg,
    ownership: Ownership,
    function: u32,
    arities: Seq<Option<FunctionArity>>,
    path: Seq<(u32, StackModel)>,
) -> bool {
    let candidate = ownership.function_list()[function as int];
    &&& path.len() > 0
    &&& path[0].0 == candidate.entry
    &&& included(initial_model(candidate.kind != crate::ownership::FunctionKind::Root), path[0].1)
    &&& forall|i: int|
        0 <= i < path.len() - 1 ==> {
            &&& #[trigger] path[i].0 < inference.blocks_spec().block_list().len()
            &&& ownership.owner_sets()[path[i].0 as int].contains(function)
            &&& cfg.control_list()[path[i].0 as int].spec_successors().contains(path[i + 1].0)
            &&& block_run_from(ins, inference, cfg, function, arities, path[i].0, path[i].1) matches Ok(done)
                && included(done.stack, path[i + 1].1)
        }
}

/// The analysis of `function` can reach block `b` with stack `st`.
pub open spec fn stack_reached(
    ins: Seq<Instruction>,
    inference: InternalCallInference,
    cfg: ProvisionalCfg,
    ownership: Ownership,
    function: u32,
    arities: Seq<Option<FunctionArity>>,
    b: u32,
    st: StackModel,
) -> bool {
    exists|path: Seq<(u32, StackModel)>|
        #[trigger] reached_path(ins, inference, cfg, ownership, function, arities, path) && path.last() == (b, st)
}

/// Every kept stack of `states` is reached by the analysis.
#[verifier::opaque]
pub open spec fn states_reached(
    ins: Seq<Instruction>,
    inference: InternalCallInference,
    cfg: ProvisionalCfg,
    ownership: Ownership,
    function: u32,
    arities: Seq<Option<FunctionArity>>,
    states: Seq<Option<SymbolicStack>>,
) -> bool {
    forall|c: int|
        0 <= c < states.len() && #[trigger] states[c] is Some ==> stack_reached(
            ins,
            inference,
            cfg,
            ownership,
            function,
            arities,
            c as u32,
            states[c]->0.model(),
        )
}

/// A kept stack of states that are all reached is reached.
proof fn lemma_kept_reached(
    ins: Seq<Instruction>,
    inference: InternalCallInference,
    cfg: ProvisionalCfg,
    ownership: Ownership,
    function: u32,
    arities: Seq<Option<FunctionArity>>,
    states: Seq<Option<SymbolicStack>>,
    c: u32,
)
    requires
        states_reached(ins, inference, cfg, ownership, function, arities, states),
        c < states.len(),
        states[c as int] is Some,
    ensures
        stack_reached(ins, inference, cfg, ownership, function, arities, c, states[c as int]->0.model()),
{
    reveal(states_reached);
}

/// A run of a block that `function` owns, from a stack the analysis
/// reaches, uses push `push` as a value.
pub open spec fn push_used_semantically(
    ins: Seq<Instruction>,
    inference: InternalCallInference,
    cfg: ProvisionalCfg,
    ownership: Ownership,
    function: u32,
    push: u32,
) -> bool {
    exists|arities: Seq<Option<FunctionArity>>, b: u32, st: StackModel, recorded: Map<(u32, u32), u32>|
        #![trigger stack_reached(ins, inference, cfg, ownership, function, arities, b, st), run_context(ins, inference, cfg, function, b, arities, recorded)]
        b < inference.blocks_spec().block_list().len() && ownership.owner_sets()[b as int].contains(function)
            && stack_reached(ins, inference, cfg, ownership, function, arities, b, st) && (run_block(
            run_context(ins, inference, cfg, function, b, arities, recorded),
            inference.blocks_spec().block_list()[b as int].instructions,
            st,
        ) matches Ok(done) && done.uses.contains(push))
}

/// Every `(function, push)` in `uses` is a push that some run of the
/// function uses as a value.
#[verifier::opaque]
pub open spec fn uses_justified(
    ins: Seq<Instruction>,
    inference: InternalCallInference,
    cfg: ProvisionalCfg,
    ownership: Ownership,
    uses: Set<(u32, u32)>,
) -> bool {
    forall|x: (u32, u32)| #[trigger] uses.contains(x) ==> push_used_semantically(ins, inference, cfg, ownership, x.0, x.1)
}

/// Recording the uses of a run from a reached stack keeps every recorded
/// use justified.
proof fn lemma_uses_step(
    ins: Seq<Instruction>,
    inference: InternalCallInference,
    cfg: ProvisionalCfg,
    ownership: Ownership,
    function: u32,
    arities: Seq<Option<FunctionArity>>,
    b: u32,
    st: StackModel,
    recorded: Map<(u32, u32), u32>,
    before: Set<(u32, u32)>,
    after: Set<(u32, u32)>,
)
    requires
        uses_justified(ins, inference, cfg, ownership, before),
        b < inference.blocks_spec().block_list().len(),
        ownership.owner_sets()[b as int].contains(function),
        stack_reached(ins, inference, cfg, ownership, function, arities, b, st),
        run_block(
            run_context(ins, inference, cfg, function, b, arities, recorded),
            inference.blocks_spec().block_list()[b as int].instructions,
            st,
        ) matches Ok(done) && after == before + tagged_set(function, done.uses),
    ensures
        uses_justified(ins, inference, cfg, ownership, after),
{
    reveal(uses_justified);
    assert forall|x: (u32, u32)| #[trigger] after.contains(x) implies push_used_semantically(ins, inference, cfg, ownership, x.0, x.1) by {
        if !before.contains(x) {
            assert(x.0 == function);
            let c = run_context(ins, inference, cfg, function, b, arities, recorded);
            assert(stack_reached(ins, inference, cfg, ownership, function, arities, b, st));
        }
    }
}

/// A walk that reaches an owned block and runs it can go on to any
/// successor whose stack covers what the run leaves.
proof fn lemma_reached_extend(
    ins: Seq<Instruction>,
    inference: InternalCallInference,
    cfg: ProvisionalCfg,
    ownership: Ownership,
    function: u32,
    arities: Seq<Option<FunctionArity>>,
    b: u32,
    st: StackModel,
    t: u32,
    st2: StackModel,
)
    requires
        stack_reached(ins, inference, cfg, ownership, function, arities, b, st),
        b < inference.blocks_spec().block_list().len(),
        ownership.owner_sets()[b as int].contains(function),
        cfg.control_list()[b as int].spec_successors().contains(t),
        block_run_from(ins, inference, cfg, function, arities, b, st) matches Ok(done) && included(done.stack, st2),
    ensures
        stack_reached(ins, inference, cfg, ownership, function, arities, t, st2),
{
    let path = choose|path: Seq<(u32, StackModel)>|
        #[trigger] reached_path(ins, inference, cfg, ownership, function, arities, path) && path.last() == (b, st);
    let p2 = path.push((t, st2));
    assert forall|i: int| 0 <= i < p2.len() - 1 implies {
        &&& #[trigger] p2[i].0 < inference.blocks_spec().block_list().len()
        &&& ownership.owner_sets()[p2[i].0 as int].contains(function)
        &&& cfg.control_list()[p2[i].0 as int].spec_successors().contains(p2[i + 1].0)
        &&& block_run_from(ins, inference, cfg, function, arities, p2[i].0, p2[i].1) matches Ok(done)
            && included(done.stack, p2[i + 1].1)
    } by {
        if i < path.len() - 1 {
            assert(p2[i] == path[i]);
            assert(p2[i + 1] == path[i + 1]);
            assert(path[i].0 < inference.blocks_spec().block_list().len());
        } else {
            assert(p2[i] == path.last());
            assert(p2[i + 1] == (t, st2));
        }
    }
    assert(reached_path(ins, inference, cfg, ownership, function, arities, p2));
    assert(p2.last() == (t, st2));
}

/// Block `b` is settled: if a stack is kept at its entry, running the block
/// from it succeeds, and the stack that leaves it is covered by the stack
/// kept at each successor.
pub open spec fn block_settled(
    ins: Seq<Instruction>,
    inference: InternalCallInference,
    cfg: ProvisionalCfg,
    function: u32,
    arities: Seq<Option<FunctionArity>>,
    states: Seq<Option<SymbolicStack>>,
    b: int,
) -> bool {
    states[b] is Some ==> (kept_run(ins, inference, cfg, function, arities, states, b) matches Ok(done) && forall|k: int|
        0 <= k < cfg.control_list()[b].spec_successors().len() ==> (#[trigger] states[cfg.control_list()[b].spec_successors()[k] as int]
            matches Some(t) && included(done.stack, t.model())))
}

/// The arity a return at the end of block `b` implies, when the block has a
/// kept stack and runs from it.
pub open spec fn block_return(
    ins: Seq<Instruction>,
    inference: InternalCallInference,
    cfg: ProvisionalCfg,
    function: u32,
    arities: Seq<Option<FunctionArity>>,
    states: Seq<Option<SymbolicStack>>,
    b: int,
) -> Option<ReturningArity> {
    if states[b] is Some {
        match kept_run(ins, inference, cfg, function, arities, states, b) {
            Ok(done) => done.ret,
            Err(_) => None,
        }
    } else {
        None
    }
}

/// The stack a function starts with: open to inputs unless it is the root.
pub open spec fn initial_model(open: bool) -> StackModel {
    StackModel { values: Seq::empty(), next_input: 0, required_inputs: 0, open }
}

/// Verifies one function: propagates symbolic stacks from its entry through
/// the blocks it owns until they no longer change, checking each block, and
/// derives its arity from its returns.
#[verifier::rlimit(100)]
#[verifier::spinoff_prover]
fn verify_function(
    function: u32,
    decoded: &DecodedBytecode,
    inference: &InternalCallInference,
    cfg: &ProvisionalCfg,
    ownership: &Ownership,
    verified: &Vec<Option<FunctionVerification>>,
    control_pushes: &mut BTreeSet<(u32, u32)>,
    return_pushes: &mut BTreeMap<(u32, u32), u32>,
    semantic_constant_uses: &mut BTreeSet<(u32, u32)>,
) -> (r: Result<FunctionVerification, VerificationError>)
    requires
        decoded.wf(),
        pipeline_ok(decoded.instruction_list(), *inference, *cfg, *ownership),
        function < ownership.function_list().len(),
        callee_arities_ok(verified@),
        forall|g: u32| #[trigger] calls_into(*inference, *cfg, *ownership, function, g) ==> g < verified@.len()
            && verified@[g as int] is Some,
    ensures
        r matches Ok(v) ==> {
            &&& (v.arity is Root) == (ownership.function_list()[function as int].kind
                == crate::ownership::FunctionKind::Root)
            &&& v.arity.consistent()
            &&& v.states().len() == inference.blocks_spec().block_list().len()
            &&& entries_ok(decoded.instruction_list(), v.states())
            &&& states_closed(*cfg, *ownership, function, v.states())
            &&& function_settled(decoded.instruction_list(), *inference, *cfg, *ownership, function, arities_of(verified@), v)
        },
        r matches Err(e) ==> function_error_facts(
            decoded.instruction_list(),
            *inference,
            *cfg,
            *ownership,
            function,
            arities_of(verified@),
            e,
        ),
        r is Ok && uses_justified(decoded.instruction_list(), *inference, *cfg, *ownership, old(semantic_constant_uses)@)
            ==> uses_justified(decoded.instruction_list(), *inference, *cfg, *ownership, final(semantic_constant_uses)@),
{
    let ghost ins = decoded.instruction_list();
    let candidate = ownership.functions()[function as usize];
    let nb = inference.code_blocks().blocks().len();
    proof {
        crate::icall::lemma_block_count(ins, inference.call_list(), inference.blocks_spec().block_list());
        assert(candidate.entry < nb) by {
            lemma_entry_in_range(*inference, *cfg, *ownership, function);
        }
    }
    let initial = if candidate.kind != crate::ownership::FunctionKind::Root {
        SymbolicStack::open()
    } else {
        SymbolicStack::empty()
    };
    let mut entry_states: Vec<Option<SymbolicStack>> = Vec::new();
    let mut return_arities: Vec<Option<ReturningArity>> = Vec::new();
    let mut b: usize = 0;
    while b < nb
        invariant
            b <= nb,
            entry_states@.len() == b,
            return_arities@.len() == b,
            forall|c: int| 0 <= c < b ==> #[trigger] entry_states@[c] is None,
            forall|c: int| 0 <= c < b ==> #[trigger] return_arities@[c] is None,
        decreases nb - b,
    {
        entry_states.push(None);
        return_arities.push(None);
        b = b + 1;
    }
    let ghost arities = arities_of(verified@);
    let ghost start_model = initial_model(candidate.kind != crate::ownership::FunctionKind::Root);
    proof {
        assert(initial.model().values.len() == 0);
        assert(initial.model() == start_model);
    }
    entry_states.set(candidate.entry as usize, Some(initial));
    let mut worklist: Vec<u32> = vec![candidate.entry];
    let ghost uses0 = semantic_constant_uses@;
    proof {
        assert(worklist@[0] == candidate.entry);
        assert(entries_ok(ins, entry_states@));
        assert(states_normal(entry_states@)) by {
            assert forall|b: int| 0 <= b < entry_states@.len() implies (#[trigger] entry_states@[b] matches Some(s) ==> kept_normal(s.model())) by {
                if b == candidate.entry {
                    assert(normalize_model(start_model) == start_model);
                }
            }
        }
        assert(included(start_model, entry_states@[candidate.entry as int]->0.model()));
        assert(states_reached(ins, *inference, *cfg, *ownership, function, arities, entry_states@)) by {
            reveal(states_reached);
            assert forall|c: int| 0 <= c < entry_states@.len() && #[trigger] entry_states@[c] is Some implies stack_reached(
                ins,
                *inference,
                *cfg,
                *ownership,
                function,
                arities,
                c as u32,
                entry_states@[c]->0.model(),
            ) by {
                lemma_entry_reached(ins, *inference, *cfg, *ownership, function, arities, entry_states@[c]->0.model());
            }
        }
    }
    while worklist.len() > 0
        invariant
            decoded.wf(),
            ins == decoded.instruction_list(),
            pipeline_ok(ins, *inference, *cfg, *ownership),
            function < ownership.function_list().len(),
            candidate == ownership.function_list()[function as int],
            callee_arities_ok(verified@),
            forall|g: u32| #[trigger] calls_into(*inference, *cfg, *ownership, function, g) ==> g
                < verified@.len() && verified@[g as int] is Some,
            nb == inference.blocks_spec().block_list().len(),
            nb <= u32::MAX,
            candidate.entry < nb,
            entry_states@.len() == nb,
            return_arities@.len() == nb,
            entries_ok(ins, entry_states@),
            entry_states@[candidate.entry as int] matches Some(s) && included(start_model, s.model()),
            start_model == initial_model(candidate.kind != crate::ownership::FunctionKind::Root),
            arities == arities_of(verified@),
            states_normal(entry_states@),
            states_reached(ins, *inference, *cfg, *ownership, function, arities, entry_states@),
            uses_justified(ins, *inference, *cfg, *ownership, uses0) ==> uses_justified(
                ins,
                *inference,
                *cfg,
                *ownership,
                semantic_constant_uses@,
            ),
            forall|c: int| 0 <= c < nb && #[trigger] return_arities@[c] is Some ==> entry_states@[c] is Some,
            forall|t: int|
                0 <= t < worklist@.len() ==> #[trigger] worklist@[t] < nb && entry_states@[worklist@[t] as int] is Some,
            forall|c: int|
                0 <= c < nb ==> (#[trigger] return_arities@[c] matches Some(a) ==> a.return_input < a.physical.inputs),
            forall|c: int|
                0 <= c < nb && #[trigger] entry_states@[c] is Some ==> worklist@.contains(c as u32) || (block_closed(
                    *cfg,
                    *ownership,
                    function,
                    entry_states@,
                    c,
                ) && block_settled(ins, *inference, *cfg, function, arities, entry_states@, c)
                    && return_arities@[c] == block_return(ins, *inference, *cfg, function, arities, entry_states@, c)),
        decreases none_count(entry_models(entry_states@)), states_room(ins.len(), entry_models(entry_states@)), worklist@.len(),
    {
        let ghost wl_old = worklist@;
        let block = worklist.pop().unwrap();
        proof {
            assert(wl_old.last() == block);
            assert forall|y: u32| wl_old.contains(y) && y != block implies #[trigger] worklist@.contains(y) by {
                let t = choose|t: int| 0 <= t < wl_old.len() && wl_old[t] == y;
                assert(t < wl_old.len() - 1);
                assert(worklist@[t] == y);
            }
        }
        if !ownership.is_owned_by(block, function) {
            proof {
                lemma_kept_reached(ins, *inference, *cfg, *ownership, function, arities, entry_states@, block);
            }
            return Err(VerificationError::WrongFunctionOwner { function, block });
        }
        let stack = match &entry_states[block as usize] {
            Some(s) => s.duplicate_stack(),
            None => {
                proof {
                    assert(false);
                }
                SymbolicStack::empty()
            },
        };
        proof {
            assert(entry_states@[block as int] is Some);
        }
        let ghost entry_model = stack.model();
        let ghost recorded = return_pushes@;
        let ghost uses_before = semantic_constant_uses@;
        let executed = execute_block(
            function,
            block,
            decoded,
            inference,
            cfg,
            ownership,
            verified,
            stack,
            control_pushes,
            return_pushes,
            semantic_constant_uses,
        );
        proof {
            let c = run_context(ins, *inference, *cfg, function, block, arities, recorded);
            let span = inference.blocks_spec().block_list()[block as int].instructions;
            lemma_run_unrecorded(c, run_start(entry_model), span.start, span.end);
            lemma_run_nonempty(c, run_start(entry_model), span.start, span.end);
            assert(unrecorded(c) == run_context(ins, *inference, *cfg, function, block, arities, Map::empty()));
        }
        let (stack, returned) = match executed {
            Ok(pair) => pair,
            Err(e) => {
                proof {
                    let c = run_context(ins, *inference, *cfg, function, block, arities_of(verified@), recorded);
                    let span = inference.blocks_spec().block_list()[block as int].instructions;
                    lemma_run_error(c, run_start(entry_model), span.start, span.end);
                    assert(run_block(c, span, entry_model) == Err::<BlockRun, VerificationError>(e));
                    lemma_kept_reached(ins, *inference, *cfg, *ownership, function, arities, entry_states@, block);
                    assert(block_fails(ins, *inference, *cfg, *ownership, function, arities, e));
                }
                return Err(e);
            },
        };
        proof {
            if uses_justified(ins, *inference, *cfg, *ownership, uses0) {
                lemma_kept_reached(ins, *inference, *cfg, *ownership, function, arities, entry_states@, block);
                lemma_uses_step(
                    ins,
                    *inference,
                    *cfg,
                    *ownership,
                    function,
                    arities,
                    block,
                    entry_model,
                    recorded,
                    uses_before,
                    semantic_constant_uses@,
                );
            }
        }
        let ghost done = kept_run(ins, *inference, *cfg, function, arities, entry_states@, block as int)->Ok_0;
        proof {
            assert(entry_states@[block as int]->0.model() == entry_model);
            assert(stack.model() == done.stack);
            assert(returned == done.ret);
        }
        return_arities.set(block as usize, returned);
        let ghost states_mid = entry_states@;
        let ghost worklist_mid = worklist@;
        let control = cfg.control(block);
        proof {
            lemma_successors_in_range(*inference, *cfg, block as int);
        }
        proof {
            lemma_kept_reached(ins, *inference, *cfg, *ownership, function, arities, entry_states@, block);
        }
        match control {
            BlockControl::InternalReturn => {
                if candidate.kind != crate::ownership::FunctionKind::Returning {
                    return Err(VerificationError::UnexpectedReturn { function, block });
                }
            },
            BlockControl::UnresolvedJump | BlockControl::UnresolvedJumpI | BlockControl::UnresolvedCall => {
                return Err(VerificationError::UnresolvedControl { function, block });
            },
            _ => {},
        }
        let ghost out = stack.model();
        let propagated = propagate_successors(function, block, control, stack, ownership, &mut entry_states, &mut worklist, Ghost(ins));
        proof {
            assert(states_mid[block as int]->0.model() == entry_model);
            lemma_states_reached_step(ins, *inference, *cfg, *ownership, function, arities, states_mid, entry_states@, block, out);
        }
        match propagated {
            Ok(()) => {},
            Err(e) => {
                proof {
                    lemma_mismatch_facts(ins, *inference, *cfg, *ownership, function, arities, entry_model, entry_states@, block, control, out, e);
                }
                return Err(e);
            },
        }
        proof {
            let fin = entry_states@;
            assert(block_closed(*cfg, *ownership, function, fin, block as int));
            assert forall|c: int|
                0 <= c < nb && #[trigger] fin[c] is Some implies worklist@.contains(c as u32) || (block_closed(
                    *cfg,
                    *ownership,
                    function,
                    fin,
                    c,
                ) && block_settled(ins, *inference, *cfg, function, arities, fin, c)
                    && return_arities@[c] == block_return(ins, *inference, *cfg, function, arities, fin, c)) by {
                if !worklist@.contains(c as u32) {
                    assert(entry_models(fin)[c] == entry_models(states_mid)[c]);
                    assert(states_mid[c] is Some);
                    assert(fin[c]->0.model() == states_mid[c]->0.model());
                    assert(kept_run(ins, *inference, *cfg, function, arities, fin, c) == kept_run(
                        ins,
                        *inference,
                        *cfg,
                        function,
                        arities,
                        states_mid,
                        c,
                    ));
                    if c == block {
                        assert forall|k: int| 0 <= k < cfg.control_list()[c].spec_successors().len() implies (#[trigger] fin[cfg.control_list()[c].spec_successors()[k] as int]
                            matches Some(t) && included(done.stack, t.model())) by {}
                    } else {
                        assert(!worklist_mid.contains(c as u32));
                        assert(!wl_old.contains(c as u32));
                        assert(block_settled(ins, *inference, *cfg, function, arities, states_mid, c));
                        let done_c = kept_run(ins, *inference, *cfg, function, arities, states_mid, c)->Ok_0;
                        assert forall|k: int| 0 <= k < cfg.control_list()[c].spec_successors().len() implies (#[trigger] fin[cfg.control_list()[c].spec_successors()[k] as int]
                            matches Some(t) && included(done_c.stack, t.model())) by {
                            let t = cfg.control_list()[c].spec_successors()[k] as int;
                            assert(states_mid[t] matches Some(x) && included(done_c.stack, x.model()));
                            lemma_included_grows(done_c.stack, states_mid[t]->0.model(), fin[t]->0.model());
                        }
                        assert(block_closed(*cfg, *ownership, function, states_mid, c));
                    }
                }
            }
            assert forall|t: int| 0 <= t < worklist@.len() implies #[trigger] worklist@[t] < nb && entry_states@[worklist@[t] as int] is Some by {
                if worklist_mid.contains(worklist@[t]) {
                    let u = choose|u: int| 0 <= u < worklist_mid.len() && worklist_mid[u] == worklist@[t];
                    assert(wl_old[u] == worklist_mid[u]);
                }
            }
        }
    }
    proof {
        let fin = entry_states@;
        assert forall|c: int| 0 <= c < nb implies #[trigger] return_arities@[c] == block_return(ins, *inference, *cfg, function, arities, fin, c)
            && block_settled(ins, *inference, *cfg, function, arities, fin, c) by {
            if fin[c] is Some {
                assert(!worklist@.contains(c as u32));
            }
        }
        assert forall|c: int| 0 <= c < nb && #[trigger] fin[c] is Some implies block_closed(*cfg, *ownership, function, fin, c) by {
            assert(!worklist@.contains(c as u32));
        }
        assert(analysis_settled(ins, *inference, *cfg, *ownership, function, arities, fin));
    }
    let arity = match candidate.kind {
        crate::ownership::FunctionKind::Root => FunctionArity::Root,
        crate::ownership::FunctionKind::Returning => {
            match agreed_arity(function, &return_arities) {
                Ok(a) => FunctionArity::Returning(a),
                Err(e) => {
                    proof {
                        let fin = entry_states@;
                        if let VerificationError::InconsistentReturnArity { function: f, expected, actual } = e {
                            let b1 = choose|b: int| 0 <= b < return_arities@.len() && #[trigger] return_arities@[b] == Some(expected);
                            let b2 = choose|b: int| 0 <= b < return_arities@.len() && #[trigger] return_arities@[b] == Some(actual);
                            assert(block_return(ins, *inference, *cfg, function, arities, fin, b1) == Some(expected));
                            assert(block_return(ins, *inference, *cfg, function, arities, fin, b2) == Some(actual));
                        }
                        if e == (VerificationError::NoInternalReturn { function }) {
                            assert forall|b: int| 0 <= b < fin.len() implies #[trigger] block_return(ins, *inference, *cfg, function, arities, fin, b) is None by {
                                assert(return_arities@[b] is None);
                            }
                        }
                    }
                    return Err(e);
                },
            }
        },
    };
    Ok(FunctionVerification { arity, entry_states })
}

/// A function's entry is a block.
pub(crate) proof fn lemma_entry_in_range(
    inference: InternalCallInference,
    cfg: ProvisionalCfg,
    ownership: Ownership,
    function: u32,
)
    requires
        inference.wf(),
        ownership.analyzes(inference, cfg),
        function < ownership.function_list().len(),
    ensures
        ownership.function_list()[function as int].entry < inference.blocks_spec().block_list().len(),
{
    let nf = inference.function_list().len();
    crate::icall::lemma_blocks_nonempty(inference.source(), inference.call_list(), inference.blocks_spec().block_list());
    crate::ownership::lemma_jumpdest_values(inference);
    if function < nf {
        let pc = inference.function_list()[function as int].entry_pc;
        assert(inference.blocks_spec().jumpdest_map().contains_key(pc));
    }
}

/// The successors of a block are blocks.
pub(crate) proof fn lemma_successors_in_range(inference: InternalCallInference, cfg: ProvisionalCfg, b: int)
    requires
        cfg.built_from(inference.source(), inference),
        0 <= b < inference.blocks_spec().block_list().len(),
    ensures
        forall|k: int|
            0 <= k < cfg.control_list()[b].spec_successors().len() ==> #[trigger] cfg.control_list()[b].spec_successors()[k]
                < inference.blocks_spec().block_list().len(),
{
}

/// `p` is a chain of calls.
pub open spec fn is_call_chain(
    inference: InternalCallInference,
    cfg: ProvisionalCfg,
    ownership: Ownership,
    p: Seq<u32>,
) -> bool {
    &&& p.len() > 0
    &&& forall|t: int| 0 <= t < p.len() - 1 ==> #[trigger] calls_into(inference, cfg, ownership, p[t], p[t + 1])
}

/// Function `to` can be reached from `from` through calls.
pub open spec fn call_reaches(
    inference: InternalCallInference,
    cfg: ProvisionalCfg,
    ownership: Ownership,
    from: u32,
    to: u32,
) -> bool {
    exists|p: Seq<u32>| #[trigger] is_call_chain(inference, cfg, ownership, p) && p[0] == from && p.last() == to
}

/// Function `f` calls itself through a chain of calls.
pub open spec fn on_call_cycle(
    inference: InternalCallInference,
    cfg: ProvisionalCfg,
    ownership: Ownership,
    f: u32,
) -> bool {
    exists|p: Seq<u32>|
        #[trigger] is_call_chain(inference, cfg, ownership, p) && p.len() >= 2 && p[0] == f && p.last() == f
}

/// Which functions each function calls.
#[verifier::spinoff_prover]
fn callee_sets(
    inference: &InternalCallInference,
    cfg: &ProvisionalCfg,
    ownership: &Ownership,
) -> (r: Vec<BTreeSet<u32>>)
    requires
        pipeline_ok(inference.source(), *inference, *cfg, *ownership),
    ensures
        r@.len() == ownership.function_list().len(),
        forall|f: int, g: u32|
            0 <= f < r@.len() ==> (#[trigger] r@[f]@.contains(g) <==> calls_into(*inference, *cfg, *ownership, f as u32, g)),
{
    let nfunctions = ownership.functions().len();
    let nb = inference.code_blocks().blocks().len();
    proof {
        crate::icall::lemma_block_count(inference.source(), inference.call_list(), inference.blocks_spec().block_list());
    }
    let mut callees: Vec<BTreeSet<u32>> = Vec::new();
    let mut f: usize = 0;
    while f < nfunctions
        invariant
            pipeline_ok(inference.source(), *inference, *cfg, *ownership),
            nfunctions == ownership.function_list().len(),
            nfunctions <= u32::MAX + 1,
            nb == inference.blocks_spec().block_list().len(),
            nb <= u32::MAX,
            f <= nfunctions,
            callees@.len() == f,
            forall|h: int, g: u32|
                0 <= h < f ==> (#[trigger] callees@[h]@.contains(g) <==> calls_into(*inference, *cfg, *ownership, h as u32, g)),
        decreases nfunctions - f,
    {
        let mut set: BTreeSet<u32> = BTreeSet::new();
        let mut b: usize = 0;
        while b < nb
            invariant
                pipeline_ok(inference.source(), *inference, *cfg, *ownership),
                nb == inference.blocks_spec().block_list().len(),
                nb <= u32::MAX,
                f < nfunctions,
                nfunctions <= u32::MAX + 1,
                b <= nb,
                forall|g: u32| #[trigger] set@.contains(g) <==> exists|c: int, k: int|
                    0 <= c < b && ownership.owner_sets()[c].contains(f as u32) && 0 <= k < cfg.call_lists()[c].len()
                        && (#[trigger] inference.call_list()[cfg.call_lists()[c][k] as int] matches Some(x) && x.function == g),
            decreases nb - b,
        {
            if ownership.is_owned_by(b as u32, f as u32) {
                let calls = cfg.calls(b as u32);
                let mut k: usize = 0;
                while k < calls.len()
                    invariant
                        pipeline_ok(inference.source(), *inference, *cfg, *ownership),
                        b < nb,
                        nb == inference.blocks_spec().block_list().len(),
                        calls@ == cfg.call_lists()[b as int],
                        ownership.owner_sets()[b as int].contains(f as u32),
                        k <= calls@.len(),
                        forall|g: u32| #[trigger] set@.contains(g) <==> (exists|c: int, j: int|
                            0 <= c < b && ownership.owner_sets()[c].contains(f as u32) && 0 <= j < cfg.call_lists()[c].len()
                                && (#[trigger] inference.call_list()[cfg.call_lists()[c][j] as int] matches Some(x) && x.function == g))
                            || (exists|j: int| 0 <= j < k && (#[trigger] inference.call_list()[calls@[j] as int] matches Some(x) && x.function == g)),
                    decreases calls@.len() - k,
                {
                    let instruction = calls[k];
                    proof {
                        lemma_call_list_entry(*inference, *cfg, b as int, k as int);
                    }
                    match inference.call(instruction) {
                        Some(call) => {
                            set.insert(call.function);
                        },
                        None => {},
                    }
                    k = k + 1;
                }
                proof {
                    assert forall|g: u32| #[trigger] set@.contains(g) <==> exists|c: int, j: int|
                        0 <= c < b + 1 && ownership.owner_sets()[c].contains(f as u32) && 0 <= j < cfg.call_lists()[c].len()
                            && (#[trigger] inference.call_list()[cfg.call_lists()[c][j] as int] matches Some(x) && x.function == g) by {
                        if exists|j: int| 0 <= j < calls@.len() && (#[trigger] inference.call_list()[calls@[j] as int] matches Some(x) && x.function == g) {
                            let j = choose|j: int| 0 <= j < calls@.len() && (#[trigger] inference.call_list()[calls@[j] as int] matches Some(x) && x.function == g);
                            assert(cfg.call_lists()[b as int][j] == calls@[j]);
                        }
                        if exists|c: int, j: int|
                            0 <= c < b + 1 && ownership.owner_sets()[c].contains(f as u32) && 0 <= j < cfg.call_lists()[c].len()
                                && (#[trigger] inference.call_list()[cfg.call_lists()[c][j] as int] matches Some(x) && x.function == g) {
                            let (c, j) = choose|c: int, j: int|
                                0 <= c < b + 1 && ownership.owner_sets()[c].contains(f as u32) && 0 <= j < cfg.call_lists()[c].len()
                                    && (#[trigger] inference.call_list()[cfg.call_lists()[c][j] as int] matches Some(x) && x.function == g);
                            if c == b {
                                assert(calls@[j] == cfg.call_lists()[c][j]);
                            }
                        }
                    }
                }
            } else {
                proof {
                    assert forall|g: u32| #[trigger] set@.contains(g) <==> exists|c: int, j: int|
                        0 <= c < b + 1 && ownership.owner_sets()[c].contains(f as u32) && 0 <= j < cfg.call_lists()[c].len()
                            && (#[trigger] inference.call_list()[cfg.call_lists()[c][j] as int] matches Some(x) && x.function == g) by {
                        if exists|c: int, j: int|
                            0 <= c < b + 1 && ownership.owner_sets()[c].contains(f as u32) && 0 <= j < cfg.call_lists()[c].len()
                                && (#[trigger] inference.call_list()[cfg.call_lists()[c][j] as int] matches Some(x) && x.function == g) {
                            let (c, j) = choose|c: int, j: int|
                                0 <= c < b + 1 && ownership.owner_sets()[c].contains(f as u32) && 0 <= j < cfg.call_lists()[c].len()
                                    && (#[trigger] inference.call_list()[cfg.call_lists()[c][j] as int] matches Some(x) && x.function == g);
                            assert(c != b);
                        }
                    }
                }
            }
            b = b + 1;
        }
        proof {
            assert forall|g: u32| #[trigger] set@.contains(g) <==> calls_into(*inference, *cfg, *ownership, f as u32, g) by {
                assert(cfg.call_lists().len() == nb);
            }
        }
        callees.push(set);
        f = f + 1;
    }
    callees
}

/// A listed call instruction is an instruction.
proof fn lemma_call_list_entry(inference: InternalCallInference, cfg: ProvisionalCfg, b: int, k: int)
    requires
        inference.wf(),
        cfg.built_from(inference.source(), inference),
        0 <= b < inference.blocks_spec().block_list().len(),
        0 <= k < cfg.call_lists()[b].len(),
    ensures
        cfg.call_lists()[b][k] < inference.call_list().len(),
{
    let blk = inference.blocks_spec().block_list()[b];
    lemma_calls_between_range(inference.call_list(), blk.instructions.start as int, blk.instructions.end as int);
}

proof fn lemma_calls_between_range(calls: Seq<Option<crate::icall::InferredCall>>, start: int, end: int)
    requires
        0 <= start,
        end <= calls.len(),
    ensures
        forall|k: int| 0 <= k < crate::cfg::calls_between(calls, start, end).len() ==> #[trigger] crate::cfg::calls_between(
            calls,
            start,
            end,
        )[k] < end,
    decreases end - start,
{
    if start < end {
        lemma_calls_between_range(calls, start, end - 1);
        let prev = crate::cfg::calls_between(calls, start, end - 1);
        let list = crate::cfg::calls_between(calls, start, end);
        assert forall|k: int| 0 <= k < list.len() implies #[trigger] list[k] < end by {
            if k < prev.len() {
                assert(list[k] == prev[k]);
                assert(prev[k] < end - 1);
            }
        }
    }
}

/// Where the depth-first walk of the call graph is with a function.
#[derive(Debug, Clone, Copy, PartialEq, Eq, Structural)]
enum Visit {
    New,
    Active,
    Done,
}

/// Number of entries of `s` equal to `v`.
spec fn count_visits(s: Seq<Visit>, v: Visit) -> nat
    decreases s.len(),
{
    if s.len() == 0 {
        0
    } else {
        count_visits(s.drop_last(), v) + if s.last() == v {
            1nat
        } else {
            0nat
        }
    }
}

proof fn lemma_count_visits_update(s: Seq<Visit>, i: int, w: Visit, v: Visit)
    requires
        0 <= i < s.len(),
    ensures
        count_visits(s.update(i, w), v) + (if s[i] == v {
            1nat
        } else {
            0nat
        }) == count_visits(s, v) + if w == v {
            1nat
        } else {
            0nat
        },
    decreases s.len(),
{
    let u = s.update(i, w);
    if i < s.len() - 1 {
        assert(u.drop_last() =~= s.drop_last().update(i, w));
        lemma_count_visits_update(s.drop_last(), i, w, v);
    } else {
        assert(u.drop_last() =~= s.drop_last());
    }
}

/// Callees still to look at for the functions on the walk's stack.
spec fn remaining_callees(lists: Seq<Seq<u32>>, stack: Seq<(u32, usize)>) -> nat
    decreases stack.len(),
{
    if stack.len() == 0 {
        0
    } else {
        remaining_callees(lists, stack.drop_last()) + if stack.last().1 <= lists[stack.last().0 as int].len() {
            (lists[stack.last().0 as int].len() - stack.last().1) as nat
        } else {
            0nat
        }
    }
}

proof fn lemma_chain_extend(
    inference: InternalCallInference,
    cfg: ProvisionalCfg,
    ownership: Ownership,
    from: u32,
    f: u32,
    g: u32,
)
    requires
        call_reaches(inference, cfg, ownership, from, f),
        calls_into(inference, cfg, ownership, f, g),
    ensures
        call_reaches(inference, cfg, ownership, from, g),
{
    let p = choose|p: Seq<u32>| #[trigger] is_call_chain(inference, cfg, ownership, p) && p[0] == from && p.last() == f;
    let q = p.push(g);
    assert forall|t: int| 0 <= t < q.len() - 1 implies #[trigger] calls_into(inference, cfg, ownership, q[t], q[t + 1]) by {
        if t < p.len() - 1 {
            assert(calls_into(inference, cfg, ownership, p[t], p[t + 1]));
        }
    }
    assert(is_call_chain(inference, cfg, ownership, q));
}

proof fn lemma_chain_start(inference: InternalCallInference, cfg: ProvisionalCfg, ownership: Ownership, f: u32)
    ensures
        call_reaches(inference, cfg, ownership, f, f),
{
    let p = seq![f];
    assert(is_call_chain(inference, cfg, ownership, p));
}

/// Callees are function candidates.
proof fn lemma_callee_range(
    inference: InternalCallInference,
    cfg: ProvisionalCfg,
    ownership: Ownership,
    f: u32,
    g: u32,
)
    requires
        pipeline_ok(inference.source(), inference, cfg, ownership),
        calls_into(inference, cfg, ownership, f, g),
    ensures
        g < ownership.function_list().len(),
{
    let (b, k) = choose|b: int, k: int|
        0 <= b < cfg.call_lists().len() && ownership.owner_sets()[b].contains(f) && 0 <= k
            < cfg.call_lists()[b].len() && (#[trigger] inference.call_list()[cfg.call_lists()[b][k] as int]
            matches Some(c) && c.function == g);
    lemma_call_list_entry(inference, cfg, b, k);
}

/// Orders the functions so that each comes after all the functions it
/// calls, walking the call graph depth first from the root. Fails on a call
/// cycle reachable from the root, or when some function is not reachable.
#[verifier::rlimit(60)]
fn call_graph_postorder(
    inference: &InternalCallInference,
    cfg: &ProvisionalCfg,
    ownership: &Ownership,
) -> (r: Result<Vec<u32>, VerificationError>)
    requires
        pipeline_ok(inference.source(), *inference, *cfg, *ownership),
    ensures
        r matches Ok(p) ==> {
            &&& p@.len() == ownership.function_list().len()
            &&& p@.no_duplicates()
            &&& forall|t: int| 0 <= t < p@.len() ==> #[trigger] p@[t] < ownership.function_list().len()
            &&& forall|t: int, g: u32|
                0 <= t < p@.len() && #[trigger] calls_into(*inference, *cfg, *ownership, p@[t], g) ==> exists|u: int|
                    0 <= u < t && #[trigger] p@[u] == g
            &&& forall|g: u32|
                g < ownership.function_list().len() ==> #[trigger] call_reaches(
                    *inference,
                    *cfg,
                    *ownership,
                    ownership.root_id(),
                    g,
                )
            &&& p@.len() > 0 && p@.last() == ownership.root_id()
        },
        r == Err::<Vec<u32>, VerificationError>(VerificationError::UnreachableFunctionCandidate) ==> forall|f: u32|
            f < ownership.function_list().len() && #[trigger] call_reaches(*inference, *cfg, *ownership, ownership.root_id(), f)
                ==> !on_call_cycle(*inference, *cfg, *ownership, f),
        r matches Err(e) ==> (e matches VerificationError::RecursiveCall { function } && function
            < ownership.function_list().len() && call_reaches(*inference, *cfg, *ownership, ownership.root_id(), function)
            && on_call_cycle(*inference, *cfg, *ownership, function)) || (e == VerificationError::UnreachableFunctionCandidate
            && exists|f: u32| f < ownership.function_list().len() && !#[trigger] call_reaches(
                *inference,
                *cfg,
                *ownership,
                ownership.root_id(),
                f,
            )),
{
    let ghost inf = *inference;
    let ghost gr = *cfg;
    let ghost own = *ownership;
    let callees = callee_sets(inference, cfg, ownership);
    let n = ownership.functions().len();
    let root = ownership.root();
    let mut lists: Vec<Vec<u32>> = Vec::new();
    let mut f: usize = 0;
    while f < n
        invariant
            n == callees@.len(),
            f <= n,
            lists@.len() == f,
            forall|h: int| 0 <= h < f ==> (#[trigger] lists@[h])@.to_set() == callees@[h]@,
            forall|h: int| 0 <= h < f ==> crate::ordered::increasing(#[trigger] lists@[h]@),
        decreases n - f,
    {
        lists.push(sorted_members(&callees[f]));
        f = f + 1;
    }
    let ghost ls = lists@.map_values(|v: Vec<u32>| v@);
    proof {
        assert forall|h: int, g: u32| 0 <= h < n implies (#[trigger] ls[h].contains(g) <==> calls_into(inf, gr, own, h as u32, g)) by {
            assert(ls[h] == lists@[h]@);
            assert(ls[h].to_set().contains(g) <==> ls[h].contains(g));
        }
        assert forall|h: int, j: int| 0 <= h < n && 0 <= j < ls[h].len() implies #[trigger] ls[h][j] < n by {
            assert(ls[h].contains(ls[h][j]));
            lemma_callee_range(inf, gr, own, h as u32, ls[h][j]);
        }
    }
    let mut states: Vec<Visit> = Vec::new();
    let mut k: usize = 0;
    while k < n
        invariant
            k <= n,
            states@.len() == k,
            forall|h: int| 0 <= h < k ==> #[trigger] states@[h] == Visit::New,
        decreases n - k,
    {
        states.push(Visit::New);
        k = k + 1;
    }
    proof {
        lemma_chain_start(inf, gr, own, root);
        lemma_count_visits_update(states@, root as int, Visit::Active, Visit::New);
        lemma_count_visits_update(states@, root as int, Visit::Active, Visit::Done);
    }
    states.set(root as usize, Visit::Active);
    let mut stack: Vec<(u32, usize)> = vec![(root, 0usize)];
    let mut postorder: Vec<u32> = Vec::new();
    proof {
        assert(stack@[0] == (root, 0usize));
        assert(stack@.len() == 1);
        assert(stack@.last() == (root, 0usize));
        assert(stack@.drop_last() =~= Seq::<(u32, usize)>::empty());
        assert(remaining_callees(ls, stack@.drop_last()) == 0);
        assert forall|h: int| 0 <= h < n implies (#[trigger] states@[h] == Visit::Active <==> exists|m: int|
            0 <= m < stack@.len() && #[trigger] stack@[m].0 == h) by {
            if h == root {
                assert(stack@[0].0 == root);
            }
        }
    }
    while stack.len() > 0
        invariant
            pipeline_ok(inf.source(), inf, gr, own),
            inf == *inference,
            gr == *cfg,
            own == *ownership,
            n == own.function_list().len(),
            root == own.root_id(),
            root < n,
            n <= u32::MAX + 1,
            states@.len() == n ==> states@[root as int] != Visit::New,
            lists@.len() == n,
            ls == lists@.map_values(|v: Vec<u32>| v@),
            forall|h: int, g: u32| 0 <= h < n ==> (#[trigger] ls[h].contains(g) <==> calls_into(inf, gr, own, h as u32, g)),
            forall|h: int, j: int| 0 <= h < n && 0 <= j < ls[h].len() ==> #[trigger] ls[h][j] < n,
            states@.len() == n,
            postorder@.no_duplicates(),
            forall|t: int| 0 <= t < postorder@.len() ==> #[trigger] postorder@[t] < n,
            forall|h: int| 0 <= h < n ==> (#[trigger] states@[h] == Visit::Done <==> postorder@.contains(h as u32)),
            forall|h: int| 0 <= h < n ==> (#[trigger] states@[h] == Visit::Active <==> exists|m: int| 0 <= m < stack@.len() && #[trigger] stack@[m].0 == h),
            forall|m: int| 0 <= m < stack@.len() ==> #[trigger] stack@[m].0 < n && stack@[m].1 <= ls[stack@[m].0 as int].len(),
            forall|m1: int, m2: int| 0 <= m1 < m2 < stack@.len() ==> #[trigger] stack@[m1].0 != #[trigger] stack@[m2].0,
            stack@.len() > 0 ==> stack@[0].0 == root,
            forall|m: int| 1 <= m < stack@.len() ==> {
                &&& #[trigger] stack@[m - 1].1 >= 1
                &&& ls[stack@[m - 1].0 as int][stack@[m - 1].1 - 1] == stack@[m].0
            },
            forall|m: int, j: int|
                0 <= m < stack@.len() && 0 <= j < stack@[m].1 ==> states@[#[trigger] ls[stack@[m].0 as int][j] as int] == Visit::Done
                    || (m + 1 < stack@.len() && j == stack@[m].1 - 1 && stack@[m + 1].0 == ls[stack@[m].0 as int][j]),
            forall|h: int, g: u32| 0 <= h < n && states@[h] == Visit::Done && #[trigger] ls[h].contains(g) ==> states@[g as int] == Visit::Done,
            forall|t: int, g: u32|
                0 <= t < postorder@.len() && #[trigger] calls_into(inf, gr, own, postorder@[t], g) ==> exists|u: int|
                    0 <= u < t && #[trigger] postorder@[u] == g,
            forall|h: int| 0 <= h < n && #[trigger] states@[h] != Visit::New ==> call_reaches(inf, gr, own, root, h as u32),
            stack@.len() == 0 ==> postorder@.len() > 0 && postorder@.last() == root,
        decreases count_visits(states@, Visit::New), n - count_visits(states@, Visit::Done), remaining_callees(ls, stack@),
    {
        let top = stack.len() - 1;
        let (f, i) = stack[top];
        let list = &lists[f as usize];
        proof {
            assert(list@ == ls[f as int]);
        }
        if i < list.len() {
            let g = list[i];
            let ghost old_stack = stack@;
            stack.set(top, (f, i + 1));
            proof {
                assert(stack@.drop_last() =~= old_stack.drop_last());
                assert(ls[f as int].contains(g));
                assert forall|h: int| 0 <= h < n implies (#[trigger] states@[h] == Visit::Active <==> exists|m: int|
                    0 <= m < stack@.len() && #[trigger] stack@[m].0 == h) by {
                    if states@[h] == Visit::Active {
                        let m = choose|m: int| 0 <= m < old_stack.len() && #[trigger] old_stack[m].0 == h;
                        assert(stack@[m].0 == h);
                    }
                    if exists|m: int| 0 <= m < stack@.len() && #[trigger] stack@[m].0 == h {
                        let m = choose|m: int| 0 <= m < stack@.len() && #[trigger] stack@[m].0 == h;
                        assert(old_stack[m].0 == h);
                    }
                }
            }
            proof {
                assert(remaining_callees(ls, stack@) + 1 == remaining_callees(ls, old_stack));
                lemma_count_visits_le(states@, Visit::Done);
            }
            match states[g as usize] {
                Visit::Done => {},
                Visit::Active => {
                    proof {
                        let m = choose|m: int| 0 <= m < old_stack.len() && #[trigger] old_stack[m].0 == g;
                        let p = old_stack.subrange(m, old_stack.len() as int).map_values(|e: (u32, usize)| e.0).push(g);
                        assert forall|t: int| 0 <= t < p.len() - 1 implies #[trigger] calls_into(inf, gr, own, p[t], p[t + 1]) by {
                            if t < p.len() - 2 {
                                assert(p[t] == old_stack[m + t].0);
                                assert(p[t + 1] == old_stack[m + t + 1].0);
                                let mm = m + t + 1;
                                assert(ls[old_stack[mm - 1].0 as int][old_stack[mm - 1].1 - 1] == old_stack[mm].0);
                                assert(ls[old_stack[mm - 1].0 as int].contains(old_stack[mm].0));
                            } else {
                                assert(p[t] == old_stack[top as int].0);
                            }
                        }
                        assert(is_call_chain(inf, gr, own, p));
                        assert(p[0] == g);
                        assert(states@[g as int] != Visit::New);
                    }
                    return Err(VerificationError::RecursiveCall { function: g });
                },
                Visit::New => {
                    proof {
                        lemma_count_visits_update(states@, g as int, Visit::Active, Visit::New);
                        lemma_count_visits_update(states@, g as int, Visit::Active, Visit::Done);
                        lemma_chain_extend(inf, gr, own, root, f, g);
                    }
                    let ghost states_before = states@;
                    let ghost stack_before = stack@;
                    states.set(g as usize, Visit::Active);
                    stack.push((g, 0));
                    proof {
                        lemma_count_visits_le(states@, Visit::Done);
                        assert forall|h: int| 0 <= h < n implies (#[trigger] states@[h] == Visit::Active <==> exists|m: int|
                            0 <= m < stack@.len() && #[trigger] stack@[m].0 == h) by {
                            if h == g {
                                assert(stack@[stack@.len() - 1].0 == g);
                            } else {
                                if states@[h] == Visit::Active {
                                    assert(states_before[h] == Visit::Active);
                                    let m = choose|m: int| 0 <= m < old_stack.len() && #[trigger] old_stack[m].0 == h;
                                    assert(stack_before[m].0 == old_stack[m].0);
                                    assert(stack@[m].0 == h);
                                }
                                if exists|m: int| 0 <= m < stack@.len() && #[trigger] stack@[m].0 == h {
                                    let m = choose|m: int| 0 <= m < stack@.len() && #[trigger] stack@[m].0 == h;
                                    assert(m < stack_before.len());
                                    assert(stack_before[m].0 == h);
                                }
                            }
                        }
                    }
                },
            }
        } else {
            let ghost states_before = states@;
            let ghost stack_before = stack@;
            let ghost post_before = postorder@;
            proof {
                lemma_count_visits_update(states@, f as int, Visit::Done, Visit::New);
                lemma_count_visits_update(states@, f as int, Visit::Done, Visit::Done);
                assert(states@[f as int] == Visit::Active) by {
                    assert(stack@[top as int].0 == f);
                }
                assert(!post_before.contains(f));
            }
            states.set(f as usize, Visit::Done);
            postorder.push(f);
            stack.pop();
            proof {
                if stack@.len() == 0 {
                    assert(top == 0);
                    assert(f == stack_before[0].0);
                    assert(postorder@.last() == f);
                }
                lemma_count_visits_le(states@, Visit::Done);
                lemma_push_keeps(post_before, f);
                assert(stack@ =~= stack_before.drop_last());
                assert forall|x: u32| #[trigger] postorder@.contains(x) implies post_before.contains(x) || x == f by {
                    let t = choose|t: int| 0 <= t < postorder@.len() && postorder@[t] == x;
                    if t < post_before.len() {
                        assert(post_before[t] == x);
                    }
                }
                assert forall|h: int| 0 <= h < n implies (#[trigger] states@[h] == Visit::Done <==> postorder@.contains(h as u32)) by {
                    if h != f {
                        assert(states@[h] == states_before[h]);
                    }
                }
                assert forall|h: int| 0 <= h < n implies (#[trigger] states@[h] == Visit::Active <==> exists|m: int|
                    0 <= m < stack@.len() && #[trigger] stack@[m].0 == h) by {
                    if h == f {
                        if exists|m: int| 0 <= m < stack@.len() && #[trigger] stack@[m].0 == h {
                            let m = choose|m: int| 0 <= m < stack@.len() && #[trigger] stack@[m].0 == h;
                            assert(stack_before[m].0 == h);
                            assert(stack_before[top as int].0 == h);
                        }
                    } else {
                        assert(states@[h] == states_before[h]);
                        if states@[h] == Visit::Active {
                            let m = choose|m: int| 0 <= m < stack_before.len() && #[trigger] stack_before[m].0 == h;
                            assert(m != top);
                            assert(stack@[m].0 == h);
                        }
                        if exists|m: int| 0 <= m < stack@.len() && #[trigger] stack@[m].0 == h {
                            let m = choose|m: int| 0 <= m < stack@.len() && #[trigger] stack@[m].0 == h;
                            assert(stack_before[m].0 == h);
                        }
                    }
                }
                assert forall|t: int, g: u32|
                    0 <= t < postorder@.len() && #[trigger] calls_into(inf, gr, own, postorder@[t], g) implies exists|u: int|
                        0 <= u < t && #[trigger] postorder@[u] == g by {
                    if t < post_before.len() {
                        assert(postorder@[t] == post_before[t]);
                        let u = choose|u: int| 0 <= u < t && #[trigger] post_before[u] == g;
                        assert(postorder@[u] == g);
                    } else {
                        assert(postorder@[t] == f);
                        assert(ls[f as int].contains(g));
                        let j = choose|j: int| 0 <= j < ls[f as int].len() && ls[f as int][j] == g;
                        assert(states_before[ls[stack_before[top as int].0 as int][j] as int] == Visit::Done);
                        assert(post_before.contains(g));
                        let u = choose|u: int| 0 <= u < post_before.len() && post_before[u] == g;
                        assert(postorder@[u] == g);
                    }
                }
            }
        }
    }
    proof {
        assert forall|h: int| 0 <= h < n implies #[trigger] states@[h] != Visit::Active by {}
        assert(states@[root as int] == Visit::Done);
    }
    if postorder.len() != n {
        proof {
            lemma_missing_function(postorder@, n as int);
            let h = choose|h: u32| h < n && !postorder@.contains(h);
            assert(states@[h as int] != Visit::Done);
            if call_reaches(inf, gr, own, root, h) {
                let p = choose|p: Seq<u32>| #[trigger] is_call_chain(inf, gr, own, p) && p[0] == root && p.last() == h;
                lemma_chain_done(inf, gr, own, ls, states@, p, p.len() - 1);
            }
        }
        proof {
            assert forall|f: u32| f < n && #[trigger] call_reaches(inf, gr, own, root, f) implies !on_call_cycle(inf, gr, own, f) by {
                let p = choose|p: Seq<u32>| #[trigger] is_call_chain(inf, gr, own, p) && p[0] == root && p.last() == f;
                lemma_chain_done(inf, gr, own, ls, states@, p, p.len() - 1);
                if on_call_cycle(inf, gr, own, f) {
                    let q = choose|q: Seq<u32>|
                        #[trigger] is_call_chain(inf, gr, own, q) && q.len() >= 2 && q[0] == f && q.last() == f;
                    assert(postorder@.contains(f));
                    let t0 = choose|u: int| 0 <= u < postorder@.len() && postorder@[u] == f;
                    lemma_chain_positions(inf, gr, own, postorder@, q, q.len() - 1, t0);
                    let u = choose|u: int| 0 <= u <= t0 - (q.len() - 1) && postorder@[u] == q[q.len() - 1];
                    assert(postorder@[u] == postorder@[t0]);
                }
            }
        }
        return Err(VerificationError::UnreachableFunctionCandidate);
    }
    proof {
        assert forall|g: u32| g < n implies #[trigger] call_reaches(inf, gr, own, root, g) by {
            lemma_all_listed(postorder@, n as int, g as int);
            let u = choose|u: int| 0 <= u < n && postorder@[u] == g;
            assert(postorder@.contains(g));
            assert(states@[g as int] == Visit::Done);
        }
    }
    Ok(postorder)
}

proof fn lemma_count_visits_le(s: Seq<Visit>, v: Visit)
    ensures
        count_visits(s, v) <= s.len(),
    decreases s.len(),
{
    if s.len() > 0 {
        lemma_count_visits_le(s.drop_last(), v);
    }
}

/// Distinct values below `n`, fewer than `n` of them, miss some value.
proof fn lemma_missing_function(s: Seq<u32>, n: int)
    requires
        s.no_duplicates(),
        forall|t: int| 0 <= t < s.len() ==> #[trigger] s[t] < n,
        s.len() != n,
        0 <= n <= u32::MAX + 1,
    ensures
        exists|h: u32| h < n && !s.contains(h),
{
    if forall|h: u32| h < n ==> s.contains(h) {
        s.unique_seq_to_set();
        let f = |h: u32| h as int;
        let range = vstd::set_lib::set_int_range(0, n);
        vstd::set_lib::lemma_int_range(0, n);
        assert forall|x: int| range.contains(x) implies s.to_set().map(f).contains(x) by {
            let h = x as u32;
            assert(0 <= x < n);
            assert(h as int == x);
            assert(s.contains(h));
            assert(s.to_set().contains(h));
            assert(f(h) == x);
        }
        assert forall|x: int| s.to_set().map(f).contains(x) implies range.contains(x) by {
            let h = choose|h: u32| s.to_set().contains(h) && f(h) == x;
            let t = choose|t: int| 0 <= t < s.len() && s[t] == h;
        }
        assert(s.to_set().map(f) =~= range);
        assert(vstd::relations::injective_on(f, s.to_set()));
        vstd::set_lib::lemma_map_size(s.to_set(), range, f);
        assert(s.len() == n);
    }
}

/// Every function along a call chain from a finished function is finished.
proof fn lemma_chain_done(
    inf: InternalCallInference,
    gr: ProvisionalCfg,
    own: Ownership,
    ls: Seq<Seq<u32>>,
    states: Seq<Visit>,
    p: Seq<u32>,
    t: int,
)
    requires
        is_call_chain(inf, gr, own, p),
        0 <= t < p.len(),
        p[0] < states.len(),
        states[p[0] as int] == Visit::Done,
        ls.len() == states.len(),
        forall|h: int, g: u32| 0 <= h < states.len() ==> (#[trigger] ls[h].contains(g) <==> calls_into(inf, gr, own, h as u32, g)),
        forall|h: int, j: int| 0 <= h < states.len() && 0 <= j < ls[h].len() ==> #[trigger] ls[h][j] < states.len(),
        forall|h: int, g: u32| 0 <= h < states.len() && states[h] == Visit::Done && #[trigger] ls[h].contains(g) ==> states[g as int] == Visit::Done,
    ensures
        p[t] < states.len(),
        states[p[t] as int] == Visit::Done,
    decreases t,
{
    if t > 0 {
        let u = t - 1;
        lemma_chain_done(inf, gr, own, ls, states, p, u);
        assert(calls_into(inf, gr, own, p[u], p[u + 1]));
        assert(ls[p[u] as int].contains(p[u + 1]));
        let j = choose|j: int| 0 <= j < ls[p[u] as int].len() && ls[p[u] as int][j] == p[u + 1];
    }
}

/// The verified program: each function's verification, the order they were
/// verified in, and which pushes feed jumps and returns.
pub struct Verification {
    functions: Vec<FunctionVerification>,
    postorder: Vec<u32>,
    control_pushes: BTreeSet<(u32, u32)>,
    return_pushes: BTreeMap<(u32, u32), u32>,
    return_push_sites: BTreeSet<(u32, u32)>,
}

impl Verification {
    pub closed spec fn function_list(&self) -> Seq<FunctionVerification> {
        self.functions@
    }

    pub closed spec fn postorder_list(&self) -> Seq<u32> {
        self.postorder@
    }

    pub closed spec fn control_push_set(&self) -> Set<(u32, u32)> {
        self.control_pushes@
    }

    pub closed spec fn return_push_map(&self) -> Map<(u32, u32), u32> {
        self.return_pushes@
    }

    pub closed spec fn return_push_set(&self) -> Set<(u32, u32)> {
        self.return_push_sites@
    }

    /// The verification of `function`.
    pub fn function(&self, function: u32) -> (r: &FunctionVerification)
        requires
            function < self.function_list().len(),
        ensures
            *r == self.function_list()[function as int],
    {
        &self.functions[function as usize]
    }

    /// The functions, callees before callers.
    pub fn postorder(&self) -> (r: &[u32])
        ensures
            r@ == self.postorder_list(),
    {
        self.postorder.as_slice()
    }

    /// `instruction` pushes a jump destination in `function`.
    pub fn is_control_push(&self, function: u32, instruction: u32) -> (r: bool)
        ensures
            r == self.control_push_set().contains((function, instruction)),
    {
        self.control_pushes.contains(&(function, instruction))
    }

    /// The push of the return destination of `call` in `function`.
    pub fn return_push(&self, function: u32, call: u32) -> (r: Option<u32>)
        ensures
            r == (if self.return_push_map().contains_key((function, call)) {
                Some(self.return_push_map()[(function, call)])
            } else {
                None::<u32>
            }),
    {
        match self.return_pushes.get(&(function, call)) {
            Some(p) => Some(*p),
            None => None,
        }
    }

    /// `instruction` pushes the return destination of some call in `function`.
    pub fn is_return_push(&self, function: u32, instruction: u32) -> (r: bool)
        ensures
            r == self.return_push_set().contains((function, instruction)),
    {
        self.return_push_sites.contains(&(function, instruction))
    }

    /// The stack at the entry of `block` in `function`, if it is reached.
    pub fn entry_state(&self, function: u32, block: u32) -> (r: Option<&SymbolicStack>)
        requires
            function < self.function_list().len(),
            block < self.function_list()[function as int].states().len(),
        ensures
            r matches Some(st) ==> self.function_list()[function as int].states()[block as int] == Some(*st),
            r is None <==> self.function_list()[function as int].states()[block as int] is None,
    {
        match &self.functions[function as usize].entry_states[block as usize] {
            Some(st) => Some(st),
            None => None,
        }
    }
}

/// Some call of `x.0` has its return destination pushed by `x.1`.
pub open spec fn is_push_site(map: Map<(u32, u32), u32>, x: (u32, u32)) -> bool {
    exists|key: (u32, u32)| map.contains_key(key) && key.0 == x.0 && map[key] == x.1
}

/// `v` verifies the program: functions come callees first, each function has
/// its candidate's kind of arity, and every block a function owns has a stack
/// closed under the block's successors.
pub closed spec fn verification_holds(
    ins: Seq<Instruction>,
    inference: InternalCallInference,
    cfg: ProvisionalCfg,
    ownership: Ownership,
    v: Verification,
) -> bool {
    let n = ownership.function_list().len();
    &&& v.postorder_list().len() == n
    &&& v.postorder_list().no_duplicates()
    &&& forall|t: int| 0 <= t < n ==> #[trigger] v.postorder_list()[t] < n
    &&& forall|t: int, g: u32|
        0 <= t < n && #[trigger] calls_into(inference, cfg, ownership, v.postorder_list()[t], g) ==> exists|u: int|
            0 <= u < t && #[trigger] v.postorder_list()[u] == g
    &&& forall|f: u32| f < n ==> #[trigger] call_reaches(inference, cfg, ownership, ownership.root_id(), f)
    &&& n > 0 && v.postorder_list().last() == ownership.root_id()
    &&& v.function_list().len() == n
    &&& forall|x: (u32, u32)| #[trigger] v.return_push_set().contains(x) <==> is_push_site(v.return_push_map(), x)
    &&& forall|f: int|
        0 <= f < n ==> {
            let fv = #[trigger] v.function_list()[f];
            &&& (fv.arity is Root) == (ownership.function_list()[f].kind == crate::ownership::FunctionKind::Root)
            &&& fv.arity.consistent()
            &&& fv.states().len() == inference.blocks_spec().block_list().len()
            &&& entries_ok(ins, fv.states())
            &&& states_closed(cfg, ownership, f as u32, fv.states())
            &&& forall|b: int|
                0 <= b < fv.states().len() ==> (ownership.owner_sets()[b].contains(f as u32) <==> #[trigger] fv.states()[b] is Some)
            &&& function_settled(ins, inference, cfg, ownership, f as u32, verified_arities(v), fv)
        }
}

/// A verified program lists every function once, callees before their
/// callers, and ends with the root.
pub proof fn lemma_verified_postorder(
    ins: Seq<Instruction>,
    inference: InternalCallInference,
    cfg: ProvisionalCfg,
    ownership: Ownership,
    v: Verification,
)
    requires
        verification_holds(ins, inference, cfg, ownership, v),
        ownership.function_list().len() <= u32::MAX + 1,
    ensures
        v.postorder_list().len() == ownership.function_list().len(),
        v.postorder_list().no_duplicates(),
        forall|f: u32| f < ownership.function_list().len() <==> #[trigger] v.postorder_list().contains(f),
        forall|t: int, g: u32|
            0 <= t < v.postorder_list().len() && #[trigger] calls_into(inference, cfg, ownership, v.postorder_list()[t], g)
                ==> exists|u: int| 0 <= u < t && #[trigger] v.postorder_list()[u] == g,
        v.postorder_list().len() > 0,
        v.postorder_list().last() == ownership.root_id(),
{
    let post = v.postorder_list();
    let n = ownership.function_list().len();
    assert forall|f: u32| f < n <==> #[trigger] post.contains(f) by {
        if f < n {
            lemma_all_listed(post, n as int, f as int);
        }
        if post.contains(f) {
            let t = choose|t: int| 0 <= t < post.len() && post[t] == f;
        }
    }
}

/// Every function of a verified program is reached from the root through calls.
pub proof fn lemma_verified_functions_reachable(
    ins: Seq<Instruction>,
    inference: InternalCallInference,
    cfg: ProvisionalCfg,
    ownership: Ownership,
    v: Verification,
    f: u32,
)
    requires
        verification_holds(ins, inference, cfg, ownership, v),
        f < ownership.function_list().len(),
    ensures
        call_reaches(inference, cfg, ownership, ownership.root_id(), f),
{
}

/// No function of a verified program reaches itself through calls.
pub proof fn lemma_verified_calls_acyclic(
    ins: Seq<Instruction>,
    inference: InternalCallInference,
    cfg: ProvisionalCfg,
    ownership: Ownership,
    v: Verification,
    f: u32,
)
    requires
        verification_holds(ins, inference, cfg, ownership, v),
        f < ownership.function_list().len(),
        ownership.function_list().len() <= u32::MAX + 1,
    ensures
        !on_call_cycle(inference, cfg, ownership, f),
{
    lemma_topological_acyclic(inference, cfg, ownership, v.postorder_list(), f);
}

/// A list of all functions in which callees come before callers leaves no
/// function on a call cycle.
proof fn lemma_topological_acyclic(
    inference: InternalCallInference,
    cfg: ProvisionalCfg,
    ownership: Ownership,
    post: Seq<u32>,
    f: u32,
)
    requires
        post.len() == ownership.function_list().len(),
        post.len() <= u32::MAX + 1,
        post.no_duplicates(),
        forall|t: int| 0 <= t < post.len() ==> #[trigger] post[t] < post.len(),
        forall|t: int, g: u32|
            0 <= t < post.len() && #[trigger] calls_into(inference, cfg, ownership, post[t], g) ==> exists|u: int|
                0 <= u < t && #[trigger] post[u] == g,
        f < post.len(),
    ensures
        !on_call_cycle(inference, cfg, ownership, f),
{
    let n = post.len();
    if on_call_cycle(inference, cfg, ownership, f) {
        let p = choose|p: Seq<u32>|
            #[trigger] is_call_chain(inference, cfg, ownership, p) && p.len() >= 2 && p[0] == f && p.last() == f;
        lemma_all_listed(post, n as int, f as int);
        let t0 = choose|u: int| 0 <= u < n && post[u] == f;
        lemma_chain_positions(inference, cfg, ownership, post, p, p.len() - 1, t0);
        let u = choose|u: int| 0 <= u <= t0 - (p.len() - 1) && post[u] == p[p.len() - 1];
        assert(post[u] == post[t0]);
    }
}

/// Along a call chain that starts at position `t0` of a list where callees
/// come before callers, the `k`-th function comes at least `k` places
/// earlier.
proof fn lemma_chain_positions(
    inference: InternalCallInference,
    cfg: ProvisionalCfg,
    ownership: Ownership,
    post: Seq<u32>,
    p: Seq<u32>,
    k: int,
    t0: int,
)
    requires
        is_call_chain(inference, cfg, ownership, p),
        0 <= k < p.len(),
        0 <= t0 < post.len(),
        post[t0] == p[0],
        forall|t: int, g: u32|
            0 <= t < post.len() && #[trigger] calls_into(inference, cfg, ownership, post[t], g) ==> exists|u: int|
                0 <= u < t && #[trigger] post[u] == g,
    ensures
        exists|u: int| 0 <= u <= t0 - k && post[u] == p[k],
    decreases k,
{
    if k > 0 {
        lemma_chain_positions(inference, cfg, ownership, post, p, k - 1, t0);
        let u = choose|u: int| 0 <= u <= t0 - (k - 1) && post[u] == p[k - 1];
        let t = k - 1;
        assert(calls_into(inference, cfg, ownership, p[t], p[t + 1]));
        assert(p[t + 1] == p[k]);
        assert(calls_into(inference, cfg, ownership, post[u], p[k]));
        let w = choose|w: int| 0 <= w < u && #[trigger] post[w] == p[k];
        assert(0 <= w <= t0 - k && post[w] == p[k]);
    }
}

/// The arity of each verified function.
pub open spec fn verified_arities(v: Verification) -> Seq<Option<FunctionArity>> {
    v.function_list().map_values(|fv: FunctionVerification| Some(fv.spec_arity()))
}

/// The verification `fv` of `function` is a fixed point of running its
/// blocks: the stack kept at its entry covers the stack it starts with,
/// every kept stack is normalized, every block with a kept stack runs from
/// it and hands each successor a stack that the successor's kept stack
/// covers, and a returning function's arity is the one every return
/// implies.
pub open spec fn function_settled(
    ins: Seq<Instruction>,
    inference: InternalCallInference,
    cfg: ProvisionalCfg,
    ownership: Ownership,
    function: u32,
    arities: Seq<Option<FunctionArity>>,
    fv: FunctionVerification,
) -> bool {
    let kind = ownership.function_list()[function as int].kind;
    &&& fv.states()[ownership.function_list()[function as int].entry as int] matches Some(s) && included(
        initial_model(kind != crate::ownership::FunctionKind::Root),
        s.model(),
    )
    &&& states_normal(fv.states())
    &&& forall|b: int| 0 <= b < fv.states().len() ==> #[trigger] block_settled(ins, inference, cfg, function, arities, fv.states(), b)
    &&& fv.spec_arity() matches FunctionArity::Returning(a) ==> {
        &&& exists|b: int| 0 <= b < fv.states().len() && #[trigger] block_return(ins, inference, cfg, function, arities, fv.states(), b) == Some(a)
        &&& forall|b: int| 0 <= b < fv.states().len() && (#[trigger] block_return(ins, inference, cfg, function, arities, fv.states(), b)) is Some
            ==> block_return(ins, inference, cfg, function, arities, fv.states(), b) == Some(a)
    }
}

/// Verifies every function, callees first, and checks that no return
/// destination is used as a value.
#[verifier::rlimit(100)]
#[verifier::spinoff_prover]
pub fn verify(
    decoded: &DecodedBytecode,
    inference: &InternalCallInference,
    cfg: &ProvisionalCfg,
    ownership: &Ownership,
) -> (r: Result<Verification, VerificationError>)
    requires
        decoded.wf(),
        pipeline_ok(decoded.instruction_list(), *inference, *cfg, *ownership),
    ensures
        r matches Ok(v) ==> verification_holds(decoded.instruction_list(), *inference, *cfg, *ownership, v),
        r matches Err(e) ==> (e matches VerificationError::RecursiveCall { function } && on_call_cycle(
            *inference,
            *cfg,
            *ownership,
            function,
        )) || (e == VerificationError::UnreachableFunctionCandidate && exists|f: u32|
            f < ownership.function_list().len() && !#[trigger] call_reaches(
                *inference,
                *cfg,
                *ownership,
                ownership.root_id(),
                f,
            )) || (exists|f: u32, arities: Seq<Option<FunctionArity>>| f < ownership.function_list().len() && #[trigger] function_error_facts(decoded.instruction_list(), *inference, *cfg, *ownership, f, arities, e))
            || (e matches VerificationError::ReturnDestinationUsedSemantically { call, push } && exists|v: Verification|
            verification_holds(decoded.instruction_list(), *inference, *cfg, *ownership, v) && exists|key: (u32, u32)|
                #[trigger] v.return_push_map().contains_key(key) && key.1 == call && v.return_push_map()[key] == push
                    && push_used_semantically(decoded.instruction_list(), *inference, *cfg, *ownership, key.0, push)),
        (exists|f: u32|
            f < ownership.function_list().len() && #[trigger] call_reaches(
                *inference,
                *cfg,
                *ownership,
                ownership.root_id(),
                f,
            ) && on_call_cycle(*inference, *cfg, *ownership, f)) ==> r matches Err(VerificationError::RecursiveCall { .. }),
        (forall|f: u32|
            f < ownership.function_list().len() && #[trigger] call_reaches(
                *inference,
                *cfg,
                *ownership,
                ownership.root_id(),
                f,
            ) ==> !on_call_cycle(*inference, *cfg, *ownership, f)) && (exists|f: u32|
            f < ownership.function_list().len() && !#[trigger] call_reaches(
                *inference,
                *cfg,
                *ownership,
                ownership.root_id(),
                f,
            )) ==> r == Err::<Verification, VerificationError>(VerificationError::UnreachableFunctionCandidate),
        ((forall|f: u32|
            f < ownership.function_list().len() ==> #[trigger] call_reaches(
                *inference,
                *cfg,
                *ownership,
                ownership.root_id(),
                f,
            ) && !on_call_cycle(*inference, *cfg, *ownership, f)) && (forall|
            f: u32,
            arities: Seq<Option<FunctionArity>>,
            e: VerificationError,
        |
            f < ownership.function_list().len() ==> !#[trigger] function_error_facts(
                decoded.instruction_list(),
                *inference,
                *cfg,
                *ownership,
                f,
                arities,
                e,
            )) && (forall|f: u32, push: u32|
            !#[trigger] push_used_semantically(decoded.instruction_list(), *inference, *cfg, *ownership, f, push)))
            ==> r is Ok,
{
    let ghost ins = decoded.instruction_list();
    let postorder = match call_graph_postorder(inference, cfg, ownership) {
        Ok(p) => p,
        Err(e) => {
            return Err(e);
        },
    };
    proof {
        assert forall|f: u32| f < ownership.function_list().len() implies !on_call_cycle(*inference, *cfg, *ownership, f) by {
            lemma_topological_acyclic(*inference, *cfg, *ownership, postorder@, f);
        }
    }
    let n = ownership.functions().len();
    let mut functions: Vec<Option<FunctionVerification>> = Vec::new();
    let mut k: usize = 0;
    while k < n
        invariant
            k <= n,
            functions@.len() == k,
            forall|g: int| 0 <= g < k ==> #[trigger] functions@[g] is None,
        decreases n - k,
    {
        functions.push(None);
        k = k + 1;
    }
    let mut control_pushes: BTreeSet<(u32, u32)> = BTreeSet::new();
    let mut return_pushes: BTreeMap<(u32, u32), u32> = BTreeMap::new();
    let mut semantic_constant_uses: BTreeSet<(u32, u32)> = BTreeSet::new();
    let mut index: usize = 0;
    proof {
        postorder@.unique_seq_to_set();
        reveal(uses_justified);
    }
    while index < postorder.len()
        invariant
            uses_justified(ins, *inference, *cfg, *ownership, semantic_constant_uses@),
            forall|f: u32| f < ownership.function_list().len() ==> !#[trigger] on_call_cycle(*inference, *cfg, *ownership, f),
            forall|f: u32| f < ownership.function_list().len() ==> #[trigger] call_reaches(*inference, *cfg, *ownership, ownership.root_id(), f),
            decoded.wf(),
            ins == decoded.instruction_list(),
            pipeline_ok(ins, *inference, *cfg, *ownership),
            n == ownership.function_list().len(),
            postorder@.len() == n,
            postorder@.no_duplicates(),
            forall|t: int| 0 <= t < n ==> #[trigger] postorder@[t] < n,
            forall|t: int, g: u32|
                0 <= t < n && #[trigger] calls_into(*inference, *cfg, *ownership, postorder@[t], g) ==> exists|u: int|
                    0 <= u < t && #[trigger] postorder@[u] == g,
            index <= n,
            functions@.len() == n,
            forall|g: int| 0 <= g < n ==> (#[trigger] functions@[g] is Some <==> exists|u: int| 0 <= u < index && postorder@[u] == g),
            callee_arities_ok(functions@),
            forall|g: int|
                0 <= g < n ==> (#[trigger] functions@[g] matches Some(fv) ==> {
                    &&& (fv.arity is Root) == (ownership.function_list()[g].kind == crate::ownership::FunctionKind::Root)
                    &&& fv.arity.consistent()
                    &&& fv.states().len() == inference.blocks_spec().block_list().len()
                    &&& entries_ok(ins, fv.states())
                    &&& fv.states()[ownership.function_list()[g].entry as int] is Some
                    &&& states_closed(*cfg, *ownership, g as u32, fv.states())
                    &&& function_settled(ins, *inference, *cfg, *ownership, g as u32, arities_of(functions@), fv)
                }),
        decreases n - index,
    {
        let function = postorder[index];
        proof {
            assert forall|g: u32| #[trigger] calls_into(*inference, *cfg, *ownership, function, g) implies g < functions@.len()
                && functions@[g as int] is Some by {
                let u = choose|u: int| 0 <= u < index && #[trigger] postorder@[u] == g;
                lemma_callee_range(*inference, *cfg, *ownership, function, g);
            }
        }
        let verification = match verify_function(
            function,
            decoded,
            inference,
            cfg,
            ownership,
            &functions,
            &mut control_pushes,
            &mut return_pushes,
            &mut semantic_constant_uses,
        ) {
            Ok(v) => v,
            Err(e) => {
                return Err(e);
            },
        };
        let ghost before = functions@;
        functions.set(function as usize, Some(verification));
        proof {
            assert(before[function as int] is None) by {
                if before[function as int] is Some {
                    let u = choose|u: int| 0 <= u < index && postorder@[u] == function;
                    assert(postorder@[u] == postorder@[index as int]);
                }
            }
            assert forall|g: int| 0 <= g < n implies (#[trigger] functions@[g] is Some <==> exists|u: int| 0 <= u < index + 1 && postorder@[u] == g) by {
                if g == function {
                    assert(postorder@[index as int] == g);
                } else {
                    assert(functions@[g] == before[g]);
                    if exists|u: int| 0 <= u < index + 1 && postorder@[u] == g {
                        let u = choose|u: int| 0 <= u < index + 1 && postorder@[u] == g;
                        assert(u != index);
                    }
                }
            }
            assert(callee_arities_ok(functions@)) by {
                assert forall|g: int| 0 <= g < functions@.len() implies (#[trigger] functions@[g] matches Some(v) ==> v.arity.consistent()) by {
                    if g != function {
                        assert(functions@[g] == before[g]);
                    }
                }
            }
            let a1 = arities_of(before);
            let a2 = arities_of(functions@);
            assert forall|g: int| 0 <= g < n && #[trigger] functions@[g] is Some implies function_settled(
                ins,
                *inference,
                *cfg,
                *ownership,
                g as u32,
                a2,
                functions@[g]->0,
            ) by {
                let fv = functions@[g]->0;
                assert forall|h: u32| #[trigger] calls_into(*inference, *cfg, *ownership, g as u32, h) implies a1[h as int] == a2[h as int] by {
                    lemma_callee_range(*inference, *cfg, *ownership, g as u32, h);
                    if h == function {
                        if g == function {
                            let u = choose|u: int| 0 <= u < index && #[trigger] postorder@[u] == h;
                            assert(postorder@[u] == postorder@[index as int]);
                        } else {
                            assert(before[g] is Some);
                            let ug = choose|u: int| 0 <= u < index && postorder@[u] == g;
                            assert(calls_into(*inference, *cfg, *ownership, postorder@[ug], h));
                            let u = choose|u: int| 0 <= u < ug && #[trigger] postorder@[u] == h;
                            assert(postorder@[u] == postorder@[index as int]);
                        }
                    } else {
                        assert(functions@[h as int] == before[h as int]);
                    }
                }
                if g != function {
                    assert(functions@[g] == before[g]);
                }
                lemma_settled_transport(ins, *inference, *cfg, *ownership, g as u32, a1, a2, fv);
            }
        }
        index = index + 1;
    }
    let mut return_push_sites: BTreeSet<(u32, u32)> = BTreeSet::new();
    let mut misused: Option<(u32, u32)> = None;
    for entry in it: return_pushes.iter()
        invariant
            it.seq() == vstd::std_specs::btree::spec_btree_map_iter(&return_pushes).remaining(),
            forall|x: (u32, u32)| #[trigger] return_push_sites@.contains(x) <==> exists|t: int|
                0 <= t < it.index() && (*it.seq()[t].0).0 == x.0 && *it.seq()[t].1 == x.1,
            misused matches Some(m) ==> exists|key: (u32, u32)| #[trigger] return_pushes@.contains_key(key) && key.1 == m.0
                && return_pushes@[key] == m.1 && semantic_constant_uses@.contains((key.0, m.1)),
    {
        let (site, push_ref) = entry;
        let function = site.0;
        let call = site.1;
        let push = *push_ref;
        proof {
            let v = it.seq();
            assert(vstd::std_specs::btree::spec_btree_map_iter(&return_pushes).remaining().contains(v[it.index() as int]));
            assert(return_pushes@.contains_key(*site) && return_pushes@[*site] == push);
        }
        if misused.is_none() && semantic_constant_uses.contains(&(function, push)) {
            misused = Some((call, push));
        }
        let ghost before = return_push_sites@;
        return_push_sites.insert((function, push));
        proof {
            assert forall|x: (u32, u32)| #[trigger] return_push_sites@.contains(x) <==> exists|t: int|
                0 <= t < it.index() + 1 && (*it.seq()[t].0).0 == x.0 && *it.seq()[t].1 == x.1 by {
                if x == (function, push) {
                    assert((*it.seq()[it.index()].0).0 == x.0 && *it.seq()[it.index()].1 == x.1);
                }
                if exists|t: int| 0 <= t < it.index() + 1 && (*it.seq()[t].0).0 == x.0 && *it.seq()[t].1 == x.1 {
                    let t = choose|t: int| 0 <= t < it.index() + 1 && (*it.seq()[t].0).0 == x.0 && *it.seq()[t].1 == x.1;
                    if t < it.index() {
                        assert(before.contains(x));
                    }
                }
            }
        }
    }
    proof {
        let v = vstd::std_specs::btree::spec_btree_map_iter(&return_pushes).remaining();
        assert forall|x: (u32, u32)| #[trigger] return_push_sites@.contains(x) <==> is_push_site(return_pushes@, x) by {
            if return_push_sites@.contains(x) {
                let t = choose|t: int| 0 <= t < v.len() && (*v[t].0).0 == x.0 && *v[t].1 == x.1;
                assert(return_pushes@.contains_key(*v[t].0) && return_pushes@[*v[t].0] == *v[t].1);
            }
            if exists|key: (u32, u32)| return_pushes@.contains_key(key) && key.0 == x.0 && return_pushes@[key] == x.1 {
                let key = choose|key: (u32, u32)| return_pushes@.contains_key(key) && key.0 == x.0 && return_pushes@[key] == x.1;
                assert(v.contains((&key, &return_pushes@[key])));
                let t = choose|t: int| 0 <= t < v.len() && v[t] == (&key, &return_pushes@[key]);
                assert((*v[t].0).0 == x.0 && *v[t].1 == x.1);
            }
        }
    }
    let ghost finished = functions@;
    let mut verified: Vec<FunctionVerification> = Vec::new();
    let mut slots = functions;
    let mut g: usize = 0;
    proof {
        assert forall|h: int| 0 <= h < n implies #[trigger] slots@[h] is Some by {
            assert(postorder@.to_set().len() == n);
            lemma_all_listed(postorder@, n as int, h);
        }
    }
    while g < n
        invariant
            g <= n,
            slots@.len() == n,
            finished.len() == n,
            verified@.len() == g,
            forall|h: int| g <= h < n ==> #[trigger] slots@[h] == finished[h],
            forall|h: int| 0 <= h < n ==> #[trigger] finished[h] is Some,
            forall|h: int| 0 <= h < g ==> Some(#[trigger] verified@[h]) == finished[h],
        decreases n - g,
    {
        let mut slot: Option<FunctionVerification> = None;
        slots.set_and_swap(g, &mut slot);
        match slot {
            Some(fv) => {
                verified.push(fv);
            },
            None => {
                proof {
                    assert(false);
                }
            },
        }
        g = g + 1;
    }
    let r = Verification { functions: verified, postorder, control_pushes, return_pushes, return_push_sites };
    proof {
        assert forall|f: int| 0 <= f < n implies {
            let fv = #[trigger] r.function_list()[f];
            &&& (fv.arity is Root) == (ownership.function_list()[f].kind == crate::ownership::FunctionKind::Root)
            &&& fv.arity.consistent()
            &&& fv.states().len() == inference.blocks_spec().block_list().len()
            &&& entries_ok(ins, fv.states())
            &&& states_closed(*cfg, *ownership, f as u32, fv.states())
        } by {
            assert(Some(r.function_list()[f]) == finished[f]);
        }
        assert(arities_of(finished) =~= verified_arities(r)) by {
            assert forall|h: int| 0 <= h < n implies #[trigger] arities_of(finished)[h] == verified_arities(r)[h] by {
                assert(Some(r.function_list()[h]) == finished[h]);
            }
        }
        assert forall|f: int| 0 <= f < n implies function_settled(
            ins,
            *inference,
            *cfg,
            *ownership,
            f as u32,
            verified_arities(r),
            #[trigger] r.function_list()[f],
        ) by {
            assert(Some(r.function_list()[f]) == finished[f]);
        }
        assert forall|f: int| 0 <= f < n implies {
            let fv = #[trigger] r.function_list()[f];
            forall|b: int|
                0 <= b < fv.states().len() ==> (ownership.owner_sets()[b].contains(f as u32) <==> #[trigger] fv.states()[b] is Some)
        } by {
            assert(Some(r.function_list()[f]) == finished[f]);
            lemma_owned_reached(*inference, *cfg, *ownership, f as u32, r.function_list()[f].states());
        }
        assert(r.postorder_list().len() == n);
        assert(r.postorder_list().no_duplicates());
        assert(r.function_list().len() == n);
        assert(forall|x: (u32, u32)| #[trigger] r.return_push_set().contains(x) <==> is_push_site(r.return_push_map(), x));
        assert(forall|t: int, g: u32|
            0 <= t < n && #[trigger] calls_into(*inference, *cfg, *ownership, r.postorder_list()[t], g) ==> exists|u: int|
                0 <= u < t && #[trigger] r.postorder_list()[u] == g);
        assert(verification_holds(ins, *inference, *cfg, *ownership, r));
    }
    match misused {
        Some((call, push)) => {
            proof {
                let key = choose|key: (u32, u32)| #[trigger] return_pushes@.contains_key(key) && key.1 == call
                    && return_pushes@[key] == push && semantic_constant_uses@.contains((key.0, push));
                assert(r.return_push_map() == return_pushes@);
                assert(r.return_push_map().contains_key(key) && key.1 == call && r.return_push_map()[key] == push);
                reveal(uses_justified);
                assert(push_used_semantically(ins, *inference, *cfg, *ownership, key.0, push));
            }
            Err(VerificationError::ReturnDestinationUsedSemantically { call, push })
        },
        None => Ok(r),
    }
}

/// Every value below `n` is in a duplicate-free list of `n` values below `n`.
proof fn lemma_all_listed(s: Seq<u32>, n: int, h: int)
    requires
        s.no_duplicates(),
        s.len() == n,
        0 <= h < n <= u32::MAX + 1,
        forall|t: int| 0 <= t < s.len() ==> #[trigger] s[t] < n,
    ensures
        exists|u: int| 0 <= u < n && s[u] == h,
{
    if !s.contains(h as u32) {
        let t = s.push(h as u32);
        assert(t.no_duplicates()) by {
            assert forall|a: int, b: int| 0 <= a < t.len() && 0 <= b < t.len() && a != b implies t[a] != t[b] by {
                if a == s.len() {
                    assert(t[b] == s[b]);
                    assert(s.contains(s[b]));
                } else if b == s.len() {
                    assert(t[a] == s[a]);
                    assert(s.contains(s[a]));
                }
            }
        }
        assert forall|u: int| 0 <= u < t.len() implies #[trigger] t[u] < n + 1 by {}
        lemma_missing_function_len(t, n);
    }
    let u = choose|u: int| 0 <= u < s.len() && s[u] == h as u32;
}

/// A duplicate-free list of values below `n` has at most `n` elements.
proof fn lemma_missing_function_len(s: Seq<u32>, n: int)
    requires
        s.no_duplicates(),
        0 <= n <= u32::MAX + 1,
        forall|t: int| 0 <= t < s.len() ==> #[trigger] s[t] < n + 1,
        forall|t: int| 0 <= t < s.len() ==> s[t] < n,
    ensures
        s.len() <= n,
{
    s.unique_seq_to_set();
    let f = |h: u32| h as int;
    vstd::set_lib::lemma_int_range(0, n);
    assert(vstd::relations::injective_on(f, s.to_set()));
    vstd::set_lib::lemma_map_size(s.to_set(), s.to_set().map(f), f);
    assert(s.to_set().map(f).subset_of(vstd::set_lib::set_int_range(0, n))) by {
        assert forall|x: int| s.to_set().map(f).contains(x) implies vstd::set_lib::set_int_range(0, n).contains(x) by {
            let h = choose|h: u32| s.to_set().contains(h) && f(h) == x;
            let t = choose|t: int| 0 <= t < s.len() && s[t] == h;
        }
    }
    vstd::set_lib::lemma_len_subset(s.to_set().map(f), vstd::set_lib::set_int_range(0, n));
}

/// A function's closed stacks reach exactly the blocks it owns.
proof fn lemma_owned_reached(
    inference: InternalCallInference,
    cfg: ProvisionalCfg,
    ownership: Ownership,
    f: u32,
    states: Seq<Option<SymbolicStack>>,
)
    requires
        pipeline_ok(inference.source(), inference, cfg, ownership),
        f < ownership.function_list().len(),
        states.len() == inference.blocks_spec().block_list().len(),
        states[ownership.function_list()[f as int].entry as int] is Some,
        states_closed(cfg, ownership, f, states),
    ensures
        forall|b: int| 0 <= b < states.len() ==> (ownership.owner_sets()[b].contains(f) <==> #[trigger] states[b] is Some),
{
    let controls = cfg.control_list();
    let entry = ownership.function_list()[f as int].entry;
    lemma_entry_in_range(inference, cfg, ownership, f);
    crate::icall::lemma_block_count(inference.source(), inference.call_list(), inference.blocks_spec().block_list());
    let flags = Seq::new(states.len(), |b: int| states[b] is Some);
    assert forall|k: int, m: u32|
        0 <= k < controls.len() && flags[k] && #[trigger] controls[k].spec_successors().contains(m)
            implies m < controls.len() && flags[m as int] by {
        let x = choose|x: int| 0 <= x < controls[k].spec_successors().len() && controls[k].spec_successors()[x] == m;
        lemma_successors_in_range(inference, cfg, k);
        assert(states[k] is Some);
    }
    assert forall|b: int| 0 <= b < states.len() implies (ownership.owner_sets()[b].contains(f) <==> #[trigger] states[b] is Some) by {
        if ownership.owner_sets()[b].contains(f) {
            assert(block_reachable_from(controls, entry, b));
            let p = choose|p: Seq<u32>| #[trigger] crate::ownership::is_block_walk(controls, p) && p[0] == entry && p.last() == b as u32;
            crate::ownership::lemma_walk_visited(controls, flags, p, p.len() - 1);
            assert(flags[b]);
        }
    }
}

spec fn block_reachable_from(controls: Seq<BlockControl>, entry: u32, b: int) -> bool {
    crate::ownership::block_reachable(controls, entry, b as u32)
}

/// What a verification says of one function: a consistent arity, and a well
/// formed stack exactly at the blocks the function owns.
pub proof fn lemma_verified_function(
    ins: Seq<Instruction>,
    inference: InternalCallInference,
    cfg: ProvisionalCfg,
    ownership: Ownership,
    v: Verification,
    f: int,
)
    requires
        verification_holds(ins, inference, cfg, ownership, v),
        0 <= f < ownership.function_list().len(),
    ensures
        v.function_list().len() == ownership.function_list().len(),
        v.function_list()[f].spec_arity().consistent(),
        (v.function_list()[f].spec_arity() is Root) == (ownership.function_list()[f].kind
            == crate::ownership::FunctionKind::Root),
        v.function_list()[f].states().len() == inference.blocks_spec().block_list().len(),
        forall|b: int|
            0 <= b < v.function_list()[f].states().len() ==> (ownership.owner_sets()[b].contains(f as u32)
                <==> #[trigger] v.function_list()[f].states()[b] is Some),
        forall|b: int|
            0 <= b < v.function_list()[f].states().len() ==> (#[trigger] v.function_list()[f].states()[b] matches Some(st)
                ==> st.wf()),
{
    let fv = v.function_list()[f];
    assert(entries_ok(ins, fv.states()));
    assert forall|b: int| 0 <= b < fv.states().len() implies (#[trigger] fv.states()[b] matches Some(st) ==> st.wf()) by {
        assert(fv.states()[b] matches Some(st) ==> st.wf() && model_admissible(ins, st.model()));
    }
}

} // verus!
