use vstd::prelude::*;

use crate::instructions::InstructionView;
use crate::opcode::Opcode;

verus! {

/// An abstract stack value.
#[derive(Debug, Clone, Copy, PartialEq, Eq, Structural)]
pub enum Value {
    Constant(u32),
    Symbolic,
    FunctionInput(u32),
}

/// A stack of abstract values whose bottom is open: popping past the known
/// values yields the function's inputs, numbered in the order they are needed.
#[derive(Debug)]
pub struct AbstractStack {
    stack: Vec<Value>,
    function_inputs: u32,
}

impl Clone for AbstractStack {
    fn clone(&self) -> (r: AbstractStack)
        ensures
            r.state() == self.state(),
    {
        proof {
            use_type_invariant(self);
        }
        let mut stack: Vec<Value> = Vec::new();
        let mut i: usize = 0;
        while i < self.stack.len()
            invariant
                i <= self.stack@.len(),
                stack@ == self.stack@.take(i as int),
            decreases self.stack@.len() - i,
        {
            stack.push(self.stack[i]);
            i = i + 1;
        }
        proof {
            assert(self.stack@.take(i as int) =~= self.stack@);
        }
        AbstractStack { stack, function_inputs: self.function_inputs }
    }
}

/// How control continues after an instruction.
#[derive(Debug, Clone, Copy, PartialEq, Eq, Structural)]
pub enum Control {
    Step,
    JumpTo(Value),
    JumpIfUnknownTo(Value),
    Terminate,
}

#[derive(Debug, Clone, Copy, PartialEq, Eq, Structural)]
pub enum EvmError {
    StackOverflow,
}

pub const MAX_EVM_STACK_DEPTH: usize = 1024;

/// The abstract state: known values (top last) and inputs read so far.
pub type StackState = (Seq<Value>, nat);

/// Popping one value: the top known value, or else the next function input.
pub open spec fn pop_state(st: StackState) -> (StackState, Value) {
    if st.0.len() > 0 {
        ((st.0.drop_last(), st.1), st.0.last())
    } else {
        ((st.0, st.1 + 1), Value::FunctionInput(st.1 as u32))
    }
}

/// The state after popping `n` values.
pub open spec fn pop_n(st: StackState, n: nat) -> StackState
    decreases n,
{
    if n == 0 {
        st
    } else {
        pop_state(pop_n(st, (n - 1) as nat)).0
    }
}

/// Pushing `n` symbolic values onto `values`, up to the depth limit.
pub open spec fn push_symbolic(values: Seq<Value>, n: nat) -> Seq<Value> {
    let room = MAX_EVM_STACK_DEPTH - values.len();
    let pushed = if n <= room { n } else { room as nat };
    values + Seq::new(pushed, |_i: int| Value::Symbolic)
}

/// Result and state after executing an opcode on `st`.
pub open spec fn execute_op(st: StackState, op: Opcode) -> (StackState, Result<Control, EvmError>) {
    if op == Opcode::Jump {
        let (st1, destination) = pop_state(st);
        (st1, Ok(Control::JumpTo(destination)))
    } else if op == Opcode::JumpI {
        let (st1, destination) = pop_state(st);
        let (st2, condition) = pop_state(st1);
        (
            st2,
            Ok(
                match condition {
                    Value::Constant(c) => if c == 0 {
                        Control::Step
                    } else {
                        Control::JumpTo(destination)
                    },
                    _ => Control::JumpIfUnknownTo(destination),
                },
            ),
        )
    } else if op.spec_is_terminating() {
        (pop_n(st, op.spec_stack_io().inputs as nat), Ok(Control::Terminate))
    } else {
        let popped = pop_n(st, op.spec_stack_io().inputs as nat);
        let outputs = op.spec_stack_io().outputs as nat;
        (
            (push_symbolic(popped.0, outputs), popped.1),
            if popped.0.len() + outputs > MAX_EVM_STACK_DEPTH {
                Err(EvmError::StackOverflow)
            } else {
                Ok(Control::Step)
            },
        )
    }
}

proof fn lemma_pop_n_bounds(st: StackState, n: nat)
    ensures
        pop_n(st, n).0.len() <= st.0.len(),
        pop_n(st, n).1 <= st.1 + n,
        pop_n(st, n).1 >= st.1,
    decreases n,
{
    if n > 0 {
        lemma_pop_n_bounds(st, (n - 1) as nat);
    }
}

impl AbstractStack {
    /// The stack never holds more values than the EVM allows.
    #[verifier::type_invariant]
    spec fn depth_bounded(self) -> bool {
        self.stack@.len() <= MAX_EVM_STACK_DEPTH
    }

    pub closed spec fn state(&self) -> StackState {
        (self.stack@, self.function_inputs as nat)
    }

    pub fn new() -> (r: AbstractStack)
        ensures
            r.state() == (Seq::<Value>::empty(), 0nat),
    {
        AbstractStack { stack: Vec::new(), function_inputs: 0 }
    }

    pub fn clear(&mut self)
        ensures
            final(self).state() == (Seq::<Value>::empty(), 0nat),
    {
        self.stack = Vec::new();
        self.function_inputs = 0;
    }

    fn pop(&mut self) -> (r: Value)
        requires
            old(self).function_inputs < u32::MAX,
        ensures
            (final(self).state(), r) == pop_state(old(self).state()),
    {
        proof {
            use_type_invariant(&*self);
        }
        let mut values: Vec<Value> = Vec::new();
        std::mem::swap(&mut values, &mut self.stack);
        let top = values.pop();
        self.stack = values;
        match top {
            Some(value) => value,
            None => {
                let fn_inp = self.function_inputs;
                self.function_inputs = self.function_inputs + 1;
                Value::FunctionInput(fn_inp)
            },
        }
    }

    fn pop_many(&mut self, n: u16)
        requires
            old(self).function_inputs + n <= u32::MAX,
        ensures
            final(self).state() == pop_n(old(self).state(), n as nat),
    {
        let ghost start = self.state();
        let mut i: u16 = 0;
        while i < n
            invariant
                i <= n,
                self.state() == pop_n(start, i as nat),
                start.1 + n <= u32::MAX,
            decreases n - i,
        {
            proof {
                lemma_pop_n_bounds(start, i as nat);
            }
            let _ = self.pop();
            i = i + 1;
        }
    }

    fn push(&mut self, value: Value) -> (r: Result<(), EvmError>)
        ensures
            old(self).state().0.len() == MAX_EVM_STACK_DEPTH ==> r == Err::<(), EvmError>(
                EvmError::StackOverflow,
            ) && final(self).state() == old(self).state(),
            old(self).state().0.len() != MAX_EVM_STACK_DEPTH ==> r is Ok && final(self).state() == (
                old(self).state().0.push(value),
                old(self).state().1,
            ),
    {
        proof {
            use_type_invariant(&*self);
        }
        if self.stack.len() == MAX_EVM_STACK_DEPTH {
            return Err(EvmError::StackOverflow);
        }
        let mut values: Vec<Value> = Vec::new();
        std::mem::swap(&mut values, &mut self.stack);
        values.push(value);
        self.stack = values;
        Ok(())
    }

    /// Abstractly executes one instruction: unknown bytes terminate, jumps
    /// report their destination, and other opcodes replace their inputs with
    /// symbolic outputs.
    pub fn execute(&mut self, instr: InstructionView<'_>) -> (r: Result<Control, EvmError>)
        requires
            old(self).state().1 + 17 <= u32::MAX,
        ensures
            final(self).state().0.len() <= MAX_EVM_STACK_DEPTH,
            instr.op is Err ==> r == Ok::<Control, EvmError>(Control::Terminate)
                && final(self).state() == old(self).state(),
            instr.op matches Ok(op) ==> (final(self).state(), r) == execute_op(
                old(self).state(),
                op,
            ),
    {
        proof {
            use_type_invariant(&*self);
        }
        let op = match instr.op {
            Ok(op) => op,
            Err(_) => return Ok(Control::Terminate),
        };
        proof {
            lemma_max_inputs(op);
        }
        match op {
            Opcode::Jump => {
                let destination = self.pop();
                Ok(Control::JumpTo(destination))
            },
            Opcode::JumpI => {
                let destination = self.pop();
                let condition = self.pop();
                match condition {
                    Value::Constant(known_condition) => {
                        if known_condition == 0 {
                            Ok(Control::Step)
                        } else {
                            Ok(Control::JumpTo(destination))
                        }
                    },
                    Value::Symbolic | Value::FunctionInput(_) => {
                        Ok(Control::JumpIfUnknownTo(destination))
                    },
                }
            },
            _ => {
                let io = op.stack_io();
                if op.is_terminating() {
                    self.pop_many(io.inputs);
                    proof {
                        lemma_pop_n_bounds(old(self).state(), io.inputs as nat);
                    }
                    Ok(Control::Terminate)
                } else {
                    self.pop_many(io.inputs);
                    proof {
                        lemma_pop_n_bounds(old(self).state(), io.inputs as nat);
                    }
                    let ghost popped = self.state();
                    let mut k: u16 = 0;
                    while k < io.outputs
                        invariant
                            instr.op == Ok::<Opcode, u8>(op),
                            op != Opcode::Jump,
                            op != Opcode::JumpI,
                            !op.spec_is_terminating(),
                            io == op.spec_stack_io(),
                            popped == pop_n(old(self).state(), io.inputs as nat),
                            k <= io.outputs,
                            popped.0.len() <= MAX_EVM_STACK_DEPTH,
                            popped.0.len() + k <= MAX_EVM_STACK_DEPTH,
                            self.state() == (push_symbolic(popped.0, k as nat), popped.1),
                        decreases io.outputs - k,
                    {
                        let ghost before = self.state();
                        let pushed = self.push(Value::Symbolic);
                        match pushed {
                            Ok(()) => {},
                            Err(e) => {
                                proof {
                                    assert(push_symbolic(popped.0, io.outputs as nat)
                                        =~= push_symbolic(popped.0, k as nat));
                                }
                                return Err(e);
                            },
                        }
                        proof {
                            assert(push_symbolic(popped.0, (k + 1) as nat) =~= before.0.push(
                                Value::Symbolic,
                            ));
                        }
                        k = k + 1;
                    }
                    Ok(Control::Step)
                }
            },
        }
    }
}

proof fn lemma_max_inputs(op: Opcode)
    ensures
        op.spec_stack_io().inputs <= 17,
        op.spec_stack_io().outputs <= 17,
{
}

} // verus!
