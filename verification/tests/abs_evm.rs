use plank_sir::abs_evm::{AbstractStack, Control, EvmError, Value};
use plank_sir::instructions::Instructions;
use plank_sir::Opcode;

fn run(stack: &mut AbstractStack, bytes: &[u8]) -> Vec<Result<Control, EvmError>> {
    let instructions = Instructions::new(bytes);
    (0..instructions.total()).map(|i| stack.execute(instructions.instruction(i))).collect()
}

#[test]
fn jump_after_push_targets_a_symbolic_value() {
    let mut stack = AbstractStack::new();
    let bytes = [Opcode::Push1.to_byte(), 0x04, Opcode::Jump.to_byte()];
    assert_eq!(run(&mut stack, &bytes), vec![Ok(Control::Step), Ok(Control::JumpTo(Value::Symbolic))]);
}

#[test]
fn jump_on_an_empty_stack_reads_function_inputs() {
    let mut stack = AbstractStack::new();
    let bytes = [Opcode::JumpI.to_byte(), Opcode::Jump.to_byte()];
    assert_eq!(
        run(&mut stack, &bytes),
        vec![
            Ok(Control::JumpIfUnknownTo(Value::FunctionInput(0))),
            Ok(Control::JumpTo(Value::FunctionInput(2))),
        ]
    );
}

#[test]
fn operations_replace_inputs_with_symbolic_outputs() {
    let mut stack = AbstractStack::new();
    // ADD reads two inputs and leaves one symbolic result for JUMP.
    let bytes = [Opcode::Add.to_byte(), Opcode::Jump.to_byte(), Opcode::Jump.to_byte()];
    assert_eq!(
        run(&mut stack, &bytes),
        vec![
            Ok(Control::Step),
            Ok(Control::JumpTo(Value::Symbolic)),
            Ok(Control::JumpTo(Value::FunctionInput(2))),
        ]
    );
}

#[test]
fn terminators_and_unknown_bytes_terminate() {
    let mut stack = AbstractStack::new();
    let bytes = [Opcode::Stop.to_byte(), 0xef, Opcode::Return.to_byte(), Opcode::Jump.to_byte()];
    assert_eq!(
        run(&mut stack, &bytes),
        vec![
            Ok(Control::Terminate),
            Ok(Control::Terminate),
            Ok(Control::Terminate),
            Ok(Control::JumpTo(Value::FunctionInput(2))),
        ]
    );
}

#[test]
fn clear_forgets_values_and_inputs() {
    let mut stack = AbstractStack::new();
    run(&mut stack, &[Opcode::Pop.to_byte(), Opcode::Push0.to_byte()]);
    stack.clear();
    assert_eq!(
        run(&mut stack, &[Opcode::Jump.to_byte()]),
        vec![Ok(Control::JumpTo(Value::FunctionInput(0)))]
    );
}

#[test]
fn pushing_past_the_depth_limit_overflows() {
    let mut stack = AbstractStack::new();
    let bytes = vec![Opcode::Push0.to_byte(); 1025];
    let results = run(&mut stack, &bytes);
    assert!(results[..1024].iter().all(|r| *r == Ok(Control::Step)));
    assert_eq!(results[1024], Err(EvmError::StackOverflow));
}
