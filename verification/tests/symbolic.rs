use plank_sir::symbolic::{StackShapeMismatch, StackUnderflow, SymbolicAtom, SymbolicStack};
use plank_sir::word::Word;

fn input(n: u16) -> SymbolicAtom {
    SymbolicAtom::FunctionInput(n)
}

fn constant(instruction: u32, value: u32) -> SymbolicAtom {
    SymbolicAtom::Constant { instruction, value: Word::from_u32(value) }
}

#[test]
fn popping_an_open_stack_draws_function_inputs() {
    let mut stack = SymbolicStack::open();
    assert_eq!(stack.pop(), Ok(vec![input(0)]));
    assert_eq!(stack.pop(), Ok(vec![input(1)]));
    assert_eq!(stack.next_input(), 2);
    assert_eq!(stack.required_inputs(), 2);
    assert!(stack.values_top_first().is_empty());
}

#[test]
fn popping_a_closed_empty_stack_underflows() {
    let mut stack = SymbolicStack::empty();
    assert_eq!(stack.pop(), Err(StackUnderflow));
    stack.push_atom(constant(3, 7));
    assert_eq!(stack.pop(), Ok(vec![constant(3, 7)]));
    assert_eq!(stack.duplicate(1), Err(StackUnderflow));
}

#[test]
fn duplicate_and_swap_reach_below_the_explicit_values() {
    let mut stack = SymbolicStack::open();
    stack.push_atom(constant(0, 1));
    stack.duplicate(2).unwrap();
    assert_eq!(stack.values_top_first(), &vec![vec![input(0)], vec![constant(0, 1)], vec![input(0)]]);
    stack.swap(3).unwrap();
    assert_eq!(
        stack.values_top_first(),
        &vec![vec![input(1)], vec![constant(0, 1)], vec![input(0)], vec![input(0)]]
    );
    assert_eq!(stack.next_input(), 2);
}

#[test]
fn normalize_drops_trailing_untouched_inputs() {
    let mut stack = SymbolicStack::open();
    stack.push_atom(constant(1, 5));
    stack.materialize(3).unwrap();
    assert_eq!(stack.values_top_first().len(), 3);
    stack.normalize();
    assert_eq!(stack.values_top_first(), &vec![vec![constant(1, 5)]]);
    assert_eq!(stack.next_input(), 0);
    assert_eq!(stack.required_inputs(), 2);
}

#[test]
fn merge_unions_values_and_reports_change() {
    let mut left = SymbolicStack::open();
    left.push_atom(constant(0, 1));
    let mut right = SymbolicStack::open();
    right.push_atom(constant(2, 1));
    assert_eq!(left.merge(&right), Ok(true));
    let top = &left.values_top_first()[0];
    assert_eq!(top.len(), 2);
    assert!(top.contains(&constant(0, 1)));
    assert!(top.contains(&constant(2, 1)));
    assert_eq!(left.merge(&right), Ok(false));
}

#[test]
fn merge_of_different_shapes_is_refused() {
    let mut left = SymbolicStack::open();
    left.push_atom(constant(0, 1));
    let right = SymbolicStack::empty();
    assert_eq!(
        left.merge(&right),
        Err(StackShapeMismatch { left_values: 1, left_next_input: 0, right_values: 0, right_next_input: 0 })
    );
}

#[test]
fn finite_values_spell_out_the_inputs() {
    let mut stack = SymbolicStack::open();
    stack.push_atom(constant(4, 9));
    assert_eq!(
        stack.finite_values(2),
        Ok(vec![vec![constant(4, 9)], vec![input(0)], vec![input(1)]])
    );
    stack.pop().unwrap();
    stack.pop().unwrap();
    assert_eq!(
        stack.finite_values(0),
        Err(StackShapeMismatch { left_values: 0, left_next_input: 1, right_values: 0, right_next_input: 0 })
    );
}
