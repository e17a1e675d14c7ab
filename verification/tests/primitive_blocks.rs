use std::ops::Range;

use plank_sir::instructions::Instructions;
use plank_sir::primitive_blocks::PrimitiveBlocks;
use plank_sir::Opcode;
use plank_sir::Opcode::{Add, Invalid, Jump, JumpDest, JumpI, Return, Revert, SelfDestruct, Stop};

fn code(ops: &[Opcode]) -> Vec<u8> {
    ops.iter().map(|op| op.to_byte()).collect()
}

fn spans(bytes: impl AsRef<[u8]>) -> Vec<Range<u32>> {
    let instructions = Instructions::new(bytes.as_ref());
    let blocks = PrimitiveBlocks::new(instructions);

    (0..blocks.block_count()).map(|index| blocks.instructions(index as u32)).collect()
}

#[test]
fn splits_after_jumps_and_terminators() {
    assert_eq!(
        spans(code(&[Add, Jump, Add, JumpI, Add, Stop, Add])),
        vec![0..2, 2..4, 4..6, 6..7],
    );
}

#[test]
fn splits_before_jumpdest_after_existing_instructions() {
    assert_eq!(spans(code(&[Add, JumpDest, Add, JumpDest, Stop])), vec![0..1, 1..3, 3..5],);
}

#[test]
fn unknown_opcodes_end_a_block() {
    assert_eq!(spans([Add.to_byte(), 0xab, Add.to_byte()]), vec![0..2, 2..3]);
}

#[test]
fn does_not_create_empty_blocks() {
    assert_eq!(spans(code(&[])), Vec::<Range<u32>>::new());
    assert_eq!(spans(code(&[Stop, Add])), vec![0..1, 1..2]);
    assert_eq!(spans(code(&[JumpDest, Add])), vec![0..2]);
}

#[test]
fn jumpdest_after_boundary_does_not_duplicate_or_empty_split() {
    assert_eq!(spans(code(&[Stop, JumpDest])), vec![0..1, 1..2]);
    assert_eq!(spans(code(&[Return, JumpDest])), vec![0..1, 1..2]);
    assert_eq!(spans(code(&[Revert, JumpDest])), vec![0..1, 1..2]);
    assert_eq!(spans(code(&[Invalid, JumpDest])), vec![0..1, 1..2]);
    assert_eq!(spans(code(&[SelfDestruct, JumpDest])), vec![0..1, 1..2]);
    assert_eq!(spans(code(&[Jump, JumpDest])), vec![0..1, 1..2]);
    assert_eq!(spans(code(&[JumpI, JumpDest])), vec![0..1, 1..2]);
    assert_eq!(spans(code(&[Stop, JumpDest, JumpDest])), vec![0..1, 1..2, 2..3]);
}
