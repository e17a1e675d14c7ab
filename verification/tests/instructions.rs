use plank_sir::instructions::Instructions;
use plank_sir::Opcode;

#[test]
fn indexes_instruction_starts_around_push_immediates() {
    let bytes = [Opcode::Push1.to_byte(), 0xaa, Opcode::Add.to_byte(), Opcode::Push2.to_byte(), 0xbb];
    let instructions = Instructions::new(&bytes);

    assert_eq!(instructions.instruction_starts(), &[0, 2, 3]);
    assert_eq!(instructions.pc_to_instruction_index(0), Ok(0));
    assert_eq!(instructions.pc_to_instruction_index(1), Err(0));
    assert_eq!(instructions.pc_to_instruction_index(2), Ok(1));
    assert_eq!(instructions.pc_to_instruction_index(3), Ok(2));
    assert_eq!(instructions.pc_to_instruction_index(4), Err(2));
}

#[test]
fn views_include_opcode_and_available_immediate_bytes() {
    let bytes = [Opcode::Push1.to_byte(), 0xaa, Opcode::Add.to_byte(), Opcode::Push2.to_byte(), 0xbb];
    let instructions = Instructions::new(&bytes);

    let push1 = instructions.instruction(0);
    assert_eq!(push1.pc, 0);
    assert_eq!(push1.op, Ok(Opcode::Push1));
    assert_eq!(push1.raw_immediate, Some(&bytes[1..2]));

    let add = instructions.instruction(1);
    assert_eq!(add.pc, 2);
    assert_eq!(add.op, Ok(Opcode::Add));
    assert_eq!(add.raw_immediate, None);

    let truncated_push2 = instructions.instruction(2);
    assert_eq!(truncated_push2.pc, 3);
    assert_eq!(truncated_push2.op, Ok(Opcode::Push2));
    assert_eq!(truncated_push2.raw_immediate, Some(&bytes[4..5]));
}

#[test]
fn unknown_bytes_are_instructions_without_immediates() {
    let bytes = [0xab, Opcode::Push1.to_byte()];
    let instructions = Instructions::new(&bytes);

    assert_eq!(instructions.instruction_starts(), &[0, 1]);

    let unknown = instructions.instruction(0);
    assert_eq!(unknown.pc, 0);
    assert_eq!(unknown.op, Err(0xab));
    assert_eq!(unknown.raw_immediate, None);

    let missing_immediate = instructions.instruction(1);
    assert_eq!(missing_immediate.pc, 1);
    assert_eq!(missing_immediate.op, Ok(Opcode::Push1));
    assert_eq!(missing_immediate.raw_immediate, Some(&bytes[2..]));
}

#[test]
fn jumpdest_and_immediate_words() {
    let bytes = [Opcode::Push2.to_byte(), 0x01, 0x02, Opcode::JumpDest.to_byte(), Opcode::Push3.to_byte(), 0xaa];
    let instructions = Instructions::new(&bytes);
    assert_eq!(instructions.total(), 3);
    assert_eq!(instructions.jumpdest(3), Some(1));
    assert_eq!(instructions.jumpdest(0), None);
    assert_eq!(instructions.jumpdest(1), None);
    let push2 = instructions.instruction(0);
    assert_eq!(push2.immediate_size(), Some(2));
    let word = push2.immediate().unwrap();
    assert_eq!(word[30], 0x01);
    assert_eq!(word[31], 0x02);
    assert!(word[..30].iter().all(|&b| b == 0));
    let push3 = instructions.instruction(2);
    let word = push3.immediate().unwrap();
    assert_eq!(&word[29..], &[0xaa, 0x00, 0x00]);
    assert_eq!(instructions.instruction(1).immediate(), None);
}
