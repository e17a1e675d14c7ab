use plank_sir::decode::{decode, DecodeError};
use plank_sir::Opcode;

#[test]
fn decodes_instructions_with_pc_index() {
    let bytes = [Opcode::Push2.to_byte(), 0x12, 0x34, Opcode::Add.to_byte(), 0xab];
    let decoded = decode(&bytes).unwrap();
    assert_eq!(decoded.instructions().len(), 3);
    let push = decoded.instruction(0);
    assert_eq!(push.op, Ok(Opcode::Push2));
    assert_eq!(push.immediate(), Some([0x12, 0x34].as_slice()));
    assert_eq!(push.immediate_as_u32(), Some(0x1234));
    assert_eq!(push.encoded_byte_size(), 3);
    assert_eq!(push.actual_byte_range(), 0..3);
    assert_eq!(decoded.instruction_at_pc(3), Some(1));
    assert_eq!(decoded.instruction_at_pc(1), None);
    assert_eq!(decoded.instruction_at_pc(99), None);
    assert_eq!(decoded.instruction(2).op, Err(0xab));
    assert_eq!(decoded.instruction(2).immediate(), None);
    assert_eq!(decoded.instruction_span(), 0..3);
    let word = push.immediate_as_u256().unwrap();
    assert_eq!(&word[30..], &[0x12, 0x34]);
}

#[test]
fn decode_errors() {
    assert_eq!(decode(&[]).unwrap_err(), DecodeError::EmptyBytecode);
}

#[test]
fn immediate_as_u32_rejects_large_values() {
    let mut bytes = vec![Opcode::Push5.to_byte(), 0x01, 0, 0, 0, 0];
    let decoded = decode(&bytes).unwrap();
    assert_eq!(decoded.instruction(0).immediate_as_u32(), None);
    bytes[1] = 0;
    bytes[5] = 7;
    let decoded = decode(&bytes).unwrap();
    assert_eq!(decoded.instruction(0).immediate_as_u32(), Some(7));
}

#[test]
fn decodes_truncated_push_with_zero_padding() {
    let decoded = decode(&[Opcode::Push3.to_byte(), 0xaa]).unwrap();
    let actual = decoded.display();
    let expected = "#0 00000000: PUSH3 0xaa0000 (1 of 3 immediate bytes present)\n";
    assert_eq!(actual, expected);
    let instruction = decoded.instruction(0);
    assert_eq!(instruction.available_immediate(), Some([0xaa].as_slice()));
    assert_eq!(instruction.actual_byte_range(), 0..2);
}

#[test]
fn listing_numbers_lines_and_names_unknown_bytes() {
    let bytes = [Opcode::Push2.to_byte(), 0x12, 0x34, Opcode::Add.to_byte(), 0xef];
    let decoded = decode(&bytes).unwrap();
    let expected = "#0 00000000: PUSH2 0x1234\n#1 00000003: ADD\n#2 00000004: UNKNOWN(0xEF)\n";
    assert_eq!(decoded.display(), expected);
}
