use plank_sir::assembler::{AsmReference, Assembler, AssembleError, RefSize, STOP, bytes_to_hold};

#[test]
fn test_basic_assembly() {
    let main = 0u32;
    let mut assembler = Assembler::with_capacity(256, 16);

    assembler.push_reference(AsmReference::new_direct(main));
    assembler.push_data(&[0x11; 253]);
    assembler.push_mark(main);
    assembler.push_op_byte(STOP);
    assembler.push_op_byte(STOP);

    let mut result = Vec::with_capacity(300);
    assembler.assemble(&mut result, Some(2)).unwrap();

    assert_eq!(
        alloy_primitives::hex::encode(result),
        "60ff111111111111111111111111111111111111111111111111111111111111111111111111111111111111111111111111111111111111111111111111111111111111111111111111111111111111111111111111111111111111111111111111111111111111111111111111111111111111111111111111111111111111111111111111111111111111111111111111111111111111111111111111111111111111111111111111111111111111111111111111111111111111111111111111111111111111111111111111111111111111111111111111111111111111111111111111111111111111111111111111111111111111111111111111110000"
    );
}

#[test]
fn test_pushes() {
    let mut assembler = Assembler::with_capacity(256, 16);

    assembler.push_minimal_u64(0);
    assembler.push_minimal_u64(1);
    assembler.push_minimal_u64(0xff);
    assembler.push_minimal_u64(0x100);
    assembler.push_minimal_u64(0x3103);
    assembler.push_minimal_u64(0x10000);
    assembler.push_minimal_u64(0x310ee);
    assembler.push_minimal_u64(0xffffff);
    assembler.push_minimal_u64(0x1000000);
    assembler.push_minimal_u64(0x100000000000000);
    assembler.push_minimal_u64(0xff0000000ccccccc);

    let mut result = Vec::with_capacity(300);
    assembler.assemble(&mut result, Some(2)).unwrap();

    assert_eq!(
        alloy_primitives::hex::encode(result),
        "5f600160ff61010061310362010000620310ee62ffffff630100000067010000000000000067ff0000000ccccccc"
    );
}

#[test]
fn reference_grows_when_mark_moves_past_one_byte() {
    // The reference first assumes one byte; the mark lands at 0x101, so the
    // layout has to grow the reference to two bytes and move the mark.
    let mut assembler = Assembler::with_capacity(512, 16);
    assembler.push_reference(AsmReference::new_direct(0));
    assembler.push_data(&[0xaa; 0xfe]);
    assembler.push_mark(0);
    assembler.push_op_byte(STOP);
    let mut result = Vec::new();
    let marks = assembler.assemble(&mut result, None).unwrap();
    assert_eq!(marks.len(), 128);
    assert_eq!(marks[0], 0x101);
    assert_eq!(&result[..3], &[0x61, 0x01, 0x01]);
    assert_eq!(result.len(), 0x102);
    assert_eq!(result[0x101], STOP);
}

#[test]
fn delta_reference_and_raw_sizes() {
    let mut assembler = Assembler::with_capacity(64, 16);
    assembler.push_mark(0);
    assembler.push_data(&[1, 2, 3]);
    assembler.push_mark(1);
    let mut delta = AsmReference::new_delta(0, 1);
    delta.pushed = false;
    delta.set_size = Some(RefSize::S2);
    assembler.push_reference(delta);
    let zero = AsmReference::new_delta(1, 1);
    assembler.push_reference(zero);
    let mut result = Vec::new();
    let marks = assembler.assemble(&mut result, Some(2)).unwrap();
    assert_eq!(marks[0], 0);
    assert_eq!(marks[1], 3);
    assert_eq!(result, vec![1, 2, 3, 0x00, 0x03, 0x5f]);
}

#[test]
fn too_small_set_size_is_reported() {
    let mut assembler = Assembler::with_capacity(512, 16);
    let mut r = AsmReference::new_direct(0);
    r.set_size = Some(RefSize::S1);
    assembler.push_reference(r);
    assembler.push_data(&[0u8; 300]);
    assembler.push_mark(0);
    let mut result = vec![7u8];
    let error = assembler.assemble(&mut result, Some(1)).unwrap_err();
    assert_eq!(error, AssembleError::RefHasTooSmallSetSize(0));
    assert_eq!(result, vec![7u8]);
}

#[test]
fn swaps_dups_and_exchanges() {
    let mut assembler = Assembler::with_capacity(16, 4);
    assembler.push_swap(1);
    assembler.push_swap(16);
    assembler.push_dup(0);
    assembler.push_dup(15);
    assembler.push_exchange(0, 3);
    assembler.push_exchange(2, 5);
    let mut result = Vec::new();
    assembler.assemble(&mut result, None).unwrap();
    assert_eq!(result, vec![0x90, 0x9f, 0x80, 0x8f, 0x92, 0x91, 0x94, 0x91]);
}

#[test]
fn ref_sizes_hold_offsets() {
    assert_eq!(bytes_to_hold(0), RefSize::S1);
    assert_eq!(bytes_to_hold(0xff), RefSize::S1);
    assert_eq!(bytes_to_hold(0x100), RefSize::S2);
    assert_eq!(bytes_to_hold(0xffffff), RefSize::S3);
    assert_eq!(bytes_to_hold(0x1000000), RefSize::S4);
    assert_eq!(RefSize::S3.bytes(), 3);
}

#[test]
fn reference_to_an_unplaced_mark_below_the_hint_reads_zero() {
    let mut assembler = Assembler::with_capacity(16, 4);
    assembler.push_reference(AsmReference::new_direct(1));
    assembler.push_op_byte(STOP);
    let mut result = Vec::new();
    let marks = assembler.assemble(&mut result, Some(2)).unwrap();
    assert_eq!(marks, vec![0, 0]);
    assert_eq!(alloy_primitives::hex::encode(result), "5f00");
}
