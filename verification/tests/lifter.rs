use plank_sir::lower::{validate_supported_operations, LowerError};
use plank_sir::cfg::{build_provisional_cfg, BlockControl};
use plank_sir::classify::classify;
use plank_sir::decode::{decode, DecodedBytecode};
use plank_sir::icall::{infer_internal_calls, CallInferenceKind, InternalCallInference};
use plank_sir::opcode::StackIO;
use plank_sir::ownership::{analyze_ownership, FunctionKind};
use plank_sir::primitive_blocks::StaticJumpDestination;
use plank_sir::ssa::{build_ssa, SsaControl, SsaOperationKind, SsaValueOrigin};
use plank_sir::verify::{verify, FunctionArity, ReturningArity, VerificationError};
use plank_sir::word::Word;

fn hex(source: &str) -> Vec<u8> {
    let digits: Vec<u8> = source
        .bytes()
        .map(|c| match c {
            b'0'..=b'9' => c - b'0',
            b'a'..=b'f' => c - b'a' + 10,
            _ => panic!("not a hex digit"),
        })
        .collect();
    digits.chunks(2).map(|pair| pair[0] * 16 + pair[1]).collect()
}

fn jump(push: u32, pc: u32) -> Option<StaticJumpDestination> {
    Some(StaticJumpDestination { push, pc })
}

fn static_jumps(decoded: &DecodedBytecode, known: &[(u32, u32, u32)]) -> Vec<Option<StaticJumpDestination>> {
    let mut jumps = vec![None; decoded.instructions().len()];
    for &(instruction, push, pc) in known {
        jumps[instruction as usize] = jump(push, pc);
    }
    jumps
}

fn pipeline_front(bytes: &[u8], known: &[(u32, u32, u32)]) -> (DecodedBytecode, InternalCallInference) {
    let decoded = decode(bytes).unwrap();
    let jumps = static_jumps(&decoded, known);
    let inference = infer_internal_calls(&decoded, &jumps);
    (decoded, inference)
}

// `006006565b005b56`: a call shape that no reachable code jumps through.
const UNREACHABLE_SHAPE: &str = "006006565b005b56";

// Two functions that share a return epilogue.
const SHARED_EPILOGUE: &str = "6005600d565b600b6011565b005b6015565b6015565b5f9056";

fn shared_epilogue_jumps() -> Vec<(u32, u32, u32)> {
    vec![(2, 1, 0x0d), (6, 5, 0x11), (11, 10, 0x15), (14, 13, 0x15)]
}

#[test]
fn unreachable_icall_shape_remains_data() {
    let (decoded, inference) = pipeline_front(&hex(UNREACHABLE_SHAPE), &[(2, 1, 6)]);
    assert!(inference.functions().is_empty());
    assert!(inference.calls().is_empty());

    let blocks = inference.code_blocks();
    let pcs: Vec<(u32, u32)> = blocks.blocks().iter().map(|b| (b.start_pc, b.end_pc)).collect();
    assert_eq!(pcs, vec![(0, 1), (1, 4), (4, 6), (6, 8)]);
    let spans: Vec<(u32, u32)> =
        blocks.blocks().iter().map(|b| (b.instructions.start, b.instructions.end)).collect();
    assert_eq!(spans, vec![(0, 1), (1, 3), (3, 5), (5, 7)]);
    assert!(inference.is_internal_return(6));
    assert!(!inference.is_internal_return(2));

    let cfg = build_provisional_cfg(&decoded, &inference);
    assert_eq!(cfg.control(0), BlockControl::Terminates);
    assert_eq!(cfg.control(1), BlockControl::Goto(3));
    assert_eq!(cfg.control(3), BlockControl::InternalReturn);

    let ownership = analyze_ownership(&inference, &cfg).unwrap();
    assert_eq!(ownership.functions().len(), 1);
    assert_eq!(ownership.functions()[0].kind, FunctionKind::Root);
    assert_eq!(ownership.functions()[0].entry, 0);
    assert_eq!(ownership.root(), 0);
    assert!(ownership.is_owned_by(0, 0));
    assert!(!ownership.is_code(1));
    assert!(!ownership.is_code(2));
    assert!(!ownership.is_code(3));

    let verification = verify(&decoded, &inference, &cfg, &ownership).unwrap();
    assert_eq!(verification.function(0).verified_arity(), FunctionArity::Root);
    let entry = verification.entry_state(0, 0).unwrap();
    assert!(entry.values_top_first().is_empty());
    assert!(verification.entry_state(0, 1).is_none());

    let classified = classify(&decoded, &inference, &ownership);
    assert_eq!(classified.data_sections().len(), 1);
    assert_eq!(classified.data_sections()[0].bytes, 1..8);
    assert!(classified.is_code(0));
    assert!(!classified.is_code(3));

    assert_eq!(
        inference.display(&decoded),
        "functions:\nblocks:\n    @0 pc=[0x0,0x1)\n        #0 00000000: STOP\n    @1 pc=[0x1,0x4)\n        #1 00000001: PUSH1\n        #2 00000003: JUMP\n    @2 pc=[0x4,0x6)\n        #3 00000004: JUMPDEST\n        #4 00000005: STOP\n    @3 pc=[0x6,0x8)\n        #5 00000006: JUMPDEST\n        #6 00000007: JUMP ; iret candidate\n"
    );
    assert_eq!(
        ownership.display(&inference),
        "functions:\n    f0: Root entry=@0\nblocks:\n    @0 [0x0,0x1) owner=f0\n    @1 [0x1,0x4) data\n    @2 [0x4,0x6) data\n    @3 [0x6,0x8) data\n"
    );
    assert_eq!(classified.display(&decoded), ".d0 [0x1,0x8) 0x6006565b005b56\n");

    let ssa = build_ssa(&decoded, &inference, &cfg, &ownership, &verification).unwrap();
    assert_eq!(ssa.functions().len(), 1);
    assert_eq!(ssa.blocks().len(), 1);
    assert_eq!(ssa.blocks()[0].control, SsaControl::Terminates);
}

#[test]
fn shared_return_epilogue_is_duplicated_per_function() {
    let (decoded, inference) = pipeline_front(&hex(SHARED_EPILOGUE), &shared_epilogue_jumps());
    let entries: Vec<u32> = inference.functions().iter().map(|f| f.entry_pc).collect();
    assert_eq!(entries, vec![0x0d, 0x11]);
    let calls = inference.calls();
    assert_eq!(calls.len(), 2);
    assert_eq!(calls[0].jump, 2);
    assert_eq!(calls[0].destination_push, 1);
    assert_eq!(calls[0].destination_pc, 0x0d);
    assert_eq!(calls[0].continuation_pc, Some(5));
    assert_eq!(calls[0].function, 0);
    assert_eq!(calls[0].kind, CallInferenceKind::ExactPattern);
    assert_eq!(calls[1].jump, 6);
    assert_eq!(calls[1].continuation_pc, Some(0x0b));
    assert_eq!(calls[1].function, 1);
    assert_eq!(inference.function_by_entry_pc(0x11), Some(1));
    assert_eq!(inference.function_by_entry_pc(0x15), None);
    assert!(inference.is_internal_return(18));

    let pcs: Vec<(u32, u32)> =
        inference.code_blocks().blocks().iter().map(|b| (b.start_pc, b.end_pc)).collect();
    assert_eq!(pcs, vec![(0, 0x0d), (0x0d, 0x11), (0x11, 0x15), (0x15, 0x19)]);

    let cfg = build_provisional_cfg(&decoded, &inference);
    assert_eq!(cfg.calls(0), &[2, 6]);
    assert_eq!(cfg.control(0), BlockControl::Terminates);
    assert_eq!(cfg.control(1), BlockControl::Goto(3));
    assert_eq!(cfg.control(2), BlockControl::Goto(3));
    assert_eq!(cfg.control(3), BlockControl::InternalReturn);
    assert_eq!(cfg.predecessors(3), &[1, 2]);

    let ownership = analyze_ownership(&inference, &cfg).unwrap();
    let kinds: Vec<(u32, FunctionKind)> = ownership.functions().iter().map(|f| (f.entry, f.kind)).collect();
    assert_eq!(
        kinds,
        vec![(1, FunctionKind::Returning), (2, FunctionKind::Returning), (0, FunctionKind::Root)]
    );
    assert_eq!(ownership.root(), 2);
    assert!(ownership.is_owned_by(0, 2));
    assert!(ownership.is_owned_by(1, 0));
    assert!(ownership.is_owned_by(2, 1));
    assert!(ownership.is_owned_by(3, 0));
    assert!(ownership.is_owned_by(3, 1));
    assert!(!ownership.is_owned_by(3, 2));

    let verification = verify(&decoded, &inference, &cfg, &ownership).unwrap();
    let returning = FunctionArity::Returning(ReturningArity {
        physical: StackIO { inputs: 1, outputs: 1 },
        return_input: 0,
    });
    assert_eq!(verification.function(0).verified_arity(), returning);
    assert_eq!(verification.function(1).verified_arity(), returning);
    assert_eq!(verification.function(2).verified_arity(), FunctionArity::Root);
    assert_eq!(verification.postorder(), &[0, 1, 2]);
    assert_eq!(verification.return_push(2, 2), Some(0));
    assert_eq!(verification.return_push(2, 6), Some(4));
    assert!(verification.is_return_push(2, 0));
    assert!(verification.is_return_push(2, 4));
    assert!(!verification.is_return_push(2, 1));
    assert!(verification.is_control_push(2, 1));
    assert!(verification.is_control_push(2, 5));
    let epilogue = verification.entry_state(0, 3).unwrap();
    assert!(epilogue.is_open());
    assert!(epilogue.values_top_first().is_empty());
    assert!(verification.entry_state(0, 2).is_none());

    let classified = classify(&decoded, &inference, &ownership);
    assert!(classified.data_sections().is_empty());

    let ssa = build_ssa(&decoded, &inference, &cfg, &ownership, &verification).unwrap();
    assert_eq!(
        ownership.display(&inference),
        "functions:\n    f0: Returning entry=@1\n    f1: Returning entry=@2\n    f2: Root entry=@0\nblocks:\n    @0 [0x0,0xd) owner=f2\n    @1 [0xd,0x11) owner=f0\n    @2 [0x11,0x15) owner=f1\n    @3 [0x15,0x19) duplicated in f0 f1\n"
    );
    assert_eq!(
        ssa.display(),
        "fn f0 Returning inputs=0 outputs=1 entry=%1\n    %1 ; @1\n        => %3\n    %3 -> v2 ; @3\n        v2 = const 0x0\n        => iret\nfn f1 Returning inputs=0 outputs=1 entry=%2\n    %2 ; @2\n        => %4\n    %4 -> v3 ; @3\n        v3 = const 0x0\n        => iret\nfn f2 Root inputs=0 outputs=0 entry=%0\n    %0 ; @0\n        v0 = icall f0\n        v1 = icall f1\n        STOP\n        => terminates\n"
    );
    assert_eq!(ssa.functions().len(), 3);
    assert_eq!(ssa.blocks().len(), 5);
    let f0 = &ssa.functions()[0];
    assert_eq!(f0.kind, FunctionKind::Returning);
    assert_eq!(f0.inputs, 0);
    assert_eq!(f0.outputs, 1);
    let f2 = &ssa.functions()[2];
    assert_eq!(f2.kind, FunctionKind::Root);
    assert_eq!(f2.blocks.len(), 1);
    let root_block = &ssa.blocks()[f2.entry as usize];
    let ops: Vec<SsaOperationKind> = root_block.operations.iter().map(|o| o.kind).collect();
    assert_eq!(
        ops,
        vec![
            SsaOperationKind::InternalCall(0),
            SsaOperationKind::InternalCall(1),
            SsaOperationKind::Opcode(plank_sir::Opcode::Stop),
        ]
    );
    assert_eq!(root_block.control, SsaControl::Terminates);
    assert_eq!(ssa.source_block(0, 2), None);
    let epilogue0 = ssa.source_block(0, 3).unwrap();
    let epilogue1 = ssa.source_block(1, 3).unwrap();
    assert_ne!(epilogue0, epilogue1);
    for block in [epilogue0, epilogue1] {
        let b = &ssa.blocks()[block as usize];
        assert_eq!(b.control, SsaControl::InternalReturn);
        assert_eq!(b.operations.len(), 1);
        assert_eq!(b.operations[0].kind, SsaOperationKind::Constant(Word::zero()));
        assert_eq!(b.outputs, b.operations[0].outputs);
        let value = b.outputs[0];
        assert_eq!(
            ssa.values()[value as usize],
            SsaValueOrigin::Operation { block, operation: 0, output: 0 }
        );
    }
}

#[test]
fn recursive_call_is_refused() {
    // The root calls f at 0x7 and returns to 0x5; f calls itself and
    // returns to 0xd before its own return jump.
    let bytes = hex("60056007565b005b600d6007565b56");
    let decoded = decode(&bytes).unwrap();
    assert_eq!(decoded.instruction(5).pc, 7);
    assert_eq!(decoded.instruction(8).pc, 12);
    let jumps = static_jumps(&decoded, &[(2, 1, 7), (8, 7, 7)]);
    let inference = infer_internal_calls(&decoded, &jumps);
    assert_eq!(inference.functions().len(), 1);
    assert_eq!(inference.calls().len(), 2);
    let cfg = build_provisional_cfg(&decoded, &inference);
    let ownership = analyze_ownership(&inference, &cfg).unwrap();
    let error = verify(&decoded, &inference, &cfg, &ownership).err().unwrap();
    assert_eq!(error, VerificationError::RecursiveCall { function: 0 });
}

#[test]
fn branch_successors_are_listed_non_zero_first() {
    assert_eq!(BlockControl::Branch { non_zero: 4, zero: 2 }.successors(), vec![4, 2]);
    assert_eq!(BlockControl::Fallthrough(3).successors(), vec![3]);
    assert_eq!(BlockControl::Goto(1).successors(), vec![1]);
    assert!(BlockControl::InternalReturn.successors().is_empty());
    assert!(BlockControl::UnresolvedJump.successors().is_empty());
}

#[test]
fn straight_line_root_lowers_to_one_block() {
    // PUSH1 1; PUSH1 2; ADD; PUSH0; MSTORE; STOP
    let bytes = hex("600160020160005200");
    let (decoded, inference) = pipeline_front(&bytes, &[]);
    let cfg = build_provisional_cfg(&decoded, &inference);
    assert_eq!(cfg.control(0), BlockControl::Terminates);
    let ownership = analyze_ownership(&inference, &cfg).unwrap();
    let verification = verify(&decoded, &inference, &cfg, &ownership).unwrap();
    let ssa = build_ssa(&decoded, &inference, &cfg, &ownership, &verification).unwrap();
    assert_eq!(ssa.blocks().len(), 1);
    let ops: Vec<SsaOperationKind> = ssa.blocks()[0].operations.iter().map(|o| o.kind).collect();
    assert_eq!(
        ops,
        vec![
            SsaOperationKind::Constant(Word::from_u32(1)),
            SsaOperationKind::Constant(Word::from_u32(2)),
            SsaOperationKind::Opcode(plank_sir::Opcode::Add),
            SsaOperationKind::Constant(Word::zero()),
            SsaOperationKind::Opcode(plank_sir::Opcode::MStore),
            SsaOperationKind::Opcode(plank_sir::Opcode::Stop),
        ]
    );
    // ADD takes the top of the stack first.
    let add = &ssa.blocks()[0].operations[2];
    assert_eq!(add.inputs, vec![1, 0]);
    assert_eq!(add.outputs, vec![2]);
    let store = &ssa.blocks()[0].operations[4];
    assert_eq!(store.inputs, vec![3, 2]);
    assert!(store.outputs.is_empty());
}

#[test]
fn root_underflow_is_reported() {
    // ADD with an empty stack in the root.
    let bytes = hex("0100");
    let (decoded, inference) = pipeline_front(&bytes, &[]);
    let cfg = build_provisional_cfg(&decoded, &inference);
    let ownership = analyze_ownership(&inference, &cfg).unwrap();
    let error = verify(&decoded, &inference, &cfg, &ownership).err().unwrap();
    assert_eq!(error, VerificationError::StackUnderflow { function: 0, block: 0, instruction: 0 });
}

#[test]
fn computed_return_destination_is_refused() {
    // PUSH0; CALLDATALOAD; JUMP: a jump with no known target reads as a
    // return, and a loaded word is no return address.
    let bytes = hex("5f3556");
    let (decoded, inference) = pipeline_front(&bytes, &[]);
    let cfg = build_provisional_cfg(&decoded, &inference);
    assert_eq!(cfg.control(0), BlockControl::InternalReturn);
    let ownership = analyze_ownership(&inference, &cfg).unwrap();
    let error = verify(&decoded, &inference, &cfg, &ownership).err().unwrap();
    assert_eq!(
        error,
        VerificationError::InvalidReturnDestination { function: 0, block: 0, instruction: 2 }
    );
}

#[test]
fn unresolved_root_branch_is_reported() {
    // PUSH0; CALLDATALOAD; PUSH0; JUMPI; STOP: the branch target is not known.
    let bytes = hex("5f355f5700");
    let (decoded, inference) = pipeline_front(&bytes, &[]);
    let cfg = build_provisional_cfg(&decoded, &inference);
    assert_eq!(cfg.control(0), BlockControl::UnresolvedJumpI);
    let ownership = analyze_ownership(&inference, &cfg).unwrap();
    let error = verify(&decoded, &inference, &cfg, &ownership).err().unwrap();
    assert_eq!(error, VerificationError::UnresolvedControl { function: 0, block: 0 });
}

#[test]
fn called_function_without_return_is_refused() {
    // The root calls a function at 0x7 that stops instead of returning.
    let bytes = hex("60056007565b005b00");
    let (decoded, inference) = pipeline_front(&bytes, &[(2, 1, 7)]);
    assert_eq!(inference.functions().len(), 1);
    let cfg = build_provisional_cfg(&decoded, &inference);
    let ownership = analyze_ownership(&inference, &cfg).unwrap();
    assert_eq!(ownership.functions()[0].kind, FunctionKind::Returning);
    let error = verify(&decoded, &inference, &cfg, &ownership).err().unwrap();
    assert_eq!(error, VerificationError::NoInternalReturn { function: 0 });
}

#[test]
fn program_counter_reads_are_refused_for_lowering() {
    // PC; STOP
    let bytes = hex("5800");
    let (decoded, inference) = pipeline_front(&bytes, &[]);
    let cfg = build_provisional_cfg(&decoded, &inference);
    let ownership = analyze_ownership(&inference, &cfg).unwrap();
    let verification = verify(&decoded, &inference, &cfg, &ownership).unwrap();
    let ssa = build_ssa(&decoded, &inference, &cfg, &ownership, &verification).unwrap();
    assert_eq!(
        validate_supported_operations(&ssa),
        Err(LowerError::UnsupportedOpcode(plank_sir::Opcode::Pc))
    );
    let straight = hex("600160020160005200");
    let (decoded, inference) = pipeline_front(&straight, &[]);
    let cfg = build_provisional_cfg(&decoded, &inference);
    let ownership = analyze_ownership(&inference, &cfg).unwrap();
    let verification = verify(&decoded, &inference, &cfg, &ownership).unwrap();
    let ssa = build_ssa(&decoded, &inference, &cfg, &ownership, &verification).unwrap();
    assert_eq!(validate_supported_operations(&ssa), Ok(()));
}
