use plank_sir::cfg::build_provisional_cfg;
use plank_sir::classify::classify;
use plank_sir::decode::decode;
use plank_sir::icall::infer_internal_calls;
use plank_sir::ownership::analyze_ownership;
use plank_sir::primitive_blocks::StaticJumpDestination;
use plank_sir::ssa::build_ssa;
use plank_sir::verify::verify;

fn hex(source: &str) -> Vec<u8> {
    let digits: Vec<u8> = source
        .bytes()
        .map(|c| match c {
            b'0'..=b'9' => c - b'0',
            b'a'..=b'f' => c - b'a' + 10,
            _ => panic!("not a hex digit"),
        })
        .collect();
    digits.chunks(2).map(|pair| pair[0] * 16 + pair[1]).collect()
}

fn jumps(count: usize, known: &[(u32, u32, u32)]) -> Vec<Option<StaticJumpDestination>> {
    let mut jumps = vec![None; count];
    for &(instruction, push, pc) in known {
        jumps[instruction as usize] = Some(StaticJumpDestination { push, pc });
    }
    jumps
}

// PUSH1 1; PUSH1 2; ADD; PUSH0... written with PUSH1 0; MSTORE; STOP
const STRAIGHT_LINE: &str = "600160020160005200";

#[test]
fn straight_line_listings() {
    let bytes = hex(STRAIGHT_LINE);
    let decoded = decode(&bytes).unwrap();
    let inference = infer_internal_calls(&decoded, &jumps(decoded.instructions().len(), &[]));
    assert_eq!(
        inference.display(&decoded),
        "functions:\nblocks:\n    @0 pc=[0x0,0x9)\n        #0 00000000: PUSH1\n        #1 00000002: PUSH1\n        #2 00000004: ADD\n        #3 00000005: PUSH1\n        #4 00000007: MSTORE\n        #5 00000008: STOP\n"
    );
    let cfg = build_provisional_cfg(&decoded, &inference);
    assert_eq!(cfg.display(&decoded, &inference), "@0 [0x0,0x9) => terminates ; last=#5 pc=0x8\n");
    let ownership = analyze_ownership(&inference, &cfg).unwrap();
    assert_eq!(
        ownership.display(&inference),
        "functions:\n    f0: Root entry=@0\nblocks:\n    @0 [0x0,0x9) owner=f0\n"
    );
    let classified = classify(&decoded, &inference, &ownership);
    assert_eq!(classified.display(&decoded), "no data sections\n");
    let verification = verify(&decoded, &inference, &cfg, &ownership).unwrap();
    let ssa = build_ssa(&decoded, &inference, &cfg, &ownership, &verification).unwrap();
    assert_eq!(
        ssa.display(),
        "fn f0 Root inputs=0 outputs=0 entry=%0\n    %0 ; @0\n        v0 = const 0x1\n        v1 = const 0x2\n        v2 = ADD v1 v0\n        v3 = const 0x0\n        MSTORE v3 v2\n        STOP\n        => terminates\n"
    );
}

#[test]
fn unreachable_bytes_are_listed_as_data() {
    let bytes = hex("006006565b005b56");
    let decoded = decode(&bytes).unwrap();
    let inference = infer_internal_calls(&decoded, &jumps(decoded.instructions().len(), &[(2, 1, 6)]));
    let cfg = build_provisional_cfg(&decoded, &inference);
    let ownership = analyze_ownership(&inference, &cfg).unwrap();
    assert_eq!(
        ownership.display(&inference),
        "functions:\n    f0: Root entry=@0\nblocks:\n    @0 [0x0,0x1) owner=f0\n    @1 [0x1,0x4) data\n    @2 [0x4,0x6) data\n    @3 [0x6,0x8) data\n"
    );
    let classified = classify(&decoded, &inference, &ownership);
    assert_eq!(classified.display(&decoded), ".d0 [0x1,0x8) 0x6006565b005b56\n");
}

#[test]
fn shared_epilogue_owners_are_listed() {
    let bytes = hex("6005600d565b600b6011565b005b6015565b6015565b5f9056");
    let decoded = decode(&bytes).unwrap();
    let known = [(2, 1, 0x0d), (6, 5, 0x11), (11, 10, 0x15), (14, 13, 0x15)];
    let inference = infer_internal_calls(&decoded, &jumps(decoded.instructions().len(), &known));
    let cfg = build_provisional_cfg(&decoded, &inference);
    let ownership = analyze_ownership(&inference, &cfg).unwrap();
    assert_eq!(
        ownership.display(&inference),
        "functions:\n    f0: Returning entry=@1\n    f1: Returning entry=@2\n    f2: Root entry=@0\nblocks:\n    @0 [0x0,0xd) owner=f2\n    @1 [0xd,0x11) owner=f0\n    @2 [0x11,0x15) owner=f1\n    @3 [0x15,0x19) duplicated in f0 f1\n"
    );
    let listing = cfg.display(&decoded, &inference);
    let first = listing.lines().next().unwrap();
    assert_eq!(first, "@0 [0x0,0xd) call(f0 -> 0xd) call(f1 -> 0x11) => terminates ; last=#8 pc=0xc");
}

#[test]
fn wide_constants_are_listed_without_leading_zeros() {
    // PUSH32 (1 << 248); PUSH9 (1 << 64); STOP
    let mut source = String::from("7f01");
    source.push_str(&"00".repeat(31));
    source.push_str("68010000000000000000");
    source.push_str("00");
    let bytes = hex(&source);
    let decoded = decode(&bytes).unwrap();
    let inference = infer_internal_calls(&decoded, &jumps(decoded.instructions().len(), &[]));
    let cfg = build_provisional_cfg(&decoded, &inference);
    let ownership = analyze_ownership(&inference, &cfg).unwrap();
    let verification = verify(&decoded, &inference, &cfg, &ownership).unwrap();
    let ssa = build_ssa(&decoded, &inference, &cfg, &ownership, &verification).unwrap();
    let listing = ssa.display();
    let lines: Vec<&str> = listing.lines().collect();
    assert_eq!(lines[2], format!("        v0 = const 0x1{}", "0".repeat(62)));
    assert_eq!(lines[3], "        v1 = const 0x10000000000000000");
    assert_eq!(lines[4], "        STOP");
}

#[test]
fn stack_effects_are_listed_as_inputs_then_outputs() {
    assert_eq!(plank_sir::StackIO::new(2, 1).display(), "2,1");
    assert_eq!(plank_sir::Opcode::Swap3.stack_io().display(), "4,4");
}
