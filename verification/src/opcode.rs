use vstd::prelude::*;
use vstd::string::*;

use crate::text::{dec_text, push_dec};

verus! {

/// The net effect of an operation on the EVM stack: how many values it
/// consumes from the top and how many it leaves in their place.
#[derive(Debug, Clone, Copy, PartialEq, Eq, Hash, Structural)]
pub struct StackIO {
    pub inputs: u16,
    pub outputs: u16,
}

/// Composition of two stack effects over unbounded integers: running `a`
/// and then `b` consumes `a.0` plus whatever `b` needs beyond `a`'s outputs,
/// and leaves `b`'s outputs plus whatever of `a`'s outputs `b` left alone.
pub open spec fn chain_io(a: (int, int), b: (int, int)) -> (int, int) {
    (
        a.0 + if b.0 > a.1 { b.0 - a.1 } else { 0 },
        b.1 + if a.1 > b.0 { a.1 - b.0 } else { 0 },
    )
}

impl StackIO {
    pub open spec fn pair(self) -> (int, int) {
        (self.inputs as int, self.outputs as int)
    }

    /// Net change of the stack height.
    pub open spec fn net(self) -> int {
        self.outputs - self.inputs
    }

    pub open spec fn chain_fits(self, snd: StackIO) -> bool {
        chain_io(self.pair(), snd.pair()).0 <= u16::MAX && chain_io(self.pair(), snd.pair()).1
            <= u16::MAX
    }

    pub fn new(inputs: u16, outputs: u16) -> (r: StackIO)
        ensures
            r.inputs == inputs,
            r.outputs == outputs,
    {
        StackIO { inputs, outputs }
    }

    /// The effect of running `self` and then `snd`.
    pub fn chain(self, snd: StackIO) -> (r: StackIO)
        requires
            self.chain_fits(snd),
        ensures
            r.pair() == chain_io(self.pair(), snd.pair()),
    {
        let extra_inputs: u16 = if snd.inputs > self.outputs { snd.inputs - self.outputs } else { 0 };
        let kept_outputs: u16 = if self.outputs > snd.inputs { self.outputs - snd.inputs } else { 0 };
        StackIO::new(self.inputs + extra_inputs, snd.outputs + kept_outputs)
    }

    /// `inputs,outputs`, in decimal.
    pub fn display(self) -> (r: String)
        ensures
            r@ == dec_text(self.inputs as nat) + ","@ + dec_text(self.outputs as nat),
    {
        let mut text = String::new();
        push_dec(&mut text, self.inputs as u64);
        text.append(",");
        push_dec(&mut text, self.outputs as u64);
        text
    }

    /// Whether both effects change the stack height by the same amount.
    pub fn matches(self, other: StackIO) -> (r: bool)
        ensures
            r == (self.net() == other.net()),
    {
        let self_shrinks = self.inputs >= self.outputs;
        let other_shrinks = other.inputs >= other.outputs;
        let self_diff: u16 = if self_shrinks { self.inputs - self.outputs } else { self.outputs - self.inputs };
        let other_diff: u16 = if other_shrinks { other.inputs - other.outputs } else { other.outputs - other.inputs };
        self_shrinks == other_shrinks && self_diff == other_diff
    }
}

/// Chaining stack effects is associative.
pub proof fn lemma_chain_associative(a: (int, int), b: (int, int), c: (int, int))
    requires
        a.0 >= 0, a.1 >= 0, b.0 >= 0, b.1 >= 0, c.0 >= 0, c.1 >= 0,
    ensures
        chain_io(chain_io(a, b), c) == chain_io(a, chain_io(b, c)),
{
}

/// The empty effect is a neutral element of chaining on both sides.
pub proof fn lemma_chain_identity(a: (int, int))
    requires
        a.0 >= 0, a.1 >= 0,
    ensures
        chain_io((0, 0), a) == a,
        chain_io(a, (0, 0)) == a,
{
}

/// The net height change of a chain is the sum of the net changes.
pub proof fn lemma_chain_net(a: (int, int), b: (int, int))
    ensures
        chain_io(a, b).1 - chain_io(a, b).0 == (a.1 - a.0) + (b.1 - b.0),
{
}

/// An EVM opcode.
#[derive(Debug, Clone, Copy, PartialEq, Eq, Hash, Structural)]
pub enum Opcode {
    Stop,
    Add,
    Mul,
    Sub,
    Div,
    Sdiv,
    Mod,
    Smod,
    AddMod,
    MulMod,
    Exp,
    SignExtend,
    Lt,
    Gt,
    Slt,
    Sgt,
    Eq,
    IsZero,
    And,
    Or,
    Xor,
    Not,
    Byte,
    Shl,
    Shr,
    Sar,
    Clz,
    Keccak256,
    Address,
    Balance,
    Origin,
    Caller,
    CallValue,
    CallDataLoad,
    CallDataSize,
    CallDataCopy,
    CodeSize,
    CodeCopy,
    GasPrice,
    ExtCodeSize,
    ExtCodeCopy,
    ReturnDataSize,
    ReturnDataCopy,
    ExtCodeHash,
    BlockHash,
    Coinbase,
    Timestamp,
    Number,
    PrevRandao,
    GasLimit,
    ChainId,
    SelfBalance,
    BaseFee,
    BlobHash,
    BlobBaseFee,
    Pop,
    MLoad,
    MStore,
    MStore8,
    SLoad,
    SStore,
    Jump,
    JumpI,
    Pc,
    MSize,
    Gas,
    JumpDest,
    TLoad,
    TStore,
    MCopy,
    Push0,
    Push1,
    Push2,
    Push3,
    Push4,
    Push5,
    Push6,
    Push7,
    Push8,
    Push9,
    Push10,
    Push11,
    Push12,
    Push13,
    Push14,
    Push15,
    Push16,
    Push17,
    Push18,
    Push19,
    Push20,
    Push21,
    Push22,
    Push23,
    Push24,
    Push25,
    Push26,
    Push27,
    Push28,
    Push29,
    Push30,
    Push31,
    Push32,
    Dup1,
    Dup2,
    Dup3,
    Dup4,
    Dup5,
    Dup6,
    Dup7,
    Dup8,
    Dup9,
    Dup10,
    Dup11,
    Dup12,
    Dup13,
    Dup14,
    Dup15,
    Dup16,
    Swap1,
    Swap2,
    Swap3,
    Swap4,
    Swap5,
    Swap6,
    Swap7,
    Swap8,
    Swap9,
    Swap10,
    Swap11,
    Swap12,
    Swap13,
    Swap14,
    Swap15,
    Swap16,
    Log0,
    Log1,
    Log2,
    Log3,
    Log4,
    Create,
    Call,
    CallCode,
    Return,
    DelegateCall,
    Create2,
    StaticCall,
    Revert,
    Invalid,
    SelfDestruct,
}

impl Opcode {
    /// The byte that encodes this opcode.
    pub open spec fn spec_byte(self) -> u8 {
        match self {
            Opcode::Stop => 0x00,
            Opcode::Add => 0x01,
            Opcode::Mul => 0x02,
            Opcode::Sub => 0x03,
            Opcode::Div => 0x04,
            Opcode::Sdiv => 0x05,
            Opcode::Mod => 0x06,
            Opcode::Smod => 0x07,
            Opcode::AddMod => 0x08,
            Opcode::MulMod => 0x09,
            Opcode::Exp => 0x0a,
            Opcode::SignExtend => 0x0b,
            Opcode::Lt => 0x10,
            Opcode::Gt => 0x11,
            Opcode::Slt => 0x12,
            Opcode::Sgt => 0x13,
            Opcode::Eq => 0x14,
            Opcode::IsZero => 0x15,
            Opcode::And => 0x16,
            Opcode::Or => 0x17,
            Opcode::Xor => 0x18,
            Opcode::Not => 0x19,
            Opcode::Byte => 0x1a,
            Opcode::Shl => 0x1b,
            Opcode::Shr => 0x1c,
            Opcode::Sar => 0x1d,
            Opcode::Clz => 0x1e,
            Opcode::Keccak256 => 0x20,
            Opcode::Address => 0x30,
            Opcode::Balance => 0x31,
            Opcode::Origin => 0x32,
            Opcode::Caller => 0x33,
            Opcode::CallValue => 0x34,
            Opcode::CallDataLoad => 0x35,
            Opcode::CallDataSize => 0x36,
            Opcode::CallDataCopy => 0x37,
            Opcode::CodeSize => 0x38,
            Opcode::CodeCopy => 0x39,
            Opcode::GasPrice => 0x3a,
            Opcode::ExtCodeSize => 0x3b,
            Opcode::ExtCodeCopy => 0x3c,
            Opcode::ReturnDataSize => 0x3d,
            Opcode::ReturnDataCopy => 0x3e,
            Opcode::ExtCodeHash => 0x3f,
            Opcode::BlockHash => 0x40,
            Opcode::Coinbase => 0x41,
            Opcode::Timestamp => 0x42,
            Opcode::Number => 0x43,
            Opcode::PrevRandao => 0x44,
            Opcode::GasLimit => 0x45,
            Opcode::ChainId => 0x46,
            Opcode::SelfBalance => 0x47,
            Opcode::BaseFee => 0x48,
            Opcode::BlobHash => 0x49,
            Opcode::BlobBaseFee => 0x4a,
            Opcode::Pop => 0x50,
            Opcode::MLoad => 0x51,
            Opcode::MStore => 0x52,
            Opcode::MStore8 => 0x53,
            Opcode::SLoad => 0x54,
            Opcode::SStore => 0x55,
            Opcode::Jump => 0x56,
            Opcode::JumpI => 0x57,
            Opcode::Pc => 0x58,
            Opcode::MSize => 0x59,
            Opcode::Gas => 0x5a,
            Opcode::JumpDest => 0x5b,
            Opcode::TLoad => 0x5c,
            Opcode::TStore => 0x5d,
            Opcode::MCopy => 0x5e,
            Opcode::Push0 => 0x5f,
            Opcode::Push1 => 0x60,
            Opcode::Push2 => 0x61,
            Opcode::Push3 => 0x62,
            Opcode::Push4 => 0x63,
            Opcode::Push5 => 0x64,
            Opcode::Push6 => 0x65,
            Opcode::Push7 => 0x66,
            Opcode::Push8 => 0x67,
            Opcode::Push9 => 0x68,
            Opcode::Push10 => 0x69,
            Opcode::Push11 => 0x6a,
            Opcode::Push12 => 0x6b,
            Opcode::Push13 => 0x6c,
            Opcode::Push14 => 0x6d,
            Opcode::Push15 => 0x6e,
            Opcode::Push16 => 0x6f,
            Opcode::Push17 => 0x70,
            Opcode::Push18 => 0x71,
            Opcode::Push19 => 0x72,
            Opcode::Push20 => 0x73,
            Opcode::Push21 => 0x74,
            Opcode::Push22 => 0x75,
            Opcode::Push23 => 0x76,
            Opcode::Push24 => 0x77,
            Opcode::Push25 => 0x78,
            Opcode::Push26 => 0x79,
            Opcode::Push27 => 0x7a,
            Opcode::Push28 => 0x7b,
            Opcode::Push29 => 0x7c,
            Opcode::Push30 => 0x7d,
            Opcode::Push31 => 0x7e,
            Opcode::Push32 => 0x7f,
            Opcode::Dup1 => 0x80,
            Opcode::Dup2 => 0x81,
            Opcode::Dup3 => 0x82,
            Opcode::Dup4 => 0x83,
            Opcode::Dup5 => 0x84,
            Opcode::Dup6 => 0x85,
            Opcode::Dup7 => 0x86,
            Opcode::Dup8 => 0x87,
            Opcode::Dup9 => 0x88,
            Opcode::Dup10 => 0x89,
            Opcode::Dup11 => 0x8a,
            Opcode::Dup12 => 0x8b,
            Opcode::Dup13 => 0x8c,
            Opcode::Dup14 => 0x8d,
            Opcode::Dup15 => 0x8e,
            Opcode::Dup16 => 0x8f,
            Opcode::Swap1 => 0x90,
            Opcode::Swap2 => 0x91,
            Opcode::Swap3 => 0x92,
            Opcode::Swap4 => 0x93,
            Opcode::Swap5 => 0x94,
            Opcode::Swap6 => 0x95,
            Opcode::Swap7 => 0x96,
            Opcode::Swap8 => 0x97,
            Opcode::Swap9 => 0x98,
            Opcode::Swap10 => 0x99,
            Opcode::Swap11 => 0x9a,
            Opcode::Swap12 => 0x9b,
            Opcode::Swap13 => 0x9c,
            Opcode::Swap14 => 0x9d,
            Opcode::Swap15 => 0x9e,
            Opcode::Swap16 => 0x9f,
            Opcode::Log0 => 0xa0,
            Opcode::Log1 => 0xa1,
            Opcode::Log2 => 0xa2,
            Opcode::Log3 => 0xa3,
            Opcode::Log4 => 0xa4,
            Opcode::Create => 0xf0,
            Opcode::Call => 0xf1,
            Opcode::CallCode => 0xf2,
            Opcode::Return => 0xf3,
            Opcode::DelegateCall => 0xf4,
            Opcode::Create2 => 0xf5,
            Opcode::StaticCall => 0xfa,
            Opcode::Revert => 0xfd,
            Opcode::Invalid => 0xfe,
            Opcode::SelfDestruct => 0xff,
        }
    }

    pub open spec fn spec_from_byte(byte: u8) -> Option<Opcode> {
        match byte {
            0x00 => Some(Opcode::Stop),
            0x01 => Some(Opcode::Add),
            0x02 => Some(Opcode::Mul),
            0x03 => Some(Opcode::Sub),
            0x04 => Some(Opcode::Div),
            0x05 => Some(Opcode::Sdiv),
            0x06 => Some(Opcode::Mod),
            0x07 => Some(Opcode::Smod),
            0x08 => Some(Opcode::AddMod),
            0x09 => Some(Opcode::MulMod),
            0x0a => Some(Opcode::Exp),
            0x0b => Some(Opcode::SignExtend),
            0x10 => Some(Opcode::Lt),
            0x11 => Some(Opcode::Gt),
            0x12 => Some(Opcode::Slt),
            0x13 => Some(Opcode::Sgt),
            0x14 => Some(Opcode::Eq),
            0x15 => Some(Opcode::IsZero),
            0x16 => Some(Opcode::And),
            0x17 => Some(Opcode::Or),
            0x18 => Some(Opcode::Xor),
            0x19 => Some(Opcode::Not),
            0x1a => Some(Opcode::Byte),
            0x1b => Some(Opcode::Shl),
            0x1c => Some(Opcode::Shr),
            0x1d => Some(Opcode::Sar),
            0x1e => Some(Opcode::Clz),
            0x20 => Some(Opcode::Keccak256),
            0x30 => Some(Opcode::Address),
            0x31 => Some(Opcode::Balance),
            0x32 => Some(Opcode::Origin),
            0x33 => Some(Opcode::Caller),
            0x34 => Some(Opcode::CallValue),
            0x35 => Some(Opcode::CallDataLoad),
            0x36 => Some(Opcode::CallDataSize),
            0x37 => Some(Opcode::CallDataCopy),
            0x38 => Some(Opcode::CodeSize),
            0x39 => Some(Opcode::CodeCopy),
            0x3a => Some(Opcode::GasPrice),
            0x3b => Some(Opcode::ExtCodeSize),
            0x3c => Some(Opcode::ExtCodeCopy),
            0x3d => Some(Opcode::ReturnDataSize),
            0x3e => Some(Opcode::ReturnDataCopy),
            0x3f => Some(Opcode::ExtCodeHash),
            0x40 => Some(Opcode::BlockHash),
            0x41 => Some(Opcode::Coinbase),
            0x42 => Some(Opcode::Timestamp),
            0x43 => Some(Opcode::Number),
            0x44 => Some(Opcode::PrevRandao),
            0x45 => Some(Opcode::GasLimit),
            0x46 => Some(Opcode::ChainId),
            0x47 => Some(Opcode::SelfBalance),
            0x48 => Some(Opcode::BaseFee),
            0x49 => Some(Opcode::BlobHash),
            0x4a => Some(Opcode::BlobBaseFee),
            0x50 => Some(Opcode::Pop),
            0x51 => Some(Opcode::MLoad),
            0x52 => Some(Opcode::MStore),
            0x53 => Some(Opcode::MStore8),
            0x54 => Some(Opcode::SLoad),
            0x55 => Some(Opcode::SStore),
            0x56 => Some(Opcode::Jump),
            0x57 => Some(Opcode::JumpI),
            0x58 => Some(Opcode::Pc),
            0x59 => Some(Opcode::MSize),
            0x5a => Some(Opcode::Gas),
            0x5b => Some(Opcode::JumpDest),
            0x5c => Some(Opcode::TLoad),
            0x5d => Some(Opcode::TStore),
            0x5e => Some(Opcode::MCopy),
            0x5f => Some(Opcode::Push0),
            0x60 => Some(Opcode::Push1),
            0x61 => Some(Opcode::Push2),
            0x62 => Some(Opcode::Push3),
            0x63 => Some(Opcode::Push4),
            0x64 => Some(Opcode::Push5),
            0x65 => Some(Opcode::Push6),
            0x66 => Some(Opcode::Push7),
            0x67 => Some(Opcode::Push8),
            0x68 => Some(Opcode::Push9),
            0x69 => Some(Opcode::Push10),
            0x6a => Some(Opcode::Push11),
            0x6b => Some(Opcode::Push12),
            0x6c => Some(Opcode::Push13),
            0x6d => Some(Opcode::Push14),
            0x6e => Some(Opcode::Push15),
            0x6f => Some(Opcode::Push16),
            0x70 => Some(Opcode::Push17),
            0x71 => Some(Opcode::Push18),
            0x72 => Some(Opcode::Push19),
            0x73 => Some(Opcode::Push20),
            0x74 => Some(Opcode::Push21),
            0x75 => Some(Opcode::Push22),
            0x76 => Some(Opcode::Push23),
            0x77 => Some(Opcode::Push24),
            0x78 => Some(Opcode::Push25),
            0x79 => Some(Opcode::Push26),
            0x7a => Some(Opcode::Push27),
            0x7b => Some(Opcode::Push28),
            0x7c => Some(Opcode::Push29),
            0x7d => Some(Opcode::Push30),
            0x7e => Some(Opcode::Push31),
            0x7f => Some(Opcode::Push32),
            0x80 => Some(Opcode::Dup1),
            0x81 => Some(Opcode::Dup2),
            0x82 => Some(Opcode::Dup3),
            0x83 => Some(Opcode::Dup4),
            0x84 => Some(Opcode::Dup5),
            0x85 => Some(Opcode::Dup6),
            0x86 => Some(Opcode::Dup7),
            0x87 => Some(Opcode::Dup8),
            0x88 => Some(Opcode::Dup9),
            0x89 => Some(Opcode::Dup10),
            0x8a => Some(Opcode::Dup11),
            0x8b => Some(Opcode::Dup12),
            0x8c => Some(Opcode::Dup13),
            0x8d => Some(Opcode::Dup14),
            0x8e => Some(Opcode::Dup15),
            0x8f => Some(Opcode::Dup16),
            0x90 => Some(Opcode::Swap1),
            0x91 => Some(Opcode::Swap2),
            0x92 => Some(Opcode::Swap3),
            0x93 => Some(Opcode::Swap4),
            0x94 => Some(Opcode::Swap5),
            0x95 => Some(Opcode::Swap6),
            0x96 => Some(Opcode::Swap7),
            0x97 => Some(Opcode::Swap8),
            0x98 => Some(Opcode::Swap9),
            0x99 => Some(Opcode::Swap10),
            0x9a => Some(Opcode::Swap11),
            0x9b => Some(Opcode::Swap12),
            0x9c => Some(Opcode::Swap13),
            0x9d => Some(Opcode::Swap14),
            0x9e => Some(Opcode::Swap15),
            0x9f => Some(Opcode::Swap16),
            0xa0 => Some(Opcode::Log0),
            0xa1 => Some(Opcode::Log1),
            0xa2 => Some(Opcode::Log2),
            0xa3 => Some(Opcode::Log3),
            0xa4 => Some(Opcode::Log4),
            0xf0 => Some(Opcode::Create),
            0xf1 => Some(Opcode::Call),
            0xf2 => Some(Opcode::CallCode),
            0xf3 => Some(Opcode::Return),
            0xf4 => Some(Opcode::DelegateCall),
            0xf5 => Some(Opcode::Create2),
            0xfa => Some(Opcode::StaticCall),
            0xfd => Some(Opcode::Revert),
            0xfe => Some(Opcode::Invalid),
            0xff => Some(Opcode::SelfDestruct),
            _ => None,
        }
    }

    /// The opcode's effect on the stack as `(inputs, outputs)`.
    pub open spec fn spec_stack_io(self) -> StackIO {
        match self {
            Opcode::Stop => StackIO { inputs: 0, outputs: 0 },
            Opcode::Add => StackIO { inputs: 2, outputs: 1 },
            Opcode::Mul => StackIO { inputs: 2, outputs: 1 },
            Opcode::Sub => StackIO { inputs: 2, outputs: 1 },
            Opcode::Div => StackIO { inputs: 2, outputs: 1 },
            Opcode::Sdiv => StackIO { inputs: 2, outputs: 1 },
            Opcode::Mod => StackIO { inputs: 2, outputs: 1 },
            Opcode::Smod => StackIO { inputs: 2, outputs: 1 },
            Opcode::AddMod => StackIO { inputs: 3, outputs: 1 },
            Opcode::MulMod => StackIO { inputs: 3, outputs: 1 },
            Opcode::Exp => StackIO { inputs: 2, outputs: 1 },
            Opcode::SignExtend => StackIO { inputs: 2, outputs: 1 },
            Opcode::Lt => StackIO { inputs: 2, outputs: 1 },
            Opcode::Gt => StackIO { inputs: 2, outputs: 1 },
            Opcode::Slt => StackIO { inputs: 2, outputs: 1 },
            Opcode::Sgt => StackIO { inputs: 2, outputs: 1 },
            Opcode::Eq => StackIO { inputs: 2, outputs: 1 },
            Opcode::IsZero => StackIO { inputs: 1, outputs: 1 },
            Opcode::And => StackIO { inputs: 2, outputs: 1 },
            Opcode::Or => StackIO { inputs: 2, outputs: 1 },
            Opcode::Xor => StackIO { inputs: 2, outputs: 1 },
            Opcode::Not => StackIO { inputs: 1, outputs: 1 },
            Opcode::Byte => StackIO { inputs: 2, outputs: 1 },
            Opcode::Shl => StackIO { inputs: 2, outputs: 1 },
            Opcode::Shr => StackIO { inputs: 2, outputs: 1 },
            Opcode::Sar => StackIO { inputs: 2, outputs: 1 },
            Opcode::Clz => StackIO { inputs: 1, outputs: 1 },
            Opcode::Keccak256 => StackIO { inputs: 2, outputs: 1 },
            Opcode::Address => StackIO { inputs: 0, outputs: 1 },
            Opcode::Balance => StackIO { inputs: 1, outputs: 1 },
            Opcode::Origin => StackIO { inputs: 0, outputs: 1 },
            Opcode::Caller => StackIO { inputs: 0, outputs: 1 },
            Opcode::CallValue => StackIO { inputs: 0, outputs: 1 },
            Opcode::CallDataLoad => StackIO { inputs: 1, outputs: 1 },
            Opcode::CallDataSize => StackIO { inputs: 0, outputs: 1 },
            Opcode::CallDataCopy => StackIO { inputs: 3, outputs: 0 },
            Opcode::CodeSize => StackIO { inputs: 0, outputs: 1 },
            Opcode::CodeCopy => StackIO { inputs: 3, outputs: 0 },
            Opcode::GasPrice => StackIO { inputs: 0, outputs: 1 },
            Opcode::ExtCodeSize => StackIO { inputs: 1, outputs: 1 },
            Opcode::ExtCodeCopy => StackIO { inputs: 4, outputs: 0 },
            Opcode::ReturnDataSize => StackIO { inputs: 0, outputs: 1 },
            Opcode::ReturnDataCopy => StackIO { inputs: 3, outputs: 0 },
            Opcode::ExtCodeHash => StackIO { inputs: 1, outputs: 1 },
            Opcode::BlockHash => StackIO { inputs: 1, outputs: 1 },
            Opcode::Coinbase => StackIO { inputs: 0, outputs: 1 },
            Opcode::Timestamp => StackIO { inputs: 0, outputs: 1 },
            Opcode::Number => StackIO { inputs: 0, outputs: 1 },
            Opcode::PrevRandao => StackIO { inputs: 0, outputs: 1 },
            Opcode::GasLimit => StackIO { inputs: 0, outputs: 1 },
            Opcode::ChainId => StackIO { inputs: 0, outputs: 1 },
            Opcode::SelfBalance => StackIO { inputs: 0, outputs: 1 },
            Opcode::BaseFee => StackIO { inputs: 0, outputs: 1 },
            Opcode::BlobHash => StackIO { inputs: 0, outputs: 1 },
            Opcode::BlobBaseFee => StackIO { inputs: 0, outputs: 1 },
            Opcode::Pop => StackIO { inputs: 1, outputs: 0 },
            Opcode::MLoad => StackIO { inputs: 1, outputs: 1 },
            Opcode::MStore => StackIO { inputs: 2, outputs: 0 },
            Opcode::MStore8 => StackIO { inputs: 2, outputs: 0 },
            Opcode::SLoad => StackIO { inputs: 1, outputs: 1 },
            Opcode::SStore => StackIO { inputs: 2, outputs: 0 },
            Opcode::Jump => StackIO { inputs: 1, outputs: 0 },
            Opcode::JumpI => StackIO { inputs: 2, outputs: 0 },
            Opcode::Pc => StackIO { inputs: 0, outputs: 1 },
            Opcode::MSize => StackIO { inputs: 0, outputs: 1 },
            Opcode::Gas => StackIO { inputs: 0, outputs: 1 },
            Opcode::JumpDest => StackIO { inputs: 0, outputs: 0 },
            Opcode::TLoad => StackIO { inputs: 1, outputs: 1 },
            Opcode::TStore => StackIO { inputs: 2, outputs: 0 },
            Opcode::MCopy => StackIO { inputs: 3, outputs: 0 },
            Opcode::Push0 => StackIO { inputs: 0, outputs: 1 },
            Opcode::Push1 => StackIO { inputs: 0, outputs: 1 },
            Opcode::Push2 => StackIO { inputs: 0, outputs: 1 },
            Opcode::Push3 => StackIO { inputs: 0, outputs: 1 },
            Opcode::Push4 => StackIO { inputs: 0, outputs: 1 },
            Opcode::Push5 => StackIO { inputs: 0, outputs: 1 },
            Opcode::Push6 => StackIO { inputs: 0, outputs: 1 },
            Opcode::Push7 => StackIO { inputs: 0, outputs: 1 },
            Opcode::Push8 => StackIO { inputs: 0, outputs: 1 },
            Opcode::Push9 => StackIO { inputs: 0, outputs: 1 },
            Opcode::Push10 => StackIO { inputs: 0, outputs: 1 },
            Opcode::Push11 => StackIO { inputs: 0, outputs: 1 },
            Opcode::Push12 => StackIO { inputs: 0, outputs: 1 },
            Opcode::Push13 => StackIO { inputs: 0, outputs: 1 },
            Opcode::Push14 => StackIO { inputs: 0, outputs: 1 },
            Opcode::Push15 => StackIO { inputs: 0, outputs: 1 },
            Opcode::Push16 => StackIO { inputs: 0, outputs: 1 },
            Opcode::Push17 => StackIO { inputs: 0, outputs: 1 },
            Opcode::Push18 => StackIO { inputs: 0, outputs: 1 },
            Opcode::Push19 => StackIO { inputs: 0, outputs: 1 },
            Opcode::Push20 => StackIO { inputs: 0, outputs: 1 },
            Opcode::Push21 => StackIO { inputs: 0, outputs: 1 },
            Opcode::Push22 => StackIO { inputs: 0, outputs: 1 },
            Opcode::Push23 => StackIO { inputs: 0, outputs: 1 },
            Opcode::Push24 => StackIO { inputs: 0, outputs: 1 },
            Opcode::Push25 => StackIO { inputs: 0, outputs: 1 },
            Opcode::Push26 => StackIO { inputs: 0, outputs: 1 },
            Opcode::Push27 => StackIO { inputs: 0, outputs: 1 },
            Opcode::Push28 => StackIO { inputs: 0, outputs: 1 },
            Opcode::Push29 => StackIO { inputs: 0, outputs: 1 },
            Opcode::Push30 => StackIO { inputs: 0, outputs: 1 },
            Opcode::Push31 => StackIO { inputs: 0, outputs: 1 },
            Opcode::Push32 => StackIO { inputs: 0, outputs: 1 },
            Opcode::Dup1 => StackIO { inputs: 1, outputs: 2 },
            Opcode::Dup2 => StackIO { inputs: 2, outputs: 3 },
            Opcode::Dup3 => StackIO { inputs: 3, outputs: 4 },
            Opcode::Dup4 => StackIO { inputs: 4, outputs: 5 },
            Opcode::Dup5 => StackIO { inputs: 5, outputs: 6 },
            Opcode::Dup6 => StackIO { inputs: 6, outputs: 7 },
            Opcode::Dup7 => StackIO { inputs: 7, outputs: 8 },
            Opcode::Dup8 => StackIO { inputs: 8, outputs: 9 },
            Opcode::Dup9 => StackIO { inputs: 9, outputs: 10 },
            Opcode::Dup10 => StackIO { inputs: 10, outputs: 11 },
            Opcode::Dup11 => StackIO { inputs: 11, outputs: 12 },
            Opcode::Dup12 => StackIO { inputs: 12, outputs: 13 },
            Opcode::Dup13 => StackIO { inputs: 13, outputs: 14 },
            Opcode::Dup14 => StackIO { inputs: 14, outputs: 15 },
            Opcode::Dup15 => StackIO { inputs: 15, outputs: 16 },
            Opcode::Dup16 => StackIO { inputs: 16, outputs: 17 },
            Opcode::Swap1 => StackIO { inputs: 2, outputs: 2 },
            Opcode::Swap2 => StackIO { inputs: 3, outputs: 3 },
            Opcode::Swap3 => StackIO { inputs: 4, outputs: 4 },
            Opcode::Swap4 => StackIO { inputs: 5, outputs: 5 },
            Opcode::Swap5 => StackIO { inputs: 6, outputs: 6 },
            Opcode::Swap6 => StackIO { inputs: 7, outputs: 7 },
            Opcode::Swap7 => StackIO { inputs: 8, outputs: 8 },
            Opcode::Swap8 => StackIO { inputs: 9, outputs: 9 },
            Opcode::Swap9 => StackIO { inputs: 10, outputs: 10 },
            Opcode::Swap10 => StackIO { inputs: 11, outputs: 11 },
            Opcode::Swap11 => StackIO { inputs: 12, outputs: 12 },
            Opcode::Swap12 => StackIO { inputs: 13, outputs: 13 },
            Opcode::Swap13 => StackIO { inputs: 14, outputs: 14 },
            Opcode::Swap14 => StackIO { inputs: 15, outputs: 15 },
            Opcode::Swap15 => StackIO { inputs: 16, outputs: 16 },
            Opcode::Swap16 => StackIO { inputs: 17, outputs: 17 },
            Opcode::Log0 => StackIO { inputs: 2, outputs: 0 },
            Opcode::Log1 => StackIO { inputs: 3, outputs: 0 },
            Opcode::Log2 => StackIO { inputs: 4, outputs: 0 },
            Opcode::Log3 => StackIO { inputs: 5, outputs: 0 },
            Opcode::Log4 => StackIO { inputs: 6, outputs: 0 },
            Opcode::Create => StackIO { inputs: 3, outputs: 1 },
            Opcode::Call => StackIO { inputs: 7, outputs: 1 },
            Opcode::CallCode => StackIO { inputs: 7, outputs: 1 },
            Opcode::Return => StackIO { inputs: 2, outputs: 0 },
            Opcode::DelegateCall => StackIO { inputs: 6, outputs: 1 },
            Opcode::Create2 => StackIO { inputs: 4, outputs: 1 },
            Opcode::StaticCall => StackIO { inputs: 6, outputs: 1 },
            Opcode::Revert => StackIO { inputs: 2, outputs: 0 },
            Opcode::Invalid => StackIO { inputs: 0, outputs: 0 },
            Opcode::SelfDestruct => StackIO { inputs: 1, outputs: 0 },
        }
    }

    /// The mnemonic of the opcode.
    pub open spec fn spec_name(self) -> Seq<char> {
        match self {
            Opcode::Stop => "STOP"@,
            Opcode::Add => "ADD"@,
            Opcode::Mul => "MUL"@,
            Opcode::Sub => "SUB"@,
            Opcode::Div => "DIV"@,
            Opcode::Sdiv => "SDIV"@,
            Opcode::Mod => "MOD"@,
            Opcode::Smod => "SMOD"@,
            Opcode::AddMod => "ADDMOD"@,
            Opcode::MulMod => "MULMOD"@,
            Opcode::Exp => "EXP"@,
            Opcode::SignExtend => "SIGNEXTEND"@,
            Opcode::Lt => "LT"@,
            Opcode::Gt => "GT"@,
            Opcode::Slt => "SLT"@,
            Opcode::Sgt => "SGT"@,
            Opcode::Eq => "EQ"@,
            Opcode::IsZero => "ISZERO"@,
            Opcode::And => "AND"@,
            Opcode::Or => "OR"@,
            Opcode::Xor => "XOR"@,
            Opcode::Not => "NOT"@,
            Opcode::Byte => "BYTE"@,
            Opcode::Shl => "SHL"@,
            Opcode::Shr => "SHR"@,
            Opcode::Sar => "SAR"@,
            Opcode::Clz => "CLZ"@,
            Opcode::Keccak256 => "KECCAK256"@,
            Opcode::Address => "ADDRESS"@,
            Opcode::Balance => "BALANCE"@,
            Opcode::Origin => "ORIGIN"@,
            Opcode::Caller => "CALLER"@,
            Opcode::CallValue => "CALLVALUE"@,
            Opcode::CallDataLoad => "CALLDATALOAD"@,
            Opcode::CallDataSize => "CALLDATASIZE"@,
            Opcode::CallDataCopy => "CALLDATACOPY"@,
            Opcode::CodeSize => "CODESIZE"@,
            Opcode::CodeCopy => "CODECOPY"@,
            Opcode::GasPrice => "GASPRICE"@,
            Opcode::ExtCodeSize => "EXTCODESIZE"@,
            Opcode::ExtCodeCopy => "EXTCODECOPY"@,
            Opcode::ReturnDataSize => "RETURNDATASIZE"@,
            Opcode::ReturnDataCopy => "RETURNDATACOPY"@,
            Opcode::ExtCodeHash => "EXTCODEHASH"@,
            Opcode::BlockHash => "BLOCKHASH"@,
            Opcode::Coinbase => "COINBASE"@,
            Opcode::Timestamp => "TIMESTAMP"@,
            Opcode::Number => "NUMBER"@,
            Opcode::PrevRandao => "PREVRANDAO"@,
            Opcode::GasLimit => "GASLIMIT"@,
            Opcode::ChainId => "CHAINID"@,
            Opcode::SelfBalance => "SELFBALANCE"@,
            Opcode::BaseFee => "BASEFEE"@,
            Opcode::BlobHash => "BLOBHASH"@,
            Opcode::BlobBaseFee => "BLOBBASEFEE"@,
            Opcode::Pop => "POP"@,
            Opcode::MLoad => "MLOAD"@,
            Opcode::MStore => "MSTORE"@,
            Opcode::MStore8 => "MSTORE8"@,
            Opcode::SLoad => "SLOAD"@,
            Opcode::SStore => "SSTORE"@,
            Opcode::Jump => "JUMP"@,
            Opcode::JumpI => "JUMPI"@,
            Opcode::Pc => "PC"@,
            Opcode::MSize => "MSIZE"@,
            Opcode::Gas => "GAS"@,
            Opcode::JumpDest => "JUMPDEST"@,
            Opcode::TLoad => "TLOAD"@,
            Opcode::TStore => "TSTORE"@,
            Opcode::MCopy => "MCOPY"@,
            Opcode::Push0 => "PUSH0"@,
            Opcode::Push1 => "PUSH1"@,
            Opcode::Push2 => "PUSH2"@,
            Opcode::Push3 => "PUSH3"@,
            Opcode::Push4 => "PUSH4"@,
            Opcode::Push5 => "PUSH5"@,
            Opcode::Push6 => "PUSH6"@,
            Opcode::Push7 => "PUSH7"@,
            Opcode::Push8 => "PUSH8"@,
            Opcode::Push9 => "PUSH9"@,
            Opcode::Push10 => "PUSH10"@,
            Opcode::Push11 => "PUSH11"@,
            Opcode::Push12 => "PUSH12"@,
            Opcode::Push13 => "PUSH13"@,
            Opcode::Push14 => "PUSH14"@,
            Opcode::Push15 => "PUSH15"@,
            Opcode::Push16 => "PUSH16"@,
            Opcode::Push17 => "PUSH17"@,
            Opcode::Push18 => "PUSH18"@,
            Opcode::Push19 => "PUSH19"@,
            Opcode::Push20 => "PUSH20"@,
            Opcode::Push21 => "PUSH21"@,
            Opcode::Push22 => "PUSH22"@,
            Opcode::Push23 => "PUSH23"@,
            Opcode::Push24 => "PUSH24"@,
            Opcode::Push25 => "PUSH25"@,
            Opcode::Push26 => "PUSH26"@,
            Opcode::Push27 => "PUSH27"@,
            Opcode::Push28 => "PUSH28"@,
            Opcode::Push29 => "PUSH29"@,
            Opcode::Push30 => "PUSH30"@,
            Opcode::Push31 => "PUSH31"@,
            Opcode::Push32 => "PUSH32"@,
            Opcode::Dup1 => "DUP1"@,
            Opcode::Dup2 => "DUP2"@,
            Opcode::Dup3 => "DUP3"@,
            Opcode::Dup4 => "DUP4"@,
            Opcode::Dup5 => "DUP5"@,
            Opcode::Dup6 => "DUP6"@,
            Opcode::Dup7 => "DUP7"@,
            Opcode::Dup8 => "DUP8"@,
            Opcode::Dup9 => "DUP9"@,
            Opcode::Dup10 => "DUP10"@,
            Opcode::Dup11 => "DUP11"@,
            Opcode::Dup12 => "DUP12"@,
            Opcode::Dup13 => "DUP13"@,
            Opcode::Dup14 => "DUP14"@,
            Opcode::Dup15 => "DUP15"@,
            Opcode::Dup16 => "DUP16"@,
            Opcode::Swap1 => "SWAP1"@,
            Opcode::Swap2 => "SWAP2"@,
            Opcode::Swap3 => "SWAP3"@,
            Opcode::Swap4 => "SWAP4"@,
            Opcode::Swap5 => "SWAP5"@,
            Opcode::Swap6 => "SWAP6"@,
            Opcode::Swap7 => "SWAP7"@,
            Opcode::Swap8 => "SWAP8"@,
            Opcode::Swap9 => "SWAP9"@,
            Opcode::Swap10 => "SWAP10"@,
            Opcode::Swap11 => "SWAP11"@,
            Opcode::Swap12 => "SWAP12"@,
            Opcode::Swap13 => "SWAP13"@,
            Opcode::Swap14 => "SWAP14"@,
            Opcode::Swap15 => "SWAP15"@,
            Opcode::Swap16 => "SWAP16"@,
            Opcode::Log0 => "LOG0"@,
            Opcode::Log1 => "LOG1"@,
            Opcode::Log2 => "LOG2"@,
            Opcode::Log3 => "LOG3"@,
            Opcode::Log4 => "LOG4"@,
            Opcode::Create => "CREATE"@,
            Opcode::Call => "CALL"@,
            Opcode::CallCode => "CALLCODE"@,
            Opcode::Return => "RETURN"@,
            Opcode::DelegateCall => "DELEGATECALL"@,
            Opcode::Create2 => "CREATE2"@,
            Opcode::StaticCall => "STATICCALL"@,
            Opcode::Revert => "REVERT"@,
            Opcode::Invalid => "INVALID"@,
            Opcode::SelfDestruct => "SELFDESTRUCT"@,
        }
    }

    pub fn to_byte(self) -> (r: u8)
        ensures
            r == self.spec_byte(),
    {
        match self {
            Opcode::Stop => 0x00,
            Opcode::Add => 0x01,
            Opcode::Mul => 0x02,
            Opcode::Sub => 0x03,
            Opcode::Div => 0x04,
            Opcode::Sdiv => 0x05,
            Opcode::Mod => 0x06,
            Opcode::Smod => 0x07,
            Opcode::AddMod => 0x08,
            Opcode::MulMod => 0x09,
            Opcode::Exp => 0x0a,
            Opcode::SignExtend => 0x0b,
            Opcode::Lt => 0x10,
            Opcode::Gt => 0x11,
            Opcode::Slt => 0x12,
            Opcode::Sgt => 0x13,
            Opcode::Eq => 0x14,
            Opcode::IsZero => 0x15,
            Opcode::And => 0x16,
            Opcode::Or => 0x17,
            Opcode::Xor => 0x18,
            Opcode::Not => 0x19,
            Opcode::Byte => 0x1a,
            Opcode::Shl => 0x1b,
            Opcode::Shr => 0x1c,
            Opcode::Sar => 0x1d,
            Opcode::Clz => 0x1e,
            Opcode::Keccak256 => 0x20,
            Opcode::Address => 0x30,
            Opcode::Balance => 0x31,
            Opcode::Origin => 0x32,
            Opcode::Caller => 0x33,
            Opcode::CallValue => 0x34,
            Opcode::CallDataLoad => 0x35,
            Opcode::CallDataSize => 0x36,
            Opcode::CallDataCopy => 0x37,
            Opcode::CodeSize => 0x38,
            Opcode::CodeCopy => 0x39,
            Opcode::GasPrice => 0x3a,
            Opcode::ExtCodeSize => 0x3b,
            Opcode::ExtCodeCopy => 0x3c,
            Opcode::ReturnDataSize => 0x3d,
            Opcode::ReturnDataCopy => 0x3e,
            Opcode::ExtCodeHash => 0x3f,
            Opcode::BlockHash => 0x40,
            Opcode::Coinbase => 0x41,
            Opcode::Timestamp => 0x42,
            Opcode::Number => 0x43,
            Opcode::PrevRandao => 0x44,
            Opcode::GasLimit => 0x45,
            Opcode::ChainId => 0x46,
            Opcode::SelfBalance => 0x47,
            Opcode::BaseFee => 0x48,
            Opcode::BlobHash => 0x49,
            Opcode::BlobBaseFee => 0x4a,
            Opcode::Pop => 0x50,
            Opcode::MLoad => 0x51,
            Opcode::MStore => 0x52,
            Opcode::MStore8 => 0x53,
            Opcode::SLoad => 0x54,
            Opcode::SStore => 0x55,
            Opcode::Jump => 0x56,
            Opcode::JumpI => 0x57,
            Opcode::Pc => 0x58,
            Opcode::MSize => 0x59,
            Opcode::Gas => 0x5a,
            Opcode::JumpDest => 0x5b,
            Opcode::TLoad => 0x5c,
            Opcode::TStore => 0x5d,
            Opcode::MCopy => 0x5e,
            Opcode::Push0 => 0x5f,
            Opcode::Push1 => 0x60,
            Opcode::Push2 => 0x61,
            Opcode::Push3 => 0x62,
            Opcode::Push4 => 0x63,
            Opcode::Push5 => 0x64,
            Opcode::Push6 => 0x65,
            Opcode::Push7 => 0x66,
            Opcode::Push8 => 0x67,
            Opcode::Push9 => 0x68,
            Opcode::Push10 => 0x69,
            Opcode::Push11 => 0x6a,
            Opcode::Push12 => 0x6b,
            Opcode::Push13 => 0x6c,
            Opcode::Push14 => 0x6d,
            Opcode::Push15 => 0x6e,
            Opcode::Push16 => 0x6f,
            Opcode::Push17 => 0x70,
            Opcode::Push18 => 0x71,
            Opcode::Push19 => 0x72,
            Opcode::Push20 => 0x73,
            Opcode::Push21 => 0x74,
            Opcode::Push22 => 0x75,
            Opcode::Push23 => 0x76,
            Opcode::Push24 => 0x77,
            Opcode::Push25 => 0x78,
            Opcode::Push26 => 0x79,
            Opcode::Push27 => 0x7a,
            Opcode::Push28 => 0x7b,
            Opcode::Push29 => 0x7c,
            Opcode::Push30 => 0x7d,
            Opcode::Push31 => 0x7e,
            Opcode::Push32 => 0x7f,
            Opcode::Dup1 => 0x80,
            Opcode::Dup2 => 0x81,
            Opcode::Dup3 => 0x82,
            Opcode::Dup4 => 0x83,
            Opcode::Dup5 => 0x84,
            Opcode::Dup6 => 0x85,
            Opcode::Dup7 => 0x86,
            Opcode::Dup8 => 0x87,
            Opcode::Dup9 => 0x88,
            Opcode::Dup10 => 0x89,
            Opcode::Dup11 => 0x8a,
            Opcode::Dup12 => 0x8b,
            Opcode::Dup13 => 0x8c,
            Opcode::Dup14 => 0x8d,
            Opcode::Dup15 => 0x8e,
            Opcode::Dup16 => 0x8f,
            Opcode::Swap1 => 0x90,
            Opcode::Swap2 => 0x91,
            Opcode::Swap3 => 0x92,
            Opcode::Swap4 => 0x93,
            Opcode::Swap5 => 0x94,
            Opcode::Swap6 => 0x95,
            Opcode::Swap7 => 0x96,
            Opcode::Swap8 => 0x97,
            Opcode::Swap9 => 0x98,
            Opcode::Swap10 => 0x99,
            Opcode::Swap11 => 0x9a,
            Opcode::Swap12 => 0x9b,
            Opcode::Swap13 => 0x9c,
            Opcode::Swap14 => 0x9d,
            Opcode::Swap15 => 0x9e,
            Opcode::Swap16 => 0x9f,
            Opcode::Log0 => 0xa0,
            Opcode::Log1 => 0xa1,
            Opcode::Log2 => 0xa2,
            Opcode::Log3 => 0xa3,
            Opcode::Log4 => 0xa4,
            Opcode::Create => 0xf0,
            Opcode::Call => 0xf1,
            Opcode::CallCode => 0xf2,
            Opcode::Return => 0xf3,
            Opcode::DelegateCall => 0xf4,
            Opcode::Create2 => 0xf5,
            Opcode::StaticCall => 0xfa,
            Opcode::Revert => 0xfd,
            Opcode::Invalid => 0xfe,
            Opcode::SelfDestruct => 0xff,
        }
    }

    pub fn from_byte(byte: u8) -> (r: Option<Opcode>)
        ensures
            r == Opcode::spec_from_byte(byte),
    {
        match byte {
            0x00 => Some(Opcode::Stop),
            0x01 => Some(Opcode::Add),
            0x02 => Some(Opcode::Mul),
            0x03 => Some(Opcode::Sub),
            0x04 => Some(Opcode::Div),
            0x05 => Some(Opcode::Sdiv),
            0x06 => Some(Opcode::Mod),
            0x07 => Some(Opcode::Smod),
            0x08 => Some(Opcode::AddMod),
            0x09 => Some(Opcode::MulMod),
            0x0a => Some(Opcode::Exp),
            0x0b => Some(Opcode::SignExtend),
            0x10 => Some(Opcode::Lt),
            0x11 => Some(Opcode::Gt),
            0x12 => Some(Opcode::Slt),
            0x13 => Some(Opcode::Sgt),
            0x14 => Some(Opcode::Eq),
            0x15 => Some(Opcode::IsZero),
            0x16 => Some(Opcode::And),
            0x17 => Some(Opcode::Or),
            0x18 => Some(Opcode::Xor),
            0x19 => Some(Opcode::Not),
            0x1a => Some(Opcode::Byte),
            0x1b => Some(Opcode::Shl),
            0x1c => Some(Opcode::Shr),
            0x1d => Some(Opcode::Sar),
            0x1e => Some(Opcode::Clz),
            0x20 => Some(Opcode::Keccak256),
            0x30 => Some(Opcode::Address),
            0x31 => Some(Opcode::Balance),
            0x32 => Some(Opcode::Origin),
            0x33 => Some(Opcode::Caller),
            0x34 => Some(Opcode::CallValue),
            0x35 => Some(Opcode::CallDataLoad),
            0x36 => Some(Opcode::CallDataSize),
            0x37 => Some(Opcode::CallDataCopy),
            0x38 => Some(Opcode::CodeSize),
            0x39 => Some(Opcode::CodeCopy),
            0x3a => Some(Opcode::GasPrice),
            0x3b => Some(Opcode::ExtCodeSize),
            0x3c => Some(Opcode::ExtCodeCopy),
            0x3d => Some(Opcode::ReturnDataSize),
            0x3e => Some(Opcode::ReturnDataCopy),
            0x3f => Some(Opcode::ExtCodeHash),
            0x40 => Some(Opcode::BlockHash),
            0x41 => Some(Opcode::Coinbase),
            0x42 => Some(Opcode::Timestamp),
            0x43 => Some(Opcode::Number),
            0x44 => Some(Opcode::PrevRandao),
            0x45 => Some(Opcode::GasLimit),
            0x46 => Some(Opcode::ChainId),
            0x47 => Some(Opcode::SelfBalance),
            0x48 => Some(Opcode::BaseFee),
            0x49 => Some(Opcode::BlobHash),
            0x4a => Some(Opcode::BlobBaseFee),
            0x50 => Some(Opcode::Pop),
            0x51 => Some(Opcode::MLoad),
            0x52 => Some(Opcode::MStore),
            0x53 => Some(Opcode::MStore8),
            0x54 => Some(Opcode::SLoad),
            0x55 => Some(Opcode::SStore),
            0x56 => Some(Opcode::Jump),
            0x57 => Some(Opcode::JumpI),
            0x58 => Some(Opcode::Pc),
            0x59 => Some(Opcode::MSize),
            0x5a => Some(Opcode::Gas),
            0x5b => Some(Opcode::JumpDest),
            0x5c => Some(Opcode::TLoad),
            0x5d => Some(Opcode::TStore),
            0x5e => Some(Opcode::MCopy),
            0x5f => Some(Opcode::Push0),
            0x60 => Some(Opcode::Push1),
            0x61 => Some(Opcode::Push2),
            0x62 => Some(Opcode::Push3),
            0x63 => Some(Opcode::Push4),
            0x64 => Some(Opcode::Push5),
            0x65 => Some(Opcode::Push6),
            0x66 => Some(Opcode::Push7),
            0x67 => Some(Opcode::Push8),
            0x68 => Some(Opcode::Push9),
            0x69 => Some(Opcode::Push10),
            0x6a => Some(Opcode::Push11),
            0x6b => Some(Opcode::Push12),
            0x6c => Some(Opcode::Push13),
            0x6d => Some(Opcode::Push14),
            0x6e => Some(Opcode::Push15),
            0x6f => Some(Opcode::Push16),
            0x70 => Some(Opcode::Push17),
            0x71 => Some(Opcode::Push18),
            0x72 => Some(Opcode::Push19),
            0x73 => Some(Opcode::Push20),
            0x74 => Some(Opcode::Push21),
            0x75 => Some(Opcode::Push22),
            0x76 => Some(Opcode::Push23),
            0x77 => Some(Opcode::Push24),
            0x78 => Some(Opcode::Push25),
            0x79 => Some(Opcode::Push26),
            0x7a => Some(Opcode::Push27),
            0x7b => Some(Opcode::Push28),
            0x7c => Some(Opcode::Push29),
            0x7d => Some(Opcode::Push30),
            0x7e => Some(Opcode::Push31),
            0x7f => Some(Opcode::Push32),
            0x80 => Some(Opcode::Dup1),
            0x81 => Some(Opcode::Dup2),
            0x82 => Some(Opcode::Dup3),
            0x83 => Some(Opcode::Dup4),
            0x84 => Some(Opcode::Dup5),
            0x85 => Some(Opcode::Dup6),
            0x86 => Some(Opcode::Dup7),
            0x87 => Some(Opcode::Dup8),
            0x88 => Some(Opcode::Dup9),
            0x89 => Some(Opcode::Dup10),
            0x8a => Some(Opcode::Dup11),
            0x8b => Some(Opcode::Dup12),
            0x8c => Some(Opcode::Dup13),
            0x8d => Some(Opcode::Dup14),
            0x8e => Some(Opcode::Dup15),
            0x8f => Some(Opcode::Dup16),
            0x90 => Some(Opcode::Swap1),
            0x91 => Some(Opcode::Swap2),
            0x92 => Some(Opcode::Swap3),
            0x93 => Some(Opcode::Swap4),
            0x94 => Some(Opcode::Swap5),
            0x95 => Some(Opcode::Swap6),
            0x96 => Some(Opcode::Swap7),
            0x97 => Some(Opcode::Swap8),
            0x98 => Some(Opcode::Swap9),
            0x99 => Some(Opcode::Swap10),
            0x9a => Some(Opcode::Swap11),
            0x9b => Some(Opcode::Swap12),
            0x9c => Some(Opcode::Swap13),
            0x9d => Some(Opcode::Swap14),
            0x9e => Some(Opcode::Swap15),
            0x9f => Some(Opcode::Swap16),
            0xa0 => Some(Opcode::Log0),
            0xa1 => Some(Opcode::Log1),
            0xa2 => Some(Opcode::Log2),
            0xa3 => Some(Opcode::Log3),
            0xa4 => Some(Opcode::Log4),
            0xf0 => Some(Opcode::Create),
            0xf1 => Some(Opcode::Call),
            0xf2 => Some(Opcode::CallCode),
            0xf3 => Some(Opcode::Return),
            0xf4 => Some(Opcode::DelegateCall),
            0xf5 => Some(Opcode::Create2),
            0xfa => Some(Opcode::StaticCall),
            0xfd => Some(Opcode::Revert),
            0xfe => Some(Opcode::Invalid),
            0xff => Some(Opcode::SelfDestruct),
            _ => None,
        }
    }

    /// Returns the opcode's effect on the stack in `(inputs, outputs)`.
    pub fn stack_io(self) -> (r: StackIO)
        ensures
            r == self.spec_stack_io(),
    {
        match self {
            Opcode::Stop => StackIO { inputs: 0, outputs: 0 },
            Opcode::Add => StackIO { inputs: 2, outputs: 1 },
            Opcode::Mul => StackIO { inputs: 2, outputs: 1 },
            Opcode::Sub => StackIO { inputs: 2, outputs: 1 },
            Opcode::Div => StackIO { inputs: 2, outputs: 1 },
            Opcode::Sdiv => StackIO { inputs: 2, outputs: 1 },
            Opcode::Mod => StackIO { inputs: 2, outputs: 1 },
            Opcode::Smod => StackIO { inputs: 2, outputs: 1 },
            Opcode::AddMod => StackIO { inputs: 3, outputs: 1 },
            Opcode::MulMod => StackIO { inputs: 3, outputs: 1 },
            Opcode::Exp => StackIO { inputs: 2, outputs: 1 },
            Opcode::SignExtend => StackIO { inputs: 2, outputs: 1 },
            Opcode::Lt => StackIO { inputs: 2, outputs: 1 },
            Opcode::Gt => StackIO { inputs: 2, outputs: 1 },
            Opcode::Slt => StackIO { inputs: 2, outputs: 1 },
            Opcode::Sgt => StackIO { inputs: 2, outputs: 1 },
            Opcode::Eq => StackIO { inputs: 2, outputs: 1 },
            Opcode::IsZero => StackIO { inputs: 1, outputs: 1 },
            Opcode::And => StackIO { inputs: 2, outputs: 1 },
            Opcode::Or => StackIO { inputs: 2, outputs: 1 },
            Opcode::Xor => StackIO { inputs: 2, outputs: 1 },
            Opcode::Not => StackIO { inputs: 1, outputs: 1 },
            Opcode::Byte => StackIO { inputs: 2, outputs: 1 },
            Opcode::Shl => StackIO { inputs: 2, outputs: 1 },
            Opcode::Shr => StackIO { inputs: 2, outputs: 1 },
            Opcode::Sar => StackIO { inputs: 2, outputs: 1 },
            Opcode::Clz => StackIO { inputs: 1, outputs: 1 },
            Opcode::Keccak256 => StackIO { inputs: 2, outputs: 1 },
            Opcode::Address => StackIO { inputs: 0, outputs: 1 },
            Opcode::Balance => StackIO { inputs: 1, outputs: 1 },
            Opcode::Origin => StackIO { inputs: 0, outputs: 1 },
            Opcode::Caller => StackIO { inputs: 0, outputs: 1 },
            Opcode::CallValue => StackIO { inputs: 0, outputs: 1 },
            Opcode::CallDataLoad => StackIO { inputs: 1, outputs: 1 },
            Opcode::CallDataSize => StackIO { inputs: 0, outputs: 1 },
            Opcode::CallDataCopy => StackIO { inputs: 3, outputs: 0 },
            Opcode::CodeSize => StackIO { inputs: 0, outputs: 1 },
            Opcode::CodeCopy => StackIO { inputs: 3, outputs: 0 },
            Opcode::GasPrice => StackIO { inputs: 0, outputs: 1 },
            Opcode::ExtCodeSize => StackIO { inputs: 1, outputs: 1 },
            Opcode::ExtCodeCopy => StackIO { inputs: 4, outputs: 0 },
            Opcode::ReturnDataSize => StackIO { inputs: 0, outputs: 1 },
            Opcode::ReturnDataCopy => StackIO { inputs: 3, outputs: 0 },
            Opcode::ExtCodeHash => StackIO { inputs: 1, outputs: 1 },
            Opcode::BlockHash => StackIO { inputs: 1, outputs: 1 },
            Opcode::Coinbase => StackIO { inputs: 0, outputs: 1 },
            Opcode::Timestamp => StackIO { inputs: 0, outputs: 1 },
            Opcode::Number => StackIO { inputs: 0, outputs: 1 },
            Opcode::PrevRandao => StackIO { inputs: 0, outputs: 1 },
            Opcode::GasLimit => StackIO { inputs: 0, outputs: 1 },
            Opcode::ChainId => StackIO { inputs: 0, outputs: 1 },
            Opcode::SelfBalance => StackIO { inputs: 0, outputs: 1 },
            Opcode::BaseFee => StackIO { inputs: 0, outputs: 1 },
            Opcode::BlobHash => StackIO { inputs: 0, outputs: 1 },
            Opcode::BlobBaseFee => StackIO { inputs: 0, outputs: 1 },
            Opcode::Pop => StackIO { inputs: 1, outputs: 0 },
            Opcode::MLoad => StackIO { inputs: 1, outputs: 1 },
            Opcode::MStore => StackIO { inputs: 2, outputs: 0 },
            Opcode::MStore8 => StackIO { inputs: 2, outputs: 0 },
            Opcode::SLoad => StackIO { inputs: 1, outputs: 1 },
            Opcode::SStore => StackIO { inputs: 2, outputs: 0 },
            Opcode::Jump => StackIO { inputs: 1, outputs: 0 },
            Opcode::JumpI => StackIO { inputs: 2, outputs: 0 },
            Opcode::Pc => StackIO { inputs: 0, outputs: 1 },
            Opcode::MSize => StackIO { inputs: 0, outputs: 1 },
            Opcode::Gas => StackIO { inputs: 0, outputs: 1 },
            Opcode::JumpDest => StackIO { inputs: 0, outputs: 0 },
            Opcode::TLoad => StackIO { inputs: 1, outputs: 1 },
            Opcode::TStore => StackIO { inputs: 2, outputs: 0 },
            Opcode::MCopy => StackIO { inputs: 3, outputs: 0 },
            Opcode::Push0 => StackIO { inputs: 0, outputs: 1 },
            Opcode::Push1 => StackIO { inputs: 0, outputs: 1 },
            Opcode::Push2 => StackIO { inputs: 0, outputs: 1 },
            Opcode::Push3 => StackIO { inputs: 0, outputs: 1 },
            Opcode::Push4 => StackIO { inputs: 0, outputs: 1 },
            Opcode::Push5 => StackIO { inputs: 0, outputs: 1 },
            Opcode::Push6 => StackIO { inputs: 0, outputs: 1 },
            Opcode::Push7 => StackIO { inputs: 0, outputs: 1 },
            Opcode::Push8 => StackIO { inputs: 0, outputs: 1 },
            Opcode::Push9 => StackIO { inputs: 0, outputs: 1 },
            Opcode::Push10 => StackIO { inputs: 0, outputs: 1 },
            Opcode::Push11 => StackIO { inputs: 0, outputs: 1 },
            Opcode::Push12 => StackIO { inputs: 0, outputs: 1 },
            Opcode::Push13 => StackIO { inputs: 0, outputs: 1 },
            Opcode::Push14 => StackIO { inputs: 0, outputs: 1 },
            Opcode::Push15 => StackIO { inputs: 0, outputs: 1 },
            Opcode::Push16 => StackIO { inputs: 0, outputs: 1 },
            Opcode::Push17 => StackIO { inputs: 0, outputs: 1 },
            Opcode::Push18 => StackIO { inputs: 0, outputs: 1 },
            Opcode::Push19 => StackIO { inputs: 0, outputs: 1 },
            Opcode::Push20 => StackIO { inputs: 0, outputs: 1 },
            Opcode::Push21 => StackIO { inputs: 0, outputs: 1 },
            Opcode::Push22 => StackIO { inputs: 0, outputs: 1 },
            Opcode::Push23 => StackIO { inputs: 0, outputs: 1 },
            Opcode::Push24 => StackIO { inputs: 0, outputs: 1 },
            Opcode::Push25 => StackIO { inputs: 0, outputs: 1 },
            Opcode::Push26 => StackIO { inputs: 0, outputs: 1 },
            Opcode::Push27 => StackIO { inputs: 0, outputs: 1 },
            Opcode::Push28 => StackIO { inputs: 0, outputs: 1 },
            Opcode::Push29 => StackIO { inputs: 0, outputs: 1 },
            Opcode::Push30 => StackIO { inputs: 0, outputs: 1 },
            Opcode::Push31 => StackIO { inputs: 0, outputs: 1 },
            Opcode::Push32 => StackIO { inputs: 0, outputs: 1 },
            Opcode::Dup1 => StackIO { inputs: 1, outputs: 2 },
            Opcode::Dup2 => StackIO { inputs: 2, outputs: 3 },
            Opcode::Dup3 => StackIO { inputs: 3, outputs: 4 },
            Opcode::Dup4 => StackIO { inputs: 4, outputs: 5 },
            Opcode::Dup5 => StackIO { inputs: 5, outputs: 6 },
            Opcode::Dup6 => StackIO { inputs: 6, outputs: 7 },
            Opcode::Dup7 => StackIO { inputs: 7, outputs: 8 },
            Opcode::Dup8 => StackIO { inputs: 8, outputs: 9 },
            Opcode::Dup9 => StackIO { inputs: 9, outputs: 10 },
            Opcode::Dup10 => StackIO { inputs: 10, outputs: 11 },
            Opcode::Dup11 => StackIO { inputs: 11, outputs: 12 },
            Opcode::Dup12 => StackIO { inputs: 12, outputs: 13 },
            Opcode::Dup13 => StackIO { inputs: 13, outputs: 14 },
            Opcode::Dup14 => StackIO { inputs: 14, outputs: 15 },
            Opcode::Dup15 => StackIO { inputs: 15, outputs: 16 },
            Opcode::Dup16 => StackIO { inputs: 16, outputs: 17 },
            Opcode::Swap1 => StackIO { inputs: 2, outputs: 2 },
            Opcode::Swap2 => StackIO { inputs: 3, outputs: 3 },
            Opcode::Swap3 => StackIO { inputs: 4, outputs: 4 },
            Opcode::Swap4 => StackIO { inputs: 5, outputs: 5 },
            Opcode::Swap5 => StackIO { inputs: 6, outputs: 6 },
            Opcode::Swap6 => StackIO { inputs: 7, outputs: 7 },
            Opcode::Swap7 => StackIO { inputs: 8, outputs: 8 },
            Opcode::Swap8 => StackIO { inputs: 9, outputs: 9 },
            Opcode::Swap9 => StackIO { inputs: 10, outputs: 10 },
            Opcode::Swap10 => StackIO { inputs: 11, outputs: 11 },
            Opcode::Swap11 => StackIO { inputs: 12, outputs: 12 },
            Opcode::Swap12 => StackIO { inputs: 13, outputs: 13 },
            Opcode::Swap13 => StackIO { inputs: 14, outputs: 14 },
            Opcode::Swap14 => StackIO { inputs: 15, outputs: 15 },
            Opcode::Swap15 => StackIO { inputs: 16, outputs: 16 },
            Opcode::Swap16 => StackIO { inputs: 17, outputs: 17 },
            Opcode::Log0 => StackIO { inputs: 2, outputs: 0 },
            Opcode::Log1 => StackIO { inputs: 3, outputs: 0 },
            Opcode::Log2 => StackIO { inputs: 4, outputs: 0 },
            Opcode::Log3 => StackIO { inputs: 5, outputs: 0 },
            Opcode::Log4 => StackIO { inputs: 6, outputs: 0 },
            Opcode::Create => StackIO { inputs: 3, outputs: 1 },
            Opcode::Call => StackIO { inputs: 7, outputs: 1 },
            Opcode::CallCode => StackIO { inputs: 7, outputs: 1 },
            Opcode::Return => StackIO { inputs: 2, outputs: 0 },
            Opcode::DelegateCall => StackIO { inputs: 6, outputs: 1 },
            Opcode::Create2 => StackIO { inputs: 4, outputs: 1 },
            Opcode::StaticCall => StackIO { inputs: 6, outputs: 1 },
            Opcode::Revert => StackIO { inputs: 2, outputs: 0 },
            Opcode::Invalid => StackIO { inputs: 0, outputs: 0 },
            Opcode::SelfDestruct => StackIO { inputs: 1, outputs: 0 },
        }
    }

    /// The mnemonic of the opcode.
    pub fn name(self) -> (r: &'static str)
        ensures
            r@ == self.spec_name(),
    {
        match self {
            Opcode::Stop => "STOP",
            Opcode::Add => "ADD",
            Opcode::Mul => "MUL",
            Opcode::Sub => "SUB",
            Opcode::Div => "DIV",
            Opcode::Sdiv => "SDIV",
            Opcode::Mod => "MOD",
            Opcode::Smod => "SMOD",
            Opcode::AddMod => "ADDMOD",
            Opcode::MulMod => "MULMOD",
            Opcode::Exp => "EXP",
            Opcode::SignExtend => "SIGNEXTEND",
            Opcode::Lt => "LT",
            Opcode::Gt => "GT",
            Opcode::Slt => "SLT",
            Opcode::Sgt => "SGT",
            Opcode::Eq => "EQ",
            Opcode::IsZero => "ISZERO",
            Opcode::And => "AND",
            Opcode::Or => "OR",
            Opcode::Xor => "XOR",
            Opcode::Not => "NOT",
            Opcode::Byte => "BYTE",
            Opcode::Shl => "SHL",
            Opcode::Shr => "SHR",
            Opcode::Sar => "SAR",
            Opcode::Clz => "CLZ",
            Opcode::Keccak256 => "KECCAK256",
            Opcode::Address => "ADDRESS",
            Opcode::Balance => "BALANCE",
            Opcode::Origin => "ORIGIN",
            Opcode::Caller => "CALLER",
            Opcode::CallValue => "CALLVALUE",
            Opcode::CallDataLoad => "CALLDATALOAD",
            Opcode::CallDataSize => "CALLDATASIZE",
            Opcode::CallDataCopy => "CALLDATACOPY",
            Opcode::CodeSize => "CODESIZE",
            Opcode::CodeCopy => "CODECOPY",
            Opcode::GasPrice => "GASPRICE",
            Opcode::ExtCodeSize => "EXTCODESIZE",
            Opcode::ExtCodeCopy => "EXTCODECOPY",
            Opcode::ReturnDataSize => "RETURNDATASIZE",
            Opcode::ReturnDataCopy => "RETURNDATACOPY",
            Opcode::ExtCodeHash => "EXTCODEHASH",
            Opcode::BlockHash => "BLOCKHASH",
            Opcode::Coinbase => "COINBASE",
            Opcode::Timestamp => "TIMESTAMP",
            Opcode::Number => "NUMBER",
            Opcode::PrevRandao => "PREVRANDAO",
            Opcode::GasLimit => "GASLIMIT",
            Opcode::ChainId => "CHAINID",
            Opcode::SelfBalance => "SELFBALANCE",
            Opcode::BaseFee => "BASEFEE",
            Opcode::BlobHash => "BLOBHASH",
            Opcode::BlobBaseFee => "BLOBBASEFEE",
            Opcode::Pop => "POP",
            Opcode::MLoad => "MLOAD",
            Opcode::MStore => "MSTORE",
            Opcode::MStore8 => "MSTORE8",
            Opcode::SLoad => "SLOAD",
            Opcode::SStore => "SSTORE",
            Opcode::Jump => "JUMP",
            Opcode::JumpI => "JUMPI",
            Opcode::Pc => "PC",
            Opcode::MSize => "MSIZE",
            Opcode::Gas => "GAS",
            Opcode::JumpDest => "JUMPDEST",
            Opcode::TLoad => "TLOAD",
            Opcode::TStore => "TSTORE",
            Opcode::MCopy => "MCOPY",
            Opcode::Push0 => "PUSH0",
            Opcode::Push1 => "PUSH1",
            Opcode::Push2 => "PUSH2",
            Opcode::Push3 => "PUSH3",
            Opcode::Push4 => "PUSH4",
            Opcode::Push5 => "PUSH5",
            Opcode::Push6 => "PUSH6",
            Opcode::Push7 => "PUSH7",
            Opcode::Push8 => "PUSH8",
            Opcode::Push9 => "PUSH9",
            Opcode::Push10 => "PUSH10",
            Opcode::Push11 => "PUSH11",
            Opcode::Push12 => "PUSH12",
            Opcode::Push13 => "PUSH13",
            Opcode::Push14 => "PUSH14",
            Opcode::Push15 => "PUSH15",
            Opcode::Push16 => "PUSH16",
            Opcode::Push17 => "PUSH17",
            Opcode::Push18 => "PUSH18",
            Opcode::Push19 => "PUSH19",
            Opcode::Push20 => "PUSH20",
            Opcode::Push21 => "PUSH21",
            Opcode::Push22 => "PUSH22",
            Opcode::Push23 => "PUSH23",
            Opcode::Push24 => "PUSH24",
            Opcode::Push25 => "PUSH25",
            Opcode::Push26 => "PUSH26",
            Opcode::Push27 => "PUSH27",
            Opcode::Push28 => "PUSH28",
            Opcode::Push29 => "PUSH29",
            Opcode::Push30 => "PUSH30",
            Opcode::Push31 => "PUSH31",
            Opcode::Push32 => "PUSH32",
            Opcode::Dup1 => "DUP1",
            Opcode::Dup2 => "DUP2",
            Opcode::Dup3 => "DUP3",
            Opcode::Dup4 => "DUP4",
            Opcode::Dup5 => "DUP5",
            Opcode::Dup6 => "DUP6",
            Opcode::Dup7 => "DUP7",
            Opcode::Dup8 => "DUP8",
            Opcode::Dup9 => "DUP9",
            Opcode::Dup10 => "DUP10",
            Opcode::Dup11 => "DUP11",
            Opcode::Dup12 => "DUP12",
            Opcode::Dup13 => "DUP13",
            Opcode::Dup14 => "DUP14",
            Opcode::Dup15 => "DUP15",
            Opcode::Dup16 => "DUP16",
            Opcode::Swap1 => "SWAP1",
            Opcode::Swap2 => "SWAP2",
            Opcode::Swap3 => "SWAP3",
            Opcode::Swap4 => "SWAP4",
            Opcode::Swap5 => "SWAP5",
            Opcode::Swap6 => "SWAP6",
            Opcode::Swap7 => "SWAP7",
            Opcode::Swap8 => "SWAP8",
            Opcode::Swap9 => "SWAP9",
            Opcode::Swap10 => "SWAP10",
            Opcode::Swap11 => "SWAP11",
            Opcode::Swap12 => "SWAP12",
            Opcode::Swap13 => "SWAP13",
            Opcode::Swap14 => "SWAP14",
            Opcode::Swap15 => "SWAP15",
            Opcode::Swap16 => "SWAP16",
            Opcode::Log0 => "LOG0",
            Opcode::Log1 => "LOG1",
            Opcode::Log2 => "LOG2",
            Opcode::Log3 => "LOG3",
            Opcode::Log4 => "LOG4",
            Opcode::Create => "CREATE",
            Opcode::Call => "CALL",
            Opcode::CallCode => "CALLCODE",
            Opcode::Return => "RETURN",
            Opcode::DelegateCall => "DELEGATECALL",
            Opcode::Create2 => "CREATE2",
            Opcode::StaticCall => "STATICCALL",
            Opcode::Revert => "REVERT",
            Opcode::Invalid => "INVALID",
            Opcode::SelfDestruct => "SELFDESTRUCT",
        }
    }
}


impl Opcode {
    pub open spec fn spec_is_terminating(self) -> bool {
        self == Opcode::Stop || self == Opcode::Return || self == Opcode::Revert
            || self == Opcode::Invalid || self == Opcode::SelfDestruct
    }

    /// `PUSH1`..=`PUSH32` (not `PUSH0`) are encoded as `0x60..=0x7f`.
    pub open spec fn spec_is_push(self) -> bool {
        0x60 <= self.spec_byte() <= 0x7f
    }

    /// Number of immediate bytes a `PUSHn` declares.
    pub open spec fn spec_push_size(self) -> Option<u8> {
        if self.spec_is_push() {
            Some((self.spec_byte() - 0x5f) as u8)
        } else {
            None
        }
    }

    pub open spec fn spec_dup_depth(self) -> Option<u8> {
        if 0x80 <= self.spec_byte() <= 0x8f {
            Some((self.spec_byte() - 0x7f) as u8)
        } else {
            None
        }
    }

    pub open spec fn spec_swap_depth(self) -> Option<u8> {
        if 0x90 <= self.spec_byte() <= 0x9f {
            Some((self.spec_byte() - 0x8f) as u8)
        } else {
            None
        }
    }

    pub fn is_terminating(self) -> (r: bool)
        ensures
            r == self.spec_is_terminating(),
    {
        match self {
            Opcode::Stop | Opcode::Return | Opcode::Revert | Opcode::Invalid
            | Opcode::SelfDestruct => true,
            _ => false,
        }
    }

    /// Returns `true` for `PUSH1`..=`PUSH32`, `false` for everything else including `PUSH0`.
    pub fn is_push(self) -> (r: bool)
        ensures
            r == self.spec_is_push(),
    {
        let byte = self.to_byte();
        0x60 <= byte && byte <= 0x7f
    }

    pub fn push_size(self) -> (r: Option<u8>)
        ensures
            r == self.spec_push_size(),
            r matches Some(n) ==> 1 <= n <= 32,
    {
        if self.is_push() {
            Some(self.to_byte() - 0x5f)
        } else {
            None
        }
    }

    /// Returns `Some(n)` for `DUPn` (1..=16).
    pub fn is_dup(self) -> (r: Option<u8>)
        ensures
            r == self.spec_dup_depth(),
            r matches Some(n) ==> 1 <= n <= 16,
    {
        let byte = self.to_byte();
        if 0x80 <= byte && byte <= 0x8f {
            Some(byte - 0x7f)
        } else {
            None
        }
    }

    /// Returns `Some(n)` for `SWAPn` (1..=16).
    pub fn is_swap(self) -> (r: Option<u8>)
        ensures
            r == self.spec_swap_depth(),
            r matches Some(n) ==> 1 <= n <= 16,
    {
        let byte = self.to_byte();
        if 0x90 <= byte && byte <= 0x9f {
            Some(byte - 0x8f)
        } else {
            None
        }
    }
}

/// Decoding the byte of an opcode gives the opcode back.
pub proof fn lemma_byte_roundtrip(op: Opcode)
    ensures
        Opcode::spec_from_byte(op.spec_byte()) == Some(op),
{
}

/// A byte that decodes to an opcode is that opcode's byte.
pub proof fn lemma_from_byte_is_byte(byte: u8)
    ensures
        Opcode::spec_from_byte(byte) matches Some(op) ==> op.spec_byte() == byte,
{
}

/// `DUPn` reads `n` values and leaves `n + 1`; `SWAPn` reads and leaves
/// `n + 1`; `PUSHn` reads nothing and leaves one value.
pub proof fn lemma_stack_io_shapes(op: Opcode)
    ensures
        op.spec_dup_depth() matches Some(n) ==> op.spec_stack_io() == (StackIO {
            inputs: n as u16,
            outputs: (n + 1) as u16,
        }),
        op.spec_swap_depth() matches Some(n) ==> op.spec_stack_io() == (StackIO {
            inputs: (n + 1) as u16,
            outputs: (n + 1) as u16,
        }),
        op.spec_is_push() ==> op.spec_stack_io() == (StackIO { inputs: 0, outputs: 1 }),
{
}

/// The mnemonic the EVM gives each byte that encodes an instruction, by
/// the EVM's own numbering.
pub open spec fn evm_mnemonic(byte: u8) -> Option<Seq<char>> {
    match byte {
        0x00 => Some("STOP"@),
        0x01 => Some("ADD"@),
        0x02 => Some("MUL"@),
        0x03 => Some("SUB"@),
        0x04 => Some("DIV"@),
        0x05 => Some("SDIV"@),
        0x06 => Some("MOD"@),
        0x07 => Some("SMOD"@),
        0x08 => Some("ADDMOD"@),
        0x09 => Some("MULMOD"@),
        0x0a => Some("EXP"@),
        0x0b => Some("SIGNEXTEND"@),
        0x10 => Some("LT"@),
        0x11 => Some("GT"@),
        0x12 => Some("SLT"@),
        0x13 => Some("SGT"@),
        0x14 => Some("EQ"@),
        0x15 => Some("ISZERO"@),
        0x16 => Some("AND"@),
        0x17 => Some("OR"@),
        0x18 => Some("XOR"@),
        0x19 => Some("NOT"@),
        0x1a => Some("BYTE"@),
        0x1b => Some("SHL"@),
        0x1c => Some("SHR"@),
        0x1d => Some("SAR"@),
        0x1e => Some("CLZ"@),
        0x20 => Some("KECCAK256"@),
        0x30 => Some("ADDRESS"@),
        0x31 => Some("BALANCE"@),
        0x32 => Some("ORIGIN"@),
        0x33 => Some("CALLER"@),
        0x34 => Some("CALLVALUE"@),
        0x35 => Some("CALLDATALOAD"@),
        0x36 => Some("CALLDATASIZE"@),
        0x37 => Some("CALLDATACOPY"@),
        0x38 => Some("CODESIZE"@),
        0x39 => Some("CODECOPY"@),
        0x3a => Some("GASPRICE"@),
        0x3b => Some("EXTCODESIZE"@),
        0x3c => Some("EXTCODECOPY"@),
        0x3d => Some("RETURNDATASIZE"@),
        0x3e => Some("RETURNDATACOPY"@),
        0x3f => Some("EXTCODEHASH"@),
        0x40 => Some("BLOCKHASH"@),
        0x41 => Some("COINBASE"@),
        0x42 => Some("TIMESTAMP"@),
        0x43 => Some("NUMBER"@),
        0x44 => Some("PREVRANDAO"@),
        0x45 => Some("GASLIMIT"@),
        0x46 => Some("CHAINID"@),
        0x47 => Some("SELFBALANCE"@),
        0x48 => Some("BASEFEE"@),
        0x49 => Some("BLOBHASH"@),
        0x4a => Some("BLOBBASEFEE"@),
        0x50 => Some("POP"@),
        0x51 => Some("MLOAD"@),
        0x52 => Some("MSTORE"@),
        0x53 => Some("MSTORE8"@),
        0x54 => Some("SLOAD"@),
        0x55 => Some("SSTORE"@),
        0x56 => Some("JUMP"@),
        0x57 => Some("JUMPI"@),
        0x58 => Some("PC"@),
        0x59 => Some("MSIZE"@),
        0x5a => Some("GAS"@),
        0x5b => Some("JUMPDEST"@),
        0x5c => Some("TLOAD"@),
        0x5d => Some("TSTORE"@),
        0x5e => Some("MCOPY"@),
        0x5f => Some("PUSH0"@),
        0x60 => Some("PUSH1"@),
        0x61 => Some("PUSH2"@),
        0x62 => Some("PUSH3"@),
        0x63 => Some("PUSH4"@),
        0x64 => Some("PUSH5"@),
        0x65 => Some("PUSH6"@),
        0x66 => Some("PUSH7"@),
        0x67 => Some("PUSH8"@),
        0x68 => Some("PUSH9"@),
        0x69 => Some("PUSH10"@),
        0x6a => Some("PUSH11"@),
        0x6b => Some("PUSH12"@),
        0x6c => Some("PUSH13"@),
        0x6d => Some("PUSH14"@),
        0x6e => Some("PUSH15"@),
        0x6f => Some("PUSH16"@),
        0x70 => Some("PUSH17"@),
        0x71 => Some("PUSH18"@),
        0x72 => Some("PUSH19"@),
        0x73 => Some("PUSH20"@),
        0x74 => Some("PUSH21"@),
        0x75 => Some("PUSH22"@),
        0x76 => Some("PUSH23"@),
        0x77 => Some("PUSH24"@),
        0x78 => Some("PUSH25"@),
        0x79 => Some("PUSH26"@),
        0x7a => Some("PUSH27"@),
        0x7b => Some("PUSH28"@),
        0x7c => Some("PUSH29"@),
        0x7d => Some("PUSH30"@),
        0x7e => Some("PUSH31"@),
        0x7f => Some("PUSH32"@),
        0x80 => Some("DUP1"@),
        0x81 => Some("DUP2"@),
        0x82 => Some("DUP3"@),
        0x83 => Some("DUP4"@),
        0x84 => Some("DUP5"@),
        0x85 => Some("DUP6"@),
        0x86 => Some("DUP7"@),
        0x87 => Some("DUP8"@),
        0x88 => Some("DUP9"@),
        0x89 => Some("DUP10"@),
        0x8a => Some("DUP11"@),
        0x8b => Some("DUP12"@),
        0x8c => Some("DUP13"@),
        0x8d => Some("DUP14"@),
        0x8e => Some("DUP15"@),
        0x8f => Some("DUP16"@),
        0x90 => Some("SWAP1"@),
        0x91 => Some("SWAP2"@),
        0x92 => Some("SWAP3"@),
        0x93 => Some("SWAP4"@),
        0x94 => Some("SWAP5"@),
        0x95 => Some("SWAP6"@),
        0x96 => Some("SWAP7"@),
        0x97 => Some("SWAP8"@),
        0x98 => Some("SWAP9"@),
        0x99 => Some("SWAP10"@),
        0x9a => Some("SWAP11"@),
        0x9b => Some("SWAP12"@),
        0x9c => Some("SWAP13"@),
        0x9d => Some("SWAP14"@),
        0x9e => Some("SWAP15"@),
        0x9f => Some("SWAP16"@),
        0xa0 => Some("LOG0"@),
        0xa1 => Some("LOG1"@),
        0xa2 => Some("LOG2"@),
        0xa3 => Some("LOG3"@),
        0xa4 => Some("LOG4"@),
        0xf0 => Some("CREATE"@),
        0xf1 => Some("CALL"@),
        0xf2 => Some("CALLCODE"@),
        0xf3 => Some("RETURN"@),
        0xf4 => Some("DELEGATECALL"@),
        0xf5 => Some("CREATE2"@),
        0xfa => Some("STATICCALL"@),
        0xfd => Some("REVERT"@),
        0xfe => Some("INVALID"@),
        0xff => Some("SELFDESTRUCT"@),
        _ => None,
    }
}

/// Decoding follows the EVM numbering: a byte decodes to the opcode whose
/// mnemonic the EVM gives that byte, and to none when the EVM gives it none.
pub proof fn lemma_decoding_follows_evm_numbering(byte: u8)
    ensures
        match Opcode::spec_from_byte(byte) {
            Some(op) => evm_mnemonic(byte) == Some(op.spec_name()),
            None => evm_mnemonic(byte) is None,
        },
{
}

/// Encoding follows the EVM numbering: each opcode is written as the byte
/// whose EVM mnemonic is the opcode's name.
pub proof fn lemma_encoding_follows_evm_numbering(op: Opcode)
    ensures
        evm_mnemonic(op.spec_byte()) == Some(op.spec_name()),
{
}

} // verus!
