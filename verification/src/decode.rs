use vstd::prelude::*;
use vstd::slice::slice_subrange;

use crate::instructions::{
    follows, immediate_len, is_instruction_starts, lemma_starts_unique, next_start, op_of_byte, Instructions,
};
use crate::opcode::Opcode;
use crate::text::{bytes_hex_text, dec_text, hex_text, push_bytes_hex, push_dec, push_hex};
use vstd::string::*;

verus! {

/// The number that a big-endian byte string encodes.
pub open spec fn be_value(s: Seq<u8>) -> nat
    decreases s.len(),
{
    if s.len() == 0 {
        0
    } else {
        be_value(s.drop_last()) * 256 + s.last() as nat
    }
}

/// One decoded instruction of some bytecode.
#[derive(Debug, Clone, Copy, PartialEq, Eq)]
pub struct Instruction {
    pub op: Result<Opcode, u8>,
    pub pc: u32,
    pub immediate: [u8; 32],
    pub immediate_len: u8,
    pub available_immediate_len: u8,
    pub actual_byte_size: u8,
}

/// The immediate bytes present at `pc + 1..`, at most `len` of them.
pub open spec fn available_len(bytes: Seq<u8>, pc: int) -> nat {
    let rest = bytes.len() - pc - 1;
    if rest < immediate_len(bytes[pc]) {
        rest as nat
    } else {
        immediate_len(bytes[pc])
    }
}

impl Instruction {
    /// The immediate buffer: declared immediate bytes, zero-padded to 32.
    pub open spec fn buffer(&self) -> Seq<u8> {
        self.immediate@
    }

    pub open spec fn declared_len(&self) -> nat {
        self.immediate_len as nat
    }

    pub open spec fn available_len(&self) -> nat {
        self.available_immediate_len as nat
    }

    pub open spec fn actual_size(&self) -> nat {
        self.actual_byte_size as nat
    }

    /// `self` is the instruction that starts at `pc` in `bytes`.
    pub open spec fn decodes(&self, bytes: Seq<u8>, pc: int) -> bool {
        &&& 0 <= pc < bytes.len()
        &&& self.pc == pc
        &&& self.op == op_of_byte(bytes[pc])
        &&& self.declared_len() == immediate_len(bytes[pc])
        &&& self.available_len() == available_len(bytes, pc)
        &&& self.actual_size() == self.available_len() + 1
        &&& self.buffer().len() == 32
        &&& forall|k: int|
            0 <= k < 32 ==> #[trigger] self.buffer()[k] == if k < self.available_len() {
                bytes[pc + 1 + k]
            } else {
                0u8
            }
    }

    /// Lengths that every decoded instruction satisfies.
    pub open spec fn wf(&self) -> bool {
        &&& self.available_len() <= self.declared_len() <= 32
        &&& self.actual_size() == self.available_len() + 1
        &&& self.buffer().len() == 32
        &&& forall|k: int|
            self.available_len() <= k < 32 ==> #[trigger] self.buffer()[k] == 0u8
    }

    /// The declared immediate (missing bytes read as zero), if any is declared.
    pub fn immediate(&self) -> (r: Option<&[u8]>)
        requires
            self.wf(),
        ensures
            r is Some <==> self.declared_len() != 0,
            r matches Some(s) ==> s@ == self.buffer().take(self.declared_len() as int),
    {
        if self.immediate_len != 0 {
            Some(slice_subrange(self.immediate.as_slice(), 0, self.immediate_len as usize))
        } else {
            None
        }
    }

    /// The immediate bytes that were present in the code, if any is declared.
    pub fn available_immediate(&self) -> (r: Option<&[u8]>)
        requires
            self.wf(),
        ensures
            r is Some <==> self.declared_len() != 0,
            r matches Some(s) ==> s@ == self.buffer().take(self.available_len() as int),
    {
        if self.immediate_len != 0 {
            Some(slice_subrange(self.immediate.as_slice(), 0, self.available_immediate_len as usize))
        } else {
            None
        }
    }

    pub fn declared_immediate_len(&self) -> (r: u8)
        ensures
            r == self.declared_len(),
    {
        self.immediate_len
    }

    pub fn available_immediate_len(&self) -> (r: u8)
        ensures
            r == self.available_len(),
    {
        self.available_immediate_len
    }

    /// Size of the instruction as encoded: opcode plus declared immediate.
    pub fn encoded_byte_size(&self) -> (r: u8)
        requires
            self.wf(),
        ensures
            r == self.declared_len() + 1,
    {
        self.immediate_len + 1
    }

    /// Size of the instruction in the code: opcode plus present immediate.
    pub fn actual_byte_size(&self) -> (r: u8)
        ensures
            r == self.actual_size(),
    {
        self.actual_byte_size
    }

    /// The immediate as a `u32`, when it has one and its value fits.
    pub fn immediate_as_u32(&self) -> (r: Option<u32>)
        requires
            self.wf(),
        ensures
            self.declared_len() == 0 ==> r is None,
            self.declared_len() != 0 ==> (r is Some <==> be_value(
                self.buffer().take(self.declared_len() as int),
            ) <= u32::MAX),
            r matches Some(v) ==> v == be_value(self.buffer().take(self.declared_len() as int)),
    {
        let immediate = match self.immediate() {
            Some(immediate) => immediate,
            None => return None,
        };
        let len = immediate.len();
        let first_value_byte: usize = if len > 4 { len - 4 } else { 0 };
        let ghost imm = immediate@;
        let mut k: usize = 0;
        while k < first_value_byte
            invariant
                imm == immediate@,
                imm == self.buffer().take(self.declared_len() as int),
                first_value_byte <= len == imm.len(),
                first_value_byte == if len > 4 { len - 4 } else { 0 },
                k <= first_value_byte,
                forall|m: int| 0 <= m < k ==> #[trigger] imm[m] == 0u8,
            decreases first_value_byte - k,
        {
            if immediate[k] != 0 {
                proof {
                    lemma_be_value_large(imm, k as int);
                }
                return None;
            }
            k = k + 1;
        }
        let mut value: u32 = 0;
        let mut k: usize = first_value_byte;
        proof {
            lemma_be_value_leading_zeros(imm, first_value_byte as int);
        }
        while k < len
            invariant
                imm == immediate@,
                first_value_byte <= k <= len == imm.len(),
                len - first_value_byte <= 4,
                value == be_value(imm.subrange(first_value_byte as int, k as int)),
                value < pow256(k - first_value_byte),
            decreases len - k,
        {
            proof {
                lemma_be_value_push(imm.subrange(first_value_byte as int, k as int), imm[k as int]);
                assert(imm.subrange(first_value_byte as int, k + 1) =~= imm.subrange(
                    first_value_byte as int,
                    k as int,
                ).push(imm[k as int]));
                lemma_pow256_step(k - first_value_byte);
                assert(value * 256 + imm[k as int] < pow256(k + 1 - first_value_byte)) by (nonlinear_arith)
                    requires
                        value < pow256(k - first_value_byte),
                        pow256(k + 1 - first_value_byte) == pow256(k - first_value_byte) * 256,
                        imm[k as int] < 256,
                ;
                lemma_pow256_le4(k + 1 - first_value_byte);
            }
            value = value * 256 + immediate[k] as u32;
            k = k + 1;
        }
        proof {
            assert(imm.subrange(first_value_byte as int, len as int) =~= imm.skip(first_value_byte as int));
        }
        Some(value)
    }

    /// The declared immediate as a 32-byte big-endian word.
    pub fn immediate_as_u256(&self) -> (r: Option<[u8; 32]>)
        requires
            self.wf(),
        ensures
            r is Some <==> self.declared_len() != 0,
            r matches Some(word) ==> forall|k: int|
                0 <= k < 32 ==> #[trigger] word@[k] == if k < 32 - self.declared_len() {
                    0u8
                } else {
                    self.buffer()[k - (32 - self.declared_len())]
                },
    {
        if self.immediate_len == 0 {
            return None;
        }
        let len = self.immediate_len as usize;
        let start: usize = 32 - len;
        let mut word = [0u8; 32];
        let mut k: usize = 0;
        while k < len
            invariant
                1 <= len <= 32,
                start == 32 - len,
                len == self.declared_len(),
                self.buffer().len() == 32,
                self.buffer() == self.immediate@,
                k <= len,
                forall|m: int|
                    0 <= m < 32 ==> #[trigger] word@[m] == if start <= m < start + k {
                        self.buffer()[m - start]
                    } else {
                        0u8
                    },
            decreases len - k,
        {
            word[start + k] = self.immediate[k];
            k = k + 1;
        }
        Some(word)
    }

    /// The code bytes the instruction covers.
    pub fn actual_byte_range(&self) -> (r: core::ops::Range<u32>)
        requires
            self.pc + self.actual_size() <= u32::MAX,
        ensures
            r.start == self.pc,
            r.end == self.pc + self.actual_size(),
    {
        self.pc..self.pc + self.actual_byte_size as u32
    }
}

/// `256^n`.
pub open spec fn pow256(n: int) -> int
    decreases n,
{
    if n <= 0 {
        1
    } else {
        256 * pow256(n - 1)
    }
}

proof fn lemma_pow256_step(n: int)
    requires
        n >= 0,
    ensures
        pow256(n + 1) == pow256(n) * 256,
{
}

proof fn lemma_pow256_le4(n: int)
    requires
        0 <= n <= 4,
    ensures
        pow256(n) <= 0x1_0000_0000,
{
    reveal_with_fuel(pow256, 5);
}

pub proof fn lemma_pow256_pos(n: int)
    ensures
        pow256(n) >= 1,
    decreases n,
{
    if n > 0 {
        lemma_pow256_pos(n - 1);
    }
}

proof fn lemma_be_value_push(s: Seq<u8>, b: u8)
    ensures
        be_value(s.push(b)) == be_value(s) * 256 + b,
{
    assert(s.push(b).drop_last() =~= s);
}

/// Leading zero bytes do not change the value.
pub(crate) proof fn lemma_be_value_leading_zeros(s: Seq<u8>, n: int)
    requires
        0 <= n <= s.len(),
        forall|m: int| 0 <= m < n ==> #[trigger] s[m] == 0u8,
    ensures
        be_value(s) == be_value(s.skip(n)),
    decreases s.len(),
{
    if s.len() == n {
        assert(s.skip(n) =~= Seq::<u8>::empty());
        lemma_be_value_zeros(s);
    } else {
        lemma_be_value_leading_zeros(s.drop_last(), n);
        assert(s.skip(n).drop_last() =~= s.drop_last().skip(n));
    }
}

proof fn lemma_be_value_zeros(s: Seq<u8>)
    requires
        forall|m: int| 0 <= m < s.len() ==> #[trigger] s[m] == 0u8,
    ensures
        be_value(s) == 0,
    decreases s.len(),
{
    if s.len() > 0 {
        lemma_be_value_zeros(s.drop_last());
    }
}

/// A value whose byte at `k` is nonzero, with at least four bytes after it,
/// is at least `2^32`.
proof fn lemma_be_value_large(s: Seq<u8>, k: int)
    requires
        0 <= k < s.len(),
        s.len() - k > 4,
        s[k] != 0,
    ensures
        be_value(s) > u32::MAX,
    decreases s.len(),
{
    if s.len() - k == 5 {
        lemma_be_value_at_least(s, k);
        lemma_pow256_step(3);
        lemma_pow256_step(2);
        lemma_pow256_step(1);
        lemma_pow256_step(0);
    } else {
        lemma_be_value_large(s.drop_last(), k);
        assert(be_value(s) >= be_value(s.drop_last()));
    }
}

/// A nonzero byte at `k` makes the value at least `256^(len - 1 - k)`.
proof fn lemma_be_value_at_least(s: Seq<u8>, k: int)
    requires
        0 <= k < s.len(),
        s[k] != 0,
    ensures
        be_value(s) >= pow256(s.len() - 1 - k),
    decreases s.len(),
{
    if k == s.len() - 1 {
        assert(be_value(s) == be_value(s.drop_last()) * 256 + s.last());
    } else {
        lemma_be_value_at_least(s.drop_last(), k);
        lemma_pow256_step(s.len() - 2 - k);
        assert(be_value(s) >= be_value(s.drop_last()) * 256);
        assert(be_value(s.drop_last()) * 256 >= pow256(s.len() - 2 - k) * 256) by (nonlinear_arith)
            requires
                be_value(s.drop_last()) >= pow256(s.len() - 2 - k),
        ;
    }
}

/// Bytecode together with its decoded instructions.
#[derive(Debug, Clone)]
pub struct DecodedBytecode {
    bytes: Vec<u8>,
    instructions: Vec<Instruction>,
    instruction_at_pc: Vec<Option<u32>>,
}

/// Why bytecode could not be decoded.
#[derive(Debug, Clone, Copy, PartialEq, Eq, Structural)]
pub enum DecodeError {
    EmptyBytecode,
    BytecodeTooLarge,
}

/// The PC of each instruction.
pub open spec fn pcs(instructions: Seq<Instruction>) -> Seq<u32> {
    instructions.map_values(|i: Instruction| i.pc)
}

/// The instruction list of `bytes`: in order, the instruction starting at each
/// instruction start.
pub open spec fn decodes_all(bytes: Seq<u8>, instructions: Seq<Instruction>) -> bool {
    &&& is_instruction_starts(bytes, pcs(instructions))
    &&& forall|i: int|
        0 <= i < instructions.len() ==> #[trigger] instructions[i].decodes(
            bytes,
            instructions[i].pc as int,
        )
}

/// How an opcode, or a byte that names none, reads in a listing.
pub open spec fn op_text(op: Result<Opcode, u8>) -> Seq<char> {
    match op {
        Ok(o) => o.spec_name(),
        Err(b) => "UNKNOWN(0x"@ + hex_text(b as nat, 2, true) + ")"@,
    }
}

/// The declared immediate in hexadecimal, with a note when bytes are missing.
pub open spec fn immediate_text(ins: Instruction) -> Seq<char> {
    if ins.declared_len() == 0 {
        Seq::empty()
    } else {
        " 0x"@ + bytes_hex_text(ins.buffer().take(ins.declared_len() as int)) + if ins.available_len()
            < ins.declared_len() {
            " ("@ + dec_text(ins.available_len()) + " of "@ + dec_text(ins.declared_len())
                + " immediate bytes present)"@
        } else {
            Seq::empty()
        }
    }
}

/// One listing line: number, PC, opcode and immediate.
pub open spec fn instruction_line(id: nat, ins: Instruction) -> Seq<char> {
    "#"@ + dec_text(id) + " "@ + hex_text(ins.pc as nat, 8, false) + ": "@ + op_text(ins.op)
        + immediate_text(ins) + "\n"@
}

/// The listing of `instructions`, one line each, numbered from zero.
pub open spec fn listing_text(instructions: Seq<Instruction>) -> Seq<char>
    decreases instructions.len(),
{
    if instructions.len() == 0 {
        Seq::empty()
    } else {
        listing_text(instructions.drop_last()) + instruction_line(
            (instructions.len() - 1) as nat,
            instructions.last(),
        )
    }
}

/// Appends the opcode's name, or the unknown byte in upper-case hexadecimal.
pub(crate) fn push_op(s: &mut String, op: Result<Opcode, u8>)
    ensures
        final(s)@ == old(s)@ + op_text(op),
{
    match op {
        Ok(op) => s.append(op.name()),
        Err(b) => {
            s.append("UNKNOWN(0x");
            push_hex(s, b as u64, 2, true);
            s.append(")");
        },
    }
    assert(s@ =~= old(s)@ + op_text(op));
}

fn push_instruction_line(s: &mut String, id: u64, ins: &Instruction)
    requires
        ins.wf(),
    ensures
        final(s)@ == old(s)@ + instruction_line(id as nat, *ins),
{
    s.append("#");
    push_dec(s, id);
    s.append(" ");
    push_hex(s, ins.pc as u64, 8, false);
    s.append(": ");
    push_op(s, ins.op);
    let ghost before_immediate = s@;
    match ins.immediate() {
        Some(immediate) => {
            s.append(" 0x");
            push_bytes_hex(s, immediate);
            let available = ins.available_immediate_len();
            let declared = ins.declared_immediate_len();
            if available < declared {
                s.append(" (");
                push_dec(s, available as u64);
                s.append(" of ");
                push_dec(s, declared as u64);
                s.append(" immediate bytes present)");
            }
        },
        None => {},
    }
    assert(s@ =~= before_immediate + immediate_text(*ins));
    s.append("\n");
    assert(s@ =~= old(s)@ + instruction_line(id as nat, *ins));
}

impl DecodedBytecode {
    pub closed spec fn code(&self) -> Seq<u8> {
        self.bytes@
    }

    pub closed spec fn instruction_list(&self) -> Seq<Instruction> {
        self.instructions@
    }

    pub closed spec fn pc_index(&self) -> Seq<Option<u32>> {
        self.instruction_at_pc@
    }

    /// The decoded instructions and the PC index agree with the code.
    pub open spec fn wf(&self) -> bool {
        &&& decodes_all(self.code(), self.instruction_list())
        &&& self.code().len() <= u32::MAX
        &&& self.code().len() > 0
        &&& self.pc_index().len() == self.code().len()
        &&& forall|p: int|
            0 <= p < self.code().len() ==> match #[trigger] self.pc_index()[p] {
                Some(id) => id < self.instruction_list().len() && self.instruction_list()[id as int].pc
                    == p,
                None => forall|i: int|
                    0 <= i < self.instruction_list().len()
                        ==> #[trigger] self.instruction_list()[i].pc != p,
            }
    }

    /// The listing of the decoded instructions, one line each.
    pub fn display(&self) -> (r: String)
        requires
            self.wf(),
        ensures
            r@ == listing_text(self.instruction_list()),
    {
        let mut text = String::new();
        let mut i: usize = 0;
        while i < self.instructions.len()
            invariant
                self.wf(),
                i <= self.instruction_list().len(),
                text@ == listing_text(self.instruction_list().take(i as int)),
            decreases self.instruction_list().len() - i,
        {
            let ins = &self.instructions[i];
            proof {
                assert(ins.decodes(self.code(), ins.pc as int));
            }
            push_instruction_line(&mut text, i as u64, ins);
            proof {
                assert(self.instruction_list().take(i as int + 1).drop_last() =~= self.instruction_list().take(
                    i as int,
                ));
            }
            i = i + 1;
        }
        proof {
            assert(self.instruction_list().take(i as int) =~= self.instruction_list());
        }
        text
    }

    pub fn bytes(&self) -> (r: &[u8])
        ensures
            r@ == self.code(),
    {
        self.bytes.as_slice()
    }

    pub fn instructions(&self) -> (r: &Vec<Instruction>)
        ensures
            r@ == self.instruction_list(),
    {
        &self.instructions
    }

    pub fn instruction(&self, id: u32) -> (r: &Instruction)
        requires
            id < self.instruction_list().len(),
        ensures
            *r == self.instruction_list()[id as int],
    {
        &self.instructions[id as usize]
    }

    /// The instruction that starts at `pc`, if any.
    pub fn instruction_at_pc(&self, pc: u32) -> (r: Option<u32>)
        requires
            self.wf(),
        ensures
            r matches Some(id) ==> id < self.instruction_list().len()
                && self.instruction_list()[id as int].pc == pc,
            r is None ==> forall|i: int|
                0 <= i < self.instruction_list().len() ==> #[trigger] self.instruction_list()[i].pc
                    != pc,
    {
        if (pc as usize) < self.instruction_at_pc.len() {
            self.instruction_at_pc[pc as usize]
        } else {
            proof {
                assert forall|i: int| 0 <= i < self.instruction_list().len() implies #[trigger] self.instruction_list()[i].pc
                    != pc by {
                    assert(self.instruction_list()[i].decodes(self.code(), self.instruction_list()[i].pc as int));
                }
            }
            None
        }
    }

    /// The span of all instruction ids, `0..len`.
    pub fn instruction_span(&self) -> (r: core::ops::Range<u32>)
        requires
            self.wf(),
        ensures
            r.start == 0,
            r.end == self.instruction_list().len(),
    {
        proof {
            self.lemma_len();
        }
        0..self.instructions.len() as u32
    }

    /// There are no more instructions than code bytes.
    pub proof fn lemma_len(&self)
        requires
            self.wf(),
        ensures
            self.instruction_list().len() <= self.code().len(),
    {
        let starts = pcs(self.instruction_list());
        if starts.len() > 0 {
            lemma_count(self.code(), starts, starts.len() - 1);
        }
    }
}

proof fn lemma_count(bytes: Seq<u8>, starts: Seq<u32>, j: int)
    requires
        is_instruction_starts(bytes, starts),
        0 <= j < starts.len(),
    ensures
        j <= starts[j],
    decreases j,
{
    if j > 0 {
        lemma_count(bytes, starts, j - 1);
        assert(follows(bytes, starts, j));
    }
}

/// Decodes bytecode into its instructions, indexed by PC.
pub fn decode(bytecode: &[u8]) -> (r: Result<DecodedBytecode, DecodeError>)
    ensures
        bytecode@.len() > u32::MAX ==> r == Err::<DecodedBytecode, DecodeError>(
            DecodeError::BytecodeTooLarge,
        ),
        bytecode@.len() <= u32::MAX && bytecode@.len() == 0 ==> r == Err::<
            DecodedBytecode,
            DecodeError,
        >(DecodeError::EmptyBytecode),
        r is Ok <==> 0 < bytecode@.len() <= u32::MAX,
        r matches Ok(d) ==> d.wf() && d.code() == bytecode@,
{
    if bytecode.len() > u32::MAX as usize {
        return Err(DecodeError::BytecodeTooLarge);
    }
    if bytecode.len() == 0 {
        return Err(DecodeError::EmptyBytecode);
    }
    let bytecode_len = bytecode.len() as u32;
    let mut instructions: Vec<Instruction> = Vec::new();
    let mut instruction_at_pc: Vec<Option<u32>> = Vec::new();
    let mut fill: usize = 0;
    while fill < bytecode.len()
        invariant
            fill <= bytecode@.len(),
            instruction_at_pc@.len() == fill,
            forall|p: int| 0 <= p < fill ==> #[trigger] instruction_at_pc@[p] is None,
        decreases bytecode@.len() - fill,
    {
        instruction_at_pc.push(None);
        fill = fill + 1;
    }
    let ghost bytes = bytecode@;
    let mut pc: u32 = 0;
    while pc < bytecode_len
        invariant
            bytes == bytecode@,
            bytecode_len == bytes.len(),
            0 < bytes.len() <= u32::MAX,
            pc <= bytes.len(),
            instruction_at_pc@.len() == bytes.len(),
            instructions@.len() <= pc,
            instructions@.len() == 0 ==> pc == 0,
            instructions@.len() > 0 ==> instructions@[0].pc == 0,
            forall|i: int|
                0 <= i < instructions@.len() ==> #[trigger] instructions@[i].decodes(
                    bytes,
                    instructions@[i].pc as int,
                ),
            forall|i: int|
                1 <= i < instructions@.len() ==> #[trigger] follows(
                    bytes,
                    pcs(instructions@),
                    i,
                ),
            instructions@.len() > 0 ==> pc == (if next_start(bytes, instructions@.last().pc as int)
                <= bytes.len() {
                next_start(bytes, instructions@.last().pc as int)
            } else {
                bytes.len() as int
            }),
            forall|p: int|
                0 <= p < bytes.len() ==> match #[trigger] instruction_at_pc@[p] {
                    Some(id) => id < instructions@.len() && instructions@[id as int].pc == p,
                    None => forall|i: int|
                        0 <= i < instructions@.len() ==> #[trigger] instructions@[i].pc != p,
                },
            forall|i: int| 0 <= i < instructions@.len() ==> #[trigger] instructions@[i].pc < pc,
        decreases bytes.len() - pc,
    {
        let byte = bytecode[pc as usize];
        let op = Opcode::from_byte(byte);
        let immediate_len: u8 = match op {
            Some(op) => match op.push_size() {
                Some(n) => n,
                None => 0,
            },
            None => 0,
        };
        let rest: usize = bytecode.len() - pc as usize - 1;
        let available_immediate_len: u8 = if rest < immediate_len as usize {
            rest as u8
        } else {
            immediate_len
        };
        let mut immediate = [0u8; 32];
        let immediate_start: usize = pc as usize + 1;
        let mut k: usize = 0;
        while k < available_immediate_len as usize
            invariant
                bytes == bytecode@,
                bytes.len() <= u32::MAX,
                pc < bytes.len(),
                immediate_start == pc + 1,
                available_immediate_len <= 32,
                immediate_start + available_immediate_len <= bytes.len(),
                k <= available_immediate_len,
                forall|m: int|
                    0 <= m < 32 ==> #[trigger] immediate@[m] == if m < k {
                        bytes[pc + 1 + m]
                    } else {
                        0u8
                    },
            decreases available_immediate_len - k,
        {
            immediate[k] = bytecode[immediate_start + k];
            k = k + 1;
        }
        let op = match op {
            Some(op) => Ok(op),
            None => Err(byte),
        };
        let id = instructions.len() as u32;
        let instruction = Instruction {
            op,
            pc,
            immediate,
            immediate_len,
            available_immediate_len,
            actual_byte_size: available_immediate_len + 1,
        };
        let ghost old_instructions = instructions@;
        instructions.push(instruction);
        instruction_at_pc.set(pc as usize, Some(id));
        proof {
            let starts = pcs(instructions@);
            let old_starts = pcs(old_instructions);
            assert forall|i: int| 1 <= i < instructions@.len() implies #[trigger] follows(
                bytes,
                starts,
                i,
            ) by {
                if i < instructions@.len() - 1 {
                    assert(follows(bytes, old_starts, i));
                }
            }
            assert(instructions@.last().decodes(bytes, pc as int));
        }
        let step: u32 = immediate_len as u32 + 1;
        pc = if pc as u64 + step as u64 > bytecode_len as u64 {
            bytecode_len
        } else {
            pc + step
        };
    }
    proof {
        let starts = pcs(instructions@);
        assert forall|i: int| 0 <= i < starts.len() implies #[trigger] starts[i] < bytes.len() by {
            assert(instructions@[i].decodes(bytes, instructions@[i].pc as int));
        }
    }
    Ok(DecodedBytecode { bytes: vstd::slice::slice_to_vec(bytecode), instructions, instruction_at_pc })
}

/// Decoding some code and indexing its instruction starts agree: the decoded
/// instructions stand, in order, at exactly the starts the index lists.
pub proof fn lemma_decode_agrees_with_index(decoded: &DecodedBytecode, index: &Instructions)
    requires
        decoded.wf(),
        index.wf(),
        index.code() == decoded.code(),
    ensures
        pcs(decoded.instruction_list()) == index.starts(),
{
    index.lemma_wf();
    lemma_starts_unique(decoded.code(), pcs(decoded.instruction_list()), index.starts());
}

} // verus!
