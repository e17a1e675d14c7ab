use vstd::prelude::*;
use vstd::slice::slice_subrange;

use crate::opcode::Opcode;

verus! {

/// Number of immediate bytes that follow an opcode byte in the code.
pub open spec fn immediate_len(byte: u8) -> nat {
    match Opcode::spec_from_byte(byte) {
        Some(op) => match op.spec_push_size() {
            Some(n) => n as nat,
            None => 0,
        },
        None => 0,
    }
}

/// Where the instruction after the one starting at `pc` starts.
pub open spec fn next_start(bytes: Seq<u8>, pc: int) -> int {
    pc + 1 + immediate_len(bytes[pc])
}

/// Instruction `i` starts right after instruction `i - 1` and its immediate.
pub open spec fn follows(bytes: Seq<u8>, starts: Seq<u32>, i: int) -> bool {
    starts[i] == next_start(bytes, starts[i - 1] as int)
}

/// `starts` lists, in order, the PC of every instruction of `bytes`: the first
/// instruction starts at 0, each next one right after the previous one's
/// immediate bytes, and the list ends with the last instruction that starts
/// inside the code.
pub open spec fn is_instruction_starts(bytes: Seq<u8>, starts: Seq<u32>) -> bool {
    &&& (bytes.len() == 0 <==> starts.len() == 0)
    &&& starts.len() > 0 ==> starts[0] == 0
    &&& forall|i: int| 0 <= i < starts.len() ==> #[trigger] starts[i] < bytes.len()
    &&& forall|i: int| 1 <= i < starts.len() ==> #[trigger] follows(bytes, starts, i)
    &&& starts.len() > 0 ==> next_start(bytes, starts.last() as int) >= bytes.len()
}

pub open spec fn strictly_sorted(s: Seq<u32>) -> bool {
    forall|i: int, j: int| 0 <= i < j < s.len() ==> #[trigger] s[i] < #[trigger] s[j]
}

proof fn lemma_sorted_prefix(bytes: Seq<u8>, starts: Seq<u32>, j: int)
    requires
        is_instruction_starts(bytes, starts),
        0 <= j < starts.len(),
    ensures
        forall|i: int| 0 <= i < j ==> #[trigger] starts[i] < starts[j],
    decreases j,
{
    if j > 0 {
        lemma_sorted_prefix(bytes, starts, j - 1);
        assert(follows(bytes, starts, j));
    }
}

/// The instruction starts of any code are strictly increasing.
pub proof fn lemma_starts_sorted(bytes: Seq<u8>, starts: Seq<u32>)
    requires
        is_instruction_starts(bytes, starts),
    ensures
        strictly_sorted(starts),
{
    assert forall|i: int, j: int| 0 <= i < j < starts.len() implies #[trigger] starts[i]
        < #[trigger] starts[j] by {
        lemma_sorted_prefix(bytes, starts, j);
    }
}

/// The instruction starts of a piece of code are unique: the characterization
/// `is_instruction_starts` determines them.
pub proof fn lemma_starts_unique(bytes: Seq<u8>, s1: Seq<u32>, s2: Seq<u32>)
    requires
        is_instruction_starts(bytes, s1),
        is_instruction_starts(bytes, s2),
    ensures
        s1 == s2,
{
    let n = if s1.len() < s2.len() { s1.len() } else { s2.len() };
    assert forall|i: int| 0 <= i < n implies s1[i] == s2[i] by {
        lemma_starts_agree(bytes, s1, s2, i);
    }
    if s1.len() < s2.len() {
        lemma_starts_agree(bytes, s1, s2, s1.len() - 1);
        assert(follows(bytes, s2, s1.len() as int));
    } else if s2.len() < s1.len() {
        lemma_starts_agree(bytes, s1, s2, s2.len() - 1);
        assert(follows(bytes, s1, s2.len() as int));
    }
    assert(s1 =~= s2);
}

proof fn lemma_starts_agree(bytes: Seq<u8>, s1: Seq<u32>, s2: Seq<u32>, i: int)
    requires
        is_instruction_starts(bytes, s1),
        is_instruction_starts(bytes, s2),
        0 <= i < s1.len(),
        i < s2.len(),
    ensures
        s1[i] == s2[i],
    decreases i,
{
    if i > 0 {
        lemma_starts_agree(bytes, s1, s2, i - 1);
        assert(follows(bytes, s1, i));
        assert(follows(bytes, s2, i));
    }
}

/// The opcode (or unknown byte) that a code byte stands for.
pub open spec fn op_of_byte(byte: u8) -> Result<Opcode, u8> {
    match Opcode::spec_from_byte(byte) {
        Some(op) => Ok(op),
        None => Err(byte),
    }
}

/// A view of one instruction of some code: its PC, its opcode and the
/// immediate bytes that are present in the code.
#[derive(Debug, Clone, Copy)]
pub struct InstructionView<'b> {
    pub pc: u32,
    pub op: Result<Opcode, u8>,
    pub raw_immediate: Option<&'b [u8]>,
}

impl<'b> InstructionView<'b> {
    pub open spec fn spec_immediate_size(self) -> Option<u8> {
        match self.op {
            Ok(op) => op.spec_push_size(),
            Err(_) => None,
        }
    }

    /// Number of immediate bytes the opcode declares, if it takes any.
    pub fn immediate_size(self) -> (r: Option<u8>)
        ensures
            r == self.spec_immediate_size(),
    {
        match self.op {
            Ok(op) => op.push_size(),
            Err(_) => None,
        }
    }

    /// The immediate as a 32-byte big-endian word: the declared immediate is
    /// right-aligned and the bytes missing at the end of the code read as zero.
    pub fn immediate(self) -> (r: Option<[u8; 32]>)
        requires
            self.raw_immediate matches Some(raw) ==> self.spec_immediate_size() matches Some(size)
                && raw@.len() <= size,
        ensures
            r is Some <==> (self.spec_immediate_size() is Some && self.raw_immediate is Some),
            r matches Some(word) ==> {
                let size = self.spec_immediate_size().unwrap() as int;
                let raw = self.raw_immediate.unwrap()@;
                forall|k: int|
                    0 <= k < 32 ==> #[trigger] word@[k] == if k < 32 - size {
                        0u8
                    } else if k - (32 - size) < raw.len() {
                        raw[k - (32 - size)]
                    } else {
                        0u8
                    }
            },
    {
        let size = match self.immediate_size() {
            Some(size) => size,
            None => return None,
        };
        let raw = match self.raw_immediate {
            Some(raw) => raw,
            None => return None,
        };
        let mut buf = [0u8; 32];
        let start: usize = 32 - size as usize;
        let mut k: usize = 0;
        while k < raw.len()
            invariant
                1 <= size <= 32,
                start == 32 - size,
                raw@.len() <= size,
                k <= raw@.len(),
                forall|m: int|
                    0 <= m < 32 ==> #[trigger] buf@[m] == if start <= m < start + k {
                        raw@[m - start]
                    } else {
                        0u8
                    },
            decreases raw@.len() - k,
        {
            buf[start + k] = raw[k];
            k = k + 1;
        }
        Some(buf)
    }
}

/// Decodes the instruction that starts at `pc`.
pub fn decode<'b>(bytes: &'b [u8], pc: u32) -> (r: InstructionView<'b>)
    requires
        pc < bytes@.len(),
    ensures
        r.pc == pc,
        r.op == op_of_byte(bytes@[pc as int]),
        r.raw_immediate matches Some(raw) ==> {
            let end = if pc + 1 + immediate_len(bytes@[pc as int]) <= bytes@.len() {
                pc + 1 + immediate_len(bytes@[pc as int])
            } else {
                bytes@.len() as int
            };
            raw@ == bytes@.subrange(pc + 1, end)
        },
        r.raw_immediate is Some <==> immediate_len(bytes@[pc as int]) > 0,
{
    let byte = bytes[pc as usize];
    let op = Opcode::from_byte(byte);
    let raw_immediate = match op {
        Some(op) => match op.push_size() {
            Some(imm) => {
                let start: usize = pc as usize + 1;
                let remaining = bytes.len() - start;
                let take: usize = if remaining < imm as usize { remaining } else { imm as usize };
                Some(slice_subrange(bytes, start, start + take))
            },
            None => None,
        },
        None => None,
    };
    let op = match op {
        Some(op) => Ok(op),
        None => Err(byte),
    };
    InstructionView { pc, op, raw_immediate }
}

/// An index of the instruction starts of some code.
pub struct Instructions<'b> {
    bytes: &'b [u8],
    instruction_index_to_byte: Vec<u32>,
}

impl<'b> Instructions<'b> {
    pub closed spec fn code(&self) -> Seq<u8> {
        self.bytes@
    }

    pub closed spec fn starts(&self) -> Seq<u32> {
        self.instruction_index_to_byte@
    }

    pub closed spec fn wf(&self) -> bool {
        &&& is_instruction_starts(self.bytes@, self.instruction_index_to_byte@)
        &&& self.bytes@.len() + 33 <= u32::MAX
    }

    /// Every well-formed index lists exactly the instruction starts of its code.
    pub proof fn lemma_wf(&self)
        requires
            self.wf(),
        ensures
            is_instruction_starts(self.code(), self.starts()),
            strictly_sorted(self.starts()),
            self.starts().len() <= self.code().len(),
            self.code().len() + 33 <= u32::MAX,
    {
        lemma_starts_sorted(self.code(), self.starts());
        if self.starts().len() > 0 {
            lemma_len_bound(self.code(), self.starts(), self.starts().len() - 1);
        }
    }

    pub fn new(bytes: &'b [u8]) -> (r: Instructions<'b>)
        requires
            bytes@.len() + 33 <= u32::MAX,
        ensures
            r.wf(),
            r.code() == bytes@,
            is_instruction_starts(bytes@, r.starts()),
    {
        let mut starts: Vec<u32> = Vec::new();
        let mut pc: u32 = 0;
        while (pc as usize) < bytes.len()
            invariant
                bytes@.len() + 33 <= u32::MAX,
                starts@.len() > 0 ==> starts@[0] == 0,
                starts@.len() == 0 ==> pc == 0,
                forall|i: int| 0 <= i < starts@.len() ==> #[trigger] starts@[i] < bytes@.len(),
                forall|i: int| 1 <= i < starts@.len() ==> #[trigger] follows(bytes@, starts@, i),
                starts@.len() > 0 ==> pc == next_start(bytes@, starts@.last() as int),
                pc <= bytes@.len() + 32,
            decreases bytes@.len() + 32 - pc,
        {
            let ghost old_starts = starts@;
            starts.push(pc);
            proof {
                assert forall|i: int| 1 <= i < starts@.len() implies #[trigger] follows(
                    bytes@,
                    starts@,
                    i,
                ) by {
                    if i < starts@.len() - 1 {
                        assert(follows(bytes@, old_starts, i));
                    }
                }
            }
            let op = Opcode::from_byte(bytes[pc as usize]);
            let mut step: u32 = 1;
            match op {
                Some(op) => match op.push_size() {
                    Some(imm) => {
                        step = step + imm as u32;
                    },
                    None => {},
                },
                None => {},
            }
            pc = pc + step;
        }
        Instructions { bytes, instruction_index_to_byte: starts }
    }

    /// The PC of each instruction, in order.
    pub fn instruction_starts(&self) -> (r: &[u32])
        ensures
            r@ == self.starts(),
    {
        self.instruction_index_to_byte.as_slice()
    }

    /// The index of the instruction that starts at `pc`, if `pc` is a `JUMPDEST`.
    pub fn jumpdest(&self, pc: u32) -> (r: Option<u32>)
        requires
            self.wf(),
        ensures
            r matches Some(i) ==> i < self.starts().len() && self.starts()[i as int] == pc
                && self.code()[pc as int] == Opcode::JumpDest.spec_byte(),
            r is None ==> forall|i: int|
                0 <= i < self.starts().len() && #[trigger] self.starts()[i] == pc
                    ==> self.code()[pc as int] != Opcode::JumpDest.spec_byte(),
    {
        let i = match self.pc_to_instruction_index(pc) {
            Ok(i) => i,
            Err(_) => return None,
        };
        let view = self.instruction(i);
        match view.op {
            Ok(Opcode::JumpDest) => Some(i),
            _ => {
                proof {
                    lemma_starts_sorted(self.code(), self.starts());
                }
                None
            },
        }
    }

    /// `Ok(i)` when instruction `i` starts at `pc`; otherwise `Err(i)` with
    /// `i` the instruction that covers `pc` (the last one that starts before
    /// it), or `Err(0)` when none does.
    pub fn pc_to_instruction_index(&self, pc: u32) -> (r: Result<u32, u32>)
        requires
            self.wf(),
        ensures
            r matches Ok(i) ==> i < self.starts().len() && self.starts()[i as int] == pc,
            r is Err ==> !self.starts().contains(pc),
            r matches Err(i) ==> (exists|k: int|
                0 <= k < self.starts().len() && #[trigger] self.starts()[k] < pc) ==> {
                &&& i < self.starts().len()
                &&& self.starts()[i as int] < pc
                &&& i + 1 < self.starts().len() ==> self.starts()[i + 1] > pc
            },
            r matches Err(i) ==> (forall|k: int|
                0 <= k < self.starts().len() ==> #[trigger] self.starts()[k] > pc) ==> i == 0,
    {
        proof {
            self.lemma_wf();
        }
        let starts = &self.instruction_index_to_byte;
        let mut lo: usize = 0;
        let mut hi: usize = starts.len();
        while lo < hi
            invariant
                starts@ == self.starts(),
                strictly_sorted(starts@),
                starts@.len() <= u32::MAX,
                lo <= hi <= starts@.len(),
                forall|k: int| 0 <= k < lo ==> #[trigger] starts@[k] < pc,
                forall|k: int| hi <= k < starts@.len() ==> #[trigger] starts@[k] > pc,
            decreases hi - lo,
        {
            let mid = lo + (hi - lo) / 2;
            let value = starts[mid];
            if value < pc {
                lo = mid + 1;
            } else if value > pc {
                hi = mid;
            } else {
                return Ok(mid as u32);
            }
        }
        proof {
            assert forall|k: int| 0 <= k < starts@.len() implies #[trigger] starts@[k] != pc by {
                if k < lo {
                } else {
                }
            }
        }
        if lo == 0 {
            Err(0)
        } else {
            Err((lo - 1) as u32)
        }
    }

    /// The `i`th instruction.
    pub fn instruction(&self, i: u32) -> (r: InstructionView<'b>)
        requires
            self.wf(),
            i < self.starts().len(),
        ensures
            r.pc == self.starts()[i as int],
            r.op == op_of_byte(self.code()[r.pc as int]),
            r.raw_immediate is Some <==> immediate_len(self.code()[r.pc as int]) > 0,
            r.raw_immediate matches Some(raw) ==> {
                let pc = r.pc as int;
                let end = if pc + 1 + immediate_len(self.code()[pc]) <= self.code().len() {
                    pc + 1 + immediate_len(self.code()[pc])
                } else {
                    self.code().len() as int
                };
                raw@ == self.code().subrange(pc + 1, end)
            },
    {
        decode(self.bytes, self.instruction_index_to_byte[i as usize])
    }

    /// Number of instructions.
    pub fn total(&self) -> (r: u32)
        requires
            self.wf(),
        ensures
            r == self.starts().len(),
    {
        proof {
            self.lemma_wf();
        }
        self.instruction_index_to_byte.len() as u32
    }
}

proof fn lemma_len_bound(bytes: Seq<u8>, starts: Seq<u32>, j: int)
    requires
        is_instruction_starts(bytes, starts),
        0 <= j < starts.len(),
    ensures
        j <= starts[j],
    decreases j,
{
    if j > 0 {
        lemma_len_bound(bytes, starts, j - 1);
        assert(follows(bytes, starts, j));
    }
}

} // verus!
