use vstd::prelude::*;

use crate::decode::{be_value, pow256};
use crate::word::{word_value, Word};

verus! {

pub const STOP: u8 = 0x00;
pub const PUSH0: u8 = 0x5f;
pub const PUSH1: u8 = 0x60;
pub const PUSH32: u8 = 0x7f;
pub const DUP1: u8 = 0x80;
pub const SWAP1: u8 = 0x90;

pub const ASSUMED_MARK_COUNT_WITHOUT_HINT: usize = 128;
pub const MAX_ASSEMBLER_CONVERGENCE_ITERS: usize = 1024;

/// A half-open range of indices.
#[derive(Debug, Clone, Copy, PartialEq, Eq, Structural)]
pub struct Span {
    pub start: u32,
    pub end: u32,
}

/// Number of bytes a reference is encoded with.
#[derive(Debug, Clone, Copy, PartialEq, Eq, Structural)]
pub enum RefSize {
    S1,
    S2,
    S3,
    S4,
}

impl RefSize {
    pub open spec fn spec_bytes(self) -> nat {
        match self {
            RefSize::S1 => 1,
            RefSize::S2 => 2,
            RefSize::S3 => 3,
            RefSize::S4 => 4,
        }
    }

    pub fn bytes(self) -> (r: u32)
        ensures
            r == self.spec_bytes(),
    {
        reveal(tiles);
        reveal(refs_in_range);
        reveal(marks_below);
        reveal(deltas_nonnegative);
            match self {
            RefSize::S1 => 1,
            RefSize::S2 => 2,
            RefSize::S3 => 3,
            RefSize::S4 => 4,
        }
    }
}

/// Fewest bytes that hold `offset`.
pub open spec fn holds(offset: int) -> nat {
    if offset <= 0xff {
        1
    } else if offset <= 0xffff {
        2
    } else if offset <= 0xffffff {
        3
    } else {
        4
    }
}

/// The smallest reference size whose bytes can hold `offset`.
pub fn bytes_to_hold(offset: u32) -> (r: RefSize)
    ensures
        r.spec_bytes() == holds(offset as int),
        offset < pow256(r.spec_bytes() as int),
        r.spec_bytes() > 1 ==> offset >= pow256(r.spec_bytes() - 1),
{
    reveal(tiles);
    reveal(refs_in_range);
    reveal(marks_below);
    reveal(deltas_nonnegative);
    proof {
        reveal_with_fuel(pow256, 5);
    }
    if offset <= 0xff {
        RefSize::S1
    } else if offset <= 0xffff {
        RefSize::S2
    } else if offset <= 0xffffff {
        RefSize::S3
    } else {
        RefSize::S4
    }
}

#[derive(Debug, Clone, Copy, PartialEq, Eq, Structural)]
pub enum MarkReference {
    Direct(u32),
    Delta(Span),
}

#[derive(Debug, Clone, Copy, PartialEq, Eq, Structural)]
pub struct AsmReference {
    pub mark_ref: MarkReference,
    pub set_size: Option<RefSize>,
    pub pushed: bool,
}

impl AsmReference {
    pub fn new_direct(id: u32) -> (r: AsmReference)
        ensures
            r == (AsmReference { mark_ref: MarkReference::Direct(id), set_size: None, pushed: true }),
    {
        reveal(tiles);
        reveal(refs_in_range);
        reveal(marks_below);
        reveal(deltas_nonnegative);
            AsmReference { mark_ref: MarkReference::Direct(id), set_size: None, pushed: true }
    }

    pub fn new_delta(start: u32, end: u32) -> (r: AsmReference)
        ensures
            r == (AsmReference {
                mark_ref: MarkReference::Delta(Span { start, end }),
                set_size: None,
                pushed: true,
            }),
    {
        reveal(tiles);
        reveal(refs_in_range);
        reveal(marks_below);
        reveal(deltas_nonnegative);
            AsmReference {
            mark_ref: MarkReference::Delta(Span { start, end }),
            set_size: None,
            pushed: true,
        }
    }

    pub fn pushed(mark_ref: MarkReference) -> (r: AsmReference)
        ensures
            r == (AsmReference { mark_ref, set_size: None, pushed: true }),
    {
        reveal(tiles);
        reveal(refs_in_range);
        reveal(marks_below);
        reveal(deltas_nonnegative);
            AsmReference { mark_ref, set_size: None, pushed: true }
    }
}

#[derive(Debug, Clone, Copy, PartialEq, Eq, Structural)]
struct DirectMarkRef {
    id: u32,
    set_size: Option<RefSize>,
    pushed: bool,
}

/// A section as stored: references carry their size and kind in the variant.
#[derive(Debug, Clone, Copy, PartialEq, Eq, Structural)]
enum StoredAsmSection {
    Mark(u32),
    Ops(Span),
    Data(Span),
    DirectMarkRef(DirectMarkRef),
    UnsizedPushedDeltaRef(Span),
    Size1PushedDeltaRef(Span),
    Size2PushedDeltaRef(Span),
    Size3PushedDeltaRef(Span),
    Size4PushedDeltaRef(Span),
    UnsizedRawDeltaRef(Span),
    Size1RawDeltaRef(Span),
    Size2RawDeltaRef(Span),
    Size3RawDeltaRef(Span),
    Size4RawDeltaRef(Span),
}

/// A section of assembly: a mark, operation bytes, data bytes, or a
/// reference to marks.
#[derive(Debug, Clone, Copy, PartialEq, Eq, Structural)]
pub enum AsmSection {
    Mark(u32),
    Ops(Span),
    Data(Span),
    MarkRef(AsmReference),
}

spec fn delta(span: Span, pushed: bool, set_size: Option<RefSize>) -> AsmSection {
    AsmSection::MarkRef(
        AsmReference { mark_ref: MarkReference::Delta(span), set_size, pushed },
    )
}

spec fn section_of(stored: StoredAsmSection) -> AsmSection {
    match stored {
        StoredAsmSection::Mark(id) => AsmSection::Mark(id),
        StoredAsmSection::Ops(span) => AsmSection::Ops(span),
        StoredAsmSection::Data(span) => AsmSection::Data(span),
        StoredAsmSection::DirectMarkRef(r) => AsmSection::MarkRef(
            AsmReference {
                mark_ref: MarkReference::Direct(r.id),
                set_size: r.set_size,
                pushed: r.pushed,
            },
        ),
        StoredAsmSection::UnsizedPushedDeltaRef(s) => delta(s, true, None),
        StoredAsmSection::Size1PushedDeltaRef(s) => delta(s, true, Some(RefSize::S1)),
        StoredAsmSection::Size2PushedDeltaRef(s) => delta(s, true, Some(RefSize::S2)),
        StoredAsmSection::Size3PushedDeltaRef(s) => delta(s, true, Some(RefSize::S3)),
        StoredAsmSection::Size4PushedDeltaRef(s) => delta(s, true, Some(RefSize::S4)),
        StoredAsmSection::UnsizedRawDeltaRef(s) => delta(s, false, None),
        StoredAsmSection::Size1RawDeltaRef(s) => delta(s, false, Some(RefSize::S1)),
        StoredAsmSection::Size2RawDeltaRef(s) => delta(s, false, Some(RefSize::S2)),
        StoredAsmSection::Size3RawDeltaRef(s) => delta(s, false, Some(RefSize::S3)),
        StoredAsmSection::Size4RawDeltaRef(s) => delta(s, false, Some(RefSize::S4)),
    }
}

fn to_section(stored: StoredAsmSection) -> (r: AsmSection)
    ensures
        r == section_of(stored),
{
    reveal(tiles);
    reveal(refs_in_range);
    reveal(marks_below);
    reveal(deltas_nonnegative);
    match stored {
        StoredAsmSection::Mark(id) => AsmSection::Mark(id),
        StoredAsmSection::Ops(span) => AsmSection::Ops(span),
        StoredAsmSection::Data(span) => AsmSection::Data(span),
        StoredAsmSection::DirectMarkRef(mark_ref) => AsmSection::MarkRef(
            AsmReference {
                mark_ref: MarkReference::Direct(mark_ref.id),
                set_size: mark_ref.set_size,
                pushed: mark_ref.pushed,
            },
        ),
        StoredAsmSection::UnsizedPushedDeltaRef(s) => AsmSection::delta_ref(s, true, None),
        StoredAsmSection::Size1PushedDeltaRef(s) => AsmSection::delta_ref(s, true, Some(RefSize::S1)),
        StoredAsmSection::Size2PushedDeltaRef(s) => AsmSection::delta_ref(s, true, Some(RefSize::S2)),
        StoredAsmSection::Size3PushedDeltaRef(s) => AsmSection::delta_ref(s, true, Some(RefSize::S3)),
        StoredAsmSection::Size4PushedDeltaRef(s) => AsmSection::delta_ref(s, true, Some(RefSize::S4)),
        StoredAsmSection::UnsizedRawDeltaRef(s) => AsmSection::delta_ref(s, false, None),
        StoredAsmSection::Size1RawDeltaRef(s) => AsmSection::delta_ref(s, false, Some(RefSize::S1)),
        StoredAsmSection::Size2RawDeltaRef(s) => AsmSection::delta_ref(s, false, Some(RefSize::S2)),
        StoredAsmSection::Size3RawDeltaRef(s) => AsmSection::delta_ref(s, false, Some(RefSize::S3)),
        StoredAsmSection::Size4RawDeltaRef(s) => AsmSection::delta_ref(s, false, Some(RefSize::S4)),
    }
}

/// The value a reference stands for under a mark layout (a delta may be
/// negative while the layout is not settled).
pub open spec fn ref_value(r: AsmReference, map: Seq<u32>) -> int {
    match r.mark_ref {
        MarkReference::Direct(id) => map[id as int] as int,
        MarkReference::Delta(span) => map[span.end as int] - map[span.start as int],
    }
}

/// The reference's value, with a negative delta read as zero.
pub open spec fn sat_ref_value(r: AsmReference, map: Seq<u32>) -> int {
    if ref_value(r, map) < 0 {
        0
    } else {
        ref_value(r, map)
    }
}

/// The marks a reference reads.
pub open spec fn ref_marks_in(r: AsmReference, len: int) -> bool {
    match r.mark_ref {
        MarkReference::Direct(id) => id < len,
        MarkReference::Delta(span) => span.start < len && span.end < len,
    }
}

/// Bytes a section takes at least.
pub open spec fn min_size(s: AsmSection) -> nat {
    match s {
        AsmSection::Mark(_) => 0,
        AsmSection::Ops(span) => (span.end - span.start) as nat,
        AsmSection::Data(span) => (span.end - span.start) as nat,
        AsmSection::MarkRef(r) => match r.set_size {
            Some(size) => if r.pushed {
                size.spec_bytes() + 1
            } else {
                size.spec_bytes()
            },
            None => 1,
        },
    }
}

/// Bytes a section takes under a mark layout; `None` when a reference's
/// fixed size is too small for its value.
pub open spec fn compiled_size(s: AsmSection, map: Seq<u32>) -> Option<nat> {
    match s {
        AsmSection::MarkRef(r) => {
            let value = sat_ref_value(r, map);
            let needed = holds(value);
            match r.set_size {
                Some(size) => if size.spec_bytes() < needed {
                    None
                } else if r.pushed {
                    Some(size.spec_bytes() + 1)
                } else {
                    Some(size.spec_bytes())
                },
                None => if r.pushed && value == 0 {
                    Some(1)
                } else if r.pushed {
                    Some(needed + 1)
                } else {
                    Some(needed)
                },
            }
        },
        _ => Some(min_size(s)),
    }
}

/// The low `n` bytes of `v`, big-endian.
pub open spec fn be_bytes(v: nat, n: nat) -> Seq<u8>
    decreases n,
{
    if n == 0 {
        Seq::empty()
    } else {
        be_bytes(v / 256, (n - 1) as nat).push((v % 256) as u8)
    }
}

/// The encoding of a reference under a mark layout.
pub open spec fn encode_ref(r: AsmReference, map: Seq<u32>) -> Seq<u8> {
    let value = sat_ref_value(r, map);
    if value == 0 && r.set_size is None && r.pushed {
        seq![PUSH0]
    } else {
        let size = match r.set_size {
            Some(size) => size.spec_bytes(),
            None => holds(value),
        };
        let imm = be_bytes(value as nat, size);
        if r.pushed {
            seq![(PUSH1 + size - 1) as u8] + imm
        } else {
            imm
        }
    }
}

/// The bytes a section is assembled to.
pub open spec fn encode_section(s: AsmSection, bytes: Seq<u8>, map: Seq<u32>) -> Seq<u8> {
    match s {
        AsmSection::Mark(_) => Seq::empty(),
        AsmSection::Ops(span) => bytes.subrange(span.start as int, span.end as int),
        AsmSection::Data(span) => bytes.subrange(span.start as int, span.end as int),
        AsmSection::MarkRef(r) => encode_ref(r, map),
    }
}

/// The bytes of the first `k` sections.
pub open spec fn emit(secs: Seq<AsmSection>, bytes: Seq<u8>, map: Seq<u32>, k: int) -> Seq<u8>
    decreases k,
{
    if k <= 0 {
        Seq::empty()
    } else {
        emit(secs, bytes, map, k - 1) + encode_section(secs[k - 1], bytes, map)
    }
}

/// End of the last byte span among the first `k` sections.
pub open spec fn span_end(secs: Seq<AsmSection>, k: int) -> nat
    decreases k,
{
    if k <= 0 {
        0
    } else {
        match secs[k - 1] {
            AsmSection::Ops(span) => span.end as nat,
            AsmSection::Data(span) => span.end as nat,
            _ => span_end(secs, k - 1),
        }
    }
}

/// The byte spans of the sections tile the byte buffer in order.
#[verifier::opaque]
pub open spec fn tiles(secs: Seq<AsmSection>, bytes: Seq<u8>) -> bool {
    &&& forall|i: int|
        0 <= i < secs.len() ==> match #[trigger] secs[i] {
            AsmSection::Ops(span) => span.start == span_end(secs, i) && span.start <= span.end,
            AsmSection::Data(span) => span.start == span_end(secs, i) && span.start <= span.end,
            _ => true,
        }
    &&& span_end(secs, secs.len() as int) == bytes.len()
    &&& bytes.len() < u32::MAX
}


/// The model after appending one operation byte.
pub open spec fn with_op_byte(secs: Seq<AsmSection>, bytes: Seq<u8>, byte: u8) -> (
    Seq<AsmSection>,
    Seq<u8>,
) {
    if secs.len() > 0 && secs.last() is Ops {
        let span = secs.last()->Ops_0;
        (
            secs.update(secs.len() - 1, AsmSection::Ops(Span { start: span.start, end: (span.end + 1) as u32 })),
            bytes.push(byte),
        )
    } else {
        (
            secs.push(AsmSection::Ops(Span { start: bytes.len() as u32, end: (bytes.len() + 1) as u32 })),
            bytes.push(byte),
        )
    }
}

/// The model after appending operation bytes one by one.
pub open spec fn with_ops(secs: Seq<AsmSection>, bytes: Seq<u8>, ops: Seq<u8>) -> (
    Seq<AsmSection>,
    Seq<u8>,
)
    decreases ops.len(),
{
    if ops.len() == 0 {
        (secs, bytes)
    } else {
        let (s, b) = with_ops(secs, bytes, ops.drop_last());
        with_op_byte(s, b, ops.last())
    }
}

/// The model after appending data bytes.
pub open spec fn with_data(secs: Seq<AsmSection>, bytes: Seq<u8>, data: Seq<u8>) -> (
    Seq<AsmSection>,
    Seq<u8>,
) {
    if secs.len() > 0 && secs.last() is Data {
        let span = secs.last()->Data_0;
        (
            secs.update(secs.len() - 1, AsmSection::Data(Span { start: span.start, end: (span.end + data.len()) as u32 })),
            bytes + data,
        )
    } else {
        (
            secs.push(AsmSection::Data(Span { start: bytes.len() as u32, end: (bytes.len() + data.len()) as u32 })),
            bytes + data,
        )
    }
}

/// The swaps that exchange stack slots `n` and `m`.
pub open spec fn exchange_ops(n: u8, m: u8) -> Seq<u8> {
    if n == 0 {
        seq![(SWAP1 + m - 1) as u8]
    } else if m == 0 {
        seq![(SWAP1 + n - 1) as u8]
    } else {
        seq![(SWAP1 + n - 1) as u8, (SWAP1 + m - 1) as u8, (SWAP1 + n - 1) as u8]
    }
}

/// The shortest push of `v`: `PUSH0` for zero, otherwise `PUSHn` followed by
/// the `n` big-endian bytes of `v`, the first of them nonzero.
pub open spec fn minimal_push(v: nat) -> Seq<u8> {
    if v == 0 {
        seq![PUSH0]
    } else {
        let n = bytes_needed(v);
        seq![(PUSH1 + n - 1) as u8] + be_bytes(v, n)
    }
}

/// Number of bytes of `v` without leading zeros (at least one).
pub open spec fn bytes_needed(v: nat) -> nat
    decreases v,
{
    if v < 256 {
        1
    } else {
        1 + bytes_needed(v / 256)
    }
}

proof fn lemma_with_ops_one(secs: Seq<AsmSection>, bytes: Seq<u8>, b: u8)
    ensures
        with_ops(secs, bytes, seq![b]) == with_op_byte(secs, bytes, b),
{
    reveal(tiles);
    reveal(refs_in_range);
    reveal(marks_below);
    reveal(deltas_nonnegative);
    assert(seq![b].drop_last() =~= Seq::<u8>::empty());
    reveal_with_fuel(with_ops, 2);
}

proof fn lemma_span_end_mono(secs: Seq<AsmSection>, i: int, j: int)
    requires
        0 <= i <= j <= secs.len(),
        forall|k: int|
            0 <= k < secs.len() ==> match #[trigger] secs[k] {
                AsmSection::Ops(span) => span.start == span_end(secs, k) && span.start <= span.end,
                AsmSection::Data(span) => span.start == span_end(secs, k) && span.start <= span.end,
                _ => true,
            },
    ensures
        span_end(secs, i) <= span_end(secs, j),
    decreases j - i,
{
    reveal(tiles);
    reveal(refs_in_range);
    reveal(marks_below);
    reveal(deltas_nonnegative);
    if i < j {
        lemma_span_end_mono(secs, i, j - 1);
        let s = secs[j - 1];
        assert(match s {
            AsmSection::Ops(span) => span.start == span_end(secs, j - 1) && span.start <= span.end,
            AsmSection::Data(span) => span.start == span_end(secs, j - 1) && span.start <= span.end,
            _ => true,
        });
    }
}

proof fn lemma_tiles_push_span(secs: Seq<AsmSection>, bytes: Seq<u8>, extra: AsmSection, n: nat)
    requires
        tiles(secs, bytes),
        bytes.len() + n < u32::MAX,
        extra == AsmSection::Ops(Span { start: bytes.len() as u32, end: (bytes.len() + n) as u32 })
            || extra == AsmSection::Data(
            Span { start: bytes.len() as u32, end: (bytes.len() + n) as u32 },
        ),
    ensures
        forall|more: Seq<u8>| more.len() == n ==> #[trigger] tiles(secs.push(extra), bytes + more),
{
    reveal(tiles);
    reveal(refs_in_range);
    reveal(marks_below);
    reveal(deltas_nonnegative);
    let pushed = secs.push(extra);
    assert forall|i: int| 0 <= i < pushed.len() implies match #[trigger] pushed[i] {
        AsmSection::Ops(span) => span.start == span_end(pushed, i) && span.start <= span.end,
        AsmSection::Data(span) => span.start == span_end(pushed, i) && span.start <= span.end,
        _ => true,
    } by {
        lemma_span_end_prefix(secs, extra, i);
        if i < secs.len() {
            assert(pushed[i] == secs[i]);
        }
    }
}

proof fn lemma_tiles_extend_last(secs: Seq<AsmSection>, bytes: Seq<u8>, last: AsmSection, n: nat)
    requires
        tiles(secs, bytes),
        secs.len() > 0,
        bytes.len() + n < u32::MAX,
        (secs.last() is Ops && last == AsmSection::Ops(
            Span { start: secs.last()->Ops_0.start, end: (bytes.len() + n) as u32 },
        )) || (secs.last() is Data && last == AsmSection::Data(
            Span { start: secs.last()->Data_0.start, end: (bytes.len() + n) as u32 },
        )),
    ensures
        forall|more: Seq<u8>|
            more.len() == n ==> #[trigger] tiles(secs.update(secs.len() - 1, last), bytes + more),
{
    reveal(tiles);
    reveal(refs_in_range);
    reveal(marks_below);
    reveal(deltas_nonnegative);
    let updated = secs.update(secs.len() - 1, last);
    let k = secs.len() - 1;
    assert(secs[k] == secs.last());
    assert(match secs[k] {
        AsmSection::Ops(span) => span.start == span_end(secs, k) && span.start <= span.end,
        AsmSection::Data(span) => span.start == span_end(secs, k) && span.start <= span.end,
        _ => true,
    });
    assert forall|i: int| 0 <= i < updated.len() implies match #[trigger] updated[i] {
        AsmSection::Ops(span) => span.start == span_end(updated, i) && span.start <= span.end,
        AsmSection::Data(span) => span.start == span_end(updated, i) && span.start <= span.end,
        _ => true,
    } by {
        lemma_span_end_update(secs, last, i);
        if i < k {
            assert(updated[i] == secs[i]);
        }
    }
}

/// Bytes that are zero up to `first` do not change the value, and when
/// `first` points at a nonzero byte the rest has `32 - first` bytes.
proof fn lemma_be_value_leading_zero_prefix(bytes: Seq<u8>, first: int)
    requires
        0 <= first <= bytes.len(),
        forall|m: int| 0 <= m < first ==> #[trigger] bytes[m] == 0u8,
    ensures
        be_value(bytes) == be_value(bytes.skip(first)),
{
    reveal(tiles);
    reveal(refs_in_range);
    reveal(marks_below);
    reveal(deltas_nonnegative);
    crate::decode::lemma_be_value_leading_zeros(bytes, first);
}

/// The minimal push of a value is its big-endian bytes without leading zeros.
proof fn lemma_minimal_push(bytes: Seq<u8>, first: int, v: nat)
    requires
        bytes.len() == 32,
        0 <= first <= 32,
        forall|m: int| 0 <= m < first ==> #[trigger] bytes[m] == 0u8,
        first < 32 ==> bytes[first] != 0,
        be_value(bytes) == v,
    ensures
        first == 32 ==> v == 0,
        first < 32 ==> v != 0 && bytes_needed(v) == 32 - first && be_bytes(v, bytes_needed(v))
            == bytes.skip(first),
{
    reveal(tiles);
    reveal(refs_in_range);
    reveal(marks_below);
    reveal(deltas_nonnegative);
    crate::decode::lemma_be_value_leading_zeros(bytes, first);
    if first == 32 {
        assert(bytes.skip(32) =~= Seq::<u8>::empty());
    } else {
        let rest = bytes.skip(first);
        assert(rest[0] != 0);
        lemma_be_bytes_roundtrip(rest);
        lemma_bytes_needed_of_nonzero_lead(rest);
    }
}

/// Re-encoding a byte string's value with its length gives it back.
proof fn lemma_be_bytes_roundtrip(s: Seq<u8>)
    ensures
        be_bytes(be_value(s), s.len()) == s,
    decreases s.len(),
{
    reveal(tiles);
    reveal(refs_in_range);
    reveal(marks_below);
    reveal(deltas_nonnegative);
    if s.len() > 0 {
        let v = be_value(s);
        let init = s.drop_last();
        assert(v == be_value(init) * 256 + s.last());
        assert(v / 256 == be_value(init)) by (nonlinear_arith)
            requires
                v == be_value(init) * 256 + s.last(),
                0 <= s.last() < 256,
        ;
        assert(v % 256 == s.last()) by (nonlinear_arith)
            requires
                v == be_value(init) * 256 + s.last(),
                0 <= s.last() < 256,
        ;
        lemma_be_value_nonneg(init);
        lemma_be_bytes_roundtrip(init);
        assert(s =~= init.push(s.last()));
    }
}

proof fn lemma_be_value_nonneg(s: Seq<u8>)
    ensures
        be_value(s) >= 0,
{
    reveal(tiles);
    reveal(refs_in_range);
    reveal(marks_below);
    reveal(deltas_nonnegative);
}

/// A byte string with a nonzero first byte has exactly as many bytes as its
/// value needs.
proof fn lemma_bytes_needed_of_nonzero_lead(s: Seq<u8>)
    requires
        s.len() > 0,
        s[0] != 0,
    ensures
        be_value(s) != 0,
        bytes_needed(be_value(s)) == s.len(),
    decreases s.len(),
{
    reveal(tiles);
    reveal(refs_in_range);
    reveal(marks_below);
    reveal(deltas_nonnegative);
    if s.len() == 1 {
        assert(s.drop_last() =~= Seq::<u8>::empty());
        reveal_with_fuel(be_value, 2);
        assert(be_value(s) == s[0]);
    } else {
        let init = s.drop_last();
        lemma_bytes_needed_of_nonzero_lead(init);
        let v = be_value(s);
        assert(v == be_value(init) * 256 + s.last());
        assert(v / 256 == be_value(init)) by (nonlinear_arith)
            requires
                v == be_value(init) * 256 + s.last(),
                0 <= s.last() < 256,
        ;
        assert(v >= 256) by (nonlinear_arith)
            requires
                v == be_value(init) * 256 + s.last(),
                be_value(init) >= 1,
                0 <= s.last(),
        ;
    }
}


/// `map` grown with zeros to at least `n` entries.
pub open spec fn grow(map: Seq<u32>, n: nat) -> Seq<u32> {
    if map.len() >= n {
        map
    } else {
        map + Seq::new((n - map.len()) as nat, |_i: int| 0u32)
    }
}

/// The first layout: each mark at the sum of the minimal sizes before it.
/// Gives the map and the running minimal size after `k` sections.
pub open spec fn init_prefix(secs: Seq<AsmSection>, map0: Seq<u32>, k: nat) -> (Seq<u32>, int)
    decreases k,
{
    if k == 0 {
        (map0, 0)
    } else {
        let (map, size) = init_prefix(secs, map0, (k - 1) as nat);
        let map1 = match secs[k - 1] {
            AsmSection::Mark(id) => grow(map, (id + 1) as nat).update(id as int, size as u32),
            _ => map,
        };
        (map1, size + min_size(secs[k - 1]))
    }
}

/// The state after `k` sections of one layout pass: the map (marks moved to
/// where the pass reaches them), the offset reached, whether no mark moved,
/// and the first section whose fixed size was too small.
pub open spec fn pass_prefix(secs: Seq<AsmSection>, map0: Seq<u32>, k: nat) -> (
    Seq<u32>,
    int,
    bool,
    Option<nat>,
)
    decreases k,
{
    if k == 0 {
        (map0, 0, true, None)
    } else {
        let st = pass_prefix(secs, map0, (k - 1) as nat);
        if st.3 is Some {
            st
        } else {
            pass_step(secs, st, (k - 1) as nat)
        }
    }
}

/// One section of a layout pass: a mark moves to the current offset (and
/// the pass no longer counts as settled), then the offset advances by the
/// section's size, or the pass stops at a reference too small for its value.
pub open spec fn pass_step(
    secs: Seq<AsmSection>,
    st: (Seq<u32>, int, bool, Option<nat>),
    k: nat,
) -> (Seq<u32>, int, bool, Option<nat>) {
    let (map, offset, converged, _) = st;
    let (map1, converged1) = match secs[k as int] {
        AsmSection::Mark(id) => if map[id as int] != offset {
            (map.update(id as int, offset as u32), false)
        } else {
            (map, converged)
        },
        _ => (map, converged),
    };
    match compiled_size(secs[k as int], map1) {
        None => (map1, offset, converged1, Some(k)),
        Some(n) => (map1, offset + n, converged1, None),
    }
}

/// Repeats layout passes until no mark moves (`Ok` with the layout), a
/// reference does not fit its fixed size (`Err` with its section index), or
/// `fuel` passes are spent (`None`).
pub open spec fn converge(secs: Seq<AsmSection>, map: Seq<u32>, fuel: nat) -> Option<
    Result<Seq<u32>, nat>,
>
    decreases fuel,
{
    if fuel == 0 {
        None
    } else {
        let (next, _, converged, error) = pass_prefix(secs, map, secs.len());
        match error {
            Some(i) => Some(Err(i)),
            None => if converged {
                Some(Ok(next))
            } else {
                converge(secs, next, (fuel - 1) as nat)
            },
        }
    }
}

/// The layout search that `assemble` runs for a mark-count hint.
pub open spec fn assembly_outcome(secs: Seq<AsmSection>, hint: Option<usize>) -> Option<
    Result<Seq<u32>, nat>,
> {
    let start = Seq::new(
        match hint {
            Some(n) => n as nat,
            None => ASSUMED_MARK_COUNT_WITHOUT_HINT as nat,
        },
        |_i: int| 0u32,
    );
    converge(secs, init_prefix(secs, start, secs.len()).0, MAX_ASSEMBLER_CONVERGENCE_ITERS as nat)
}

/// The mark map that layout starts from for a mark-count hint: all zero.
pub open spec fn start_map(hint: Option<usize>) -> Seq<u32> {
    Seq::new(
        match hint {
            Some(n) => n as nat,
            None => ASSUMED_MARK_COUNT_WITHOUT_HINT as nat,
        },
        |_i: int| 0u32,
    )
}

/// Every mark a reference reads has a slot in the mark map: it is placed by
/// some `Mark` section or lies below the hinted mark count.
pub open spec fn refs_fit(secs: Seq<AsmSection>, hint: Option<usize>) -> bool {
    refs_in_range(secs, init_prefix(secs, start_map(hint), secs.len()).0.len())
}

/// Under a settled layout, no delta reference is negative.
#[verifier::opaque]
pub open spec fn deltas_nonnegative(secs: Seq<AsmSection>, map: Seq<u32>) -> bool {
    forall|i: int|
        0 <= i < secs.len() ==> match #[trigger] secs[i] {
            AsmSection::MarkRef(r) => ref_value(r, map) >= 0,
            _ => true,
        }
}

/// The assembly finds a layout (or a too-small reference) within the pass
/// limit, and a found layout has no negative delta.
pub open spec fn assembly_settles(secs: Seq<AsmSection>, hint: Option<usize>) -> bool {
    &&& assembly_outcome(secs, hint) is Some
    &&& assembly_outcome(secs, hint) matches Some(Ok(map)) ==> deltas_nonnegative(secs, map)
}

/// Every mark sits at the offset of the bytes assembled before it.
pub open spec fn marks_placed(secs: Seq<AsmSection>, bytes: Seq<u8>, map: Seq<u32>) -> bool {
    forall|i: int|
        0 <= i < secs.len() ==> match #[trigger] secs[i] {
            AsmSection::Mark(id) => id < map.len() && map[id as int] == emit(secs, bytes, map, i).len(),
            _ => true,
        }
}


/// Every mark id of `secs` is below `len`.
#[verifier::opaque]
pub open spec fn marks_below(secs: Seq<AsmSection>, len: nat) -> bool {
    forall|i: int|
        0 <= i < secs.len() ==> match #[trigger] secs[i] {
            AsmSection::Mark(id) => id < len,
            _ => true,
        }
}

proof fn lemma_size_bound(s: AsmSection, map: Seq<u32>)
    requires
        match s {
            AsmSection::Ops(span) => span.start <= span.end,
            AsmSection::Data(span) => span.start <= span.end,
            _ => true,
        },
    ensures
        min_size(s) <= match s {
            AsmSection::Ops(span) => (span.end - span.start) as int,
            AsmSection::Data(span) => (span.end - span.start) as int,
            _ => 5,
        },
        compiled_size(s, map) matches Some(n) ==> n <= match s {
            AsmSection::Ops(span) => (span.end - span.start) as int,
            AsmSection::Data(span) => (span.end - span.start) as int,
            _ => 5,
        },
{
    reveal(tiles);
    reveal(refs_in_range);
    reveal(marks_below);
    reveal(deltas_nonnegative);
}

proof fn lemma_span_step(secs: Seq<AsmSection>, bytes: Seq<u8>, k: int)
    requires
        tiles(secs, bytes),
        0 <= k < secs.len(),
    ensures
        span_end(secs, k + 1) == span_end(secs, k) + match secs[k] {
            AsmSection::Ops(span) => (span.end - span.start) as int,
            AsmSection::Data(span) => (span.end - span.start) as int,
            _ => 0,
        },
        match secs[k] {
            AsmSection::Ops(span) => span.start <= span.end,
            AsmSection::Data(span) => span.start <= span.end,
            _ => true,
        },
{
    reveal(tiles);
    reveal(refs_in_range);
    reveal(marks_below);
    reveal(deltas_nonnegative);
    assert(match secs[k] {
        AsmSection::Ops(span) => span.start == span_end(secs, k) && span.start <= span.end,
        AsmSection::Data(span) => span.start == span_end(secs, k) && span.start <= span.end,
        _ => true,
    });
}

proof fn lemma_init_prefix(secs: Seq<AsmSection>, bytes: Seq<u8>, map0: Seq<u32>, k: nat)
    requires
        tiles(secs, bytes),
        k <= secs.len(),
        bytes.len() + 5 * secs.len() <= u32::MAX,
    ensures
        init_prefix(secs, map0, k).0.len() >= map0.len(),
        0 <= init_prefix(secs, map0, k).1 <= span_end(secs, k as int) + 5 * k,
        forall|i: int|
            0 <= i < k ==> match #[trigger] secs[i] {
                AsmSection::Mark(id) => id < init_prefix(secs, map0, k).0.len(),
                _ => true,
            },
    decreases k,
{
    reveal(tiles);
    reveal(refs_in_range);
    reveal(marks_below);
    reveal(deltas_nonnegative);
    if k > 0 {
        lemma_init_prefix(secs, bytes, map0, (k - 1) as nat);
        lemma_span_step(secs, bytes, k - 1);
        lemma_size_bound(secs[k - 1], map0);
        let (map, size) = init_prefix(secs, map0, (k - 1) as nat);
        let map1 = init_prefix(secs, map0, k).0;
        assert forall|i: int| 0 <= i < k implies match #[trigger] secs[i] {
            AsmSection::Mark(id) => id < map1.len(),
            _ => true,
        } by {
            if i < k - 1 {
                assert(match secs[i] {
                    AsmSection::Mark(id) => id < map.len(),
                    _ => true,
                });
            }
        }
    }
}

proof fn lemma_pass_prefix(secs: Seq<AsmSection>, bytes: Seq<u8>, map0: Seq<u32>, k: nat)
    requires
        tiles(secs, bytes),
        k <= secs.len(),
        bytes.len() + 5 * secs.len() <= u32::MAX,
        marks_below(secs, map0.len()),
    ensures
        pass_prefix(secs, map0, k).0.len() == map0.len(),
        0 <= pass_prefix(secs, map0, k).1 <= span_end(secs, k as int) + 5 * k,
        pass_prefix(secs, map0, k).3 matches Some(e) ==> e < k,
        pass_prefix(secs, map0, k).2 ==> pass_prefix(secs, map0, k).0 == map0,
    decreases k,
{
    reveal(tiles);
    reveal(refs_in_range);
    reveal(marks_below);
    reveal(deltas_nonnegative);
    if k > 0 {
        lemma_pass_prefix(secs, bytes, map0, (k - 1) as nat);
        lemma_span_step(secs, bytes, k - 1);
        let (map, offset, converged, error) = pass_prefix(secs, map0, (k - 1) as nat);
        lemma_size_bound(secs[k - 1], map);
        match secs[k - 1] {
            AsmSection::Mark(id) => {
                assert(id < map0.len());
                lemma_size_bound(secs[k - 1], map.update(id as int, offset as u32));
            },
            _ => {},
        }
    }
}

proof fn lemma_converge_len(secs: Seq<AsmSection>, bytes: Seq<u8>, map: Seq<u32>, fuel: nat)
    requires
        tiles(secs, bytes),
        bytes.len() + 5 * secs.len() <= u32::MAX,
        marks_below(secs, map.len()),
    ensures
        converge(secs, map, fuel) matches Some(Ok(m)) ==> m.len() == map.len() && pass_prefix(
            secs,
            m,
            secs.len(),
        ).2 && pass_prefix(secs, m, secs.len()).3 is None && pass_prefix(secs, m, secs.len()).0
            == m,
    decreases fuel,
{
    reveal(tiles);
    reveal(refs_in_range);
    reveal(marks_below);
    reveal(deltas_nonnegative);
    if fuel > 0 {
        lemma_pass_prefix(secs, bytes, map, secs.len());
        let (next, _, converged, error) = pass_prefix(secs, map, secs.len());
        if error is None && !converged {
            lemma_converge_len(secs, bytes, next, (fuel - 1) as nat);
        }
    }
}

/// A pass that moved no mark saw every mark at its offset, and ran with
/// the starting map throughout.
proof fn lemma_converged_prefix(secs: Seq<AsmSection>, map0: Seq<u32>, k: nat, j: nat)
    requires
        j <= k <= secs.len(),
        pass_prefix(secs, map0, k).2,
    ensures
        pass_prefix(secs, map0, j).2,
        pass_prefix(secs, map0, j).0 == map0,
    decreases k,
{
    reveal(tiles);
    reveal(refs_in_range);
    reveal(marks_below);
    reveal(deltas_nonnegative);
    if k > j {
        lemma_converged_prefix(secs, map0, (k - 1) as nat, j);
    } else if k > 0 {
        lemma_converged_prefix(secs, map0, (k - 1) as nat, (k - 1) as nat);
    }
}

proof fn lemma_be_bytes_len(v: nat, n: nat)
    ensures
        be_bytes(v, n).len() == n,
    decreases n,
{
    reveal(tiles);
    reveal(refs_in_range);
    reveal(marks_below);
    reveal(deltas_nonnegative);
    if n > 0 {
        lemma_be_bytes_len(v / 256, (n - 1) as nat);
    }
}

/// A section's encoding has its compiled size.
proof fn lemma_encode_len(s: AsmSection, bytes: Seq<u8>, map: Seq<u32>)
    requires
        match s {
            AsmSection::Ops(span) => span.start <= span.end <= bytes.len(),
            AsmSection::Data(span) => span.start <= span.end <= bytes.len(),
            _ => true,
        },
        compiled_size(s, map) is Some,
    ensures
        encode_section(s, bytes, map).len() == compiled_size(s, map).unwrap(),
{
    reveal(tiles);
    reveal(refs_in_range);
    reveal(marks_below);
    reveal(deltas_nonnegative);
    match s {
        AsmSection::MarkRef(r) => {
            let value = sat_ref_value(r, map);
            let size = match r.set_size {
                Some(size) => size.spec_bytes(),
                None => holds(value),
            };
            lemma_be_bytes_len(value as nat, size);
        },
        _ => {},
    }
}

/// In a pass that moved no mark, the offset reached is the length of the
/// assembled bytes so far.
proof fn lemma_offsets_are_lengths(secs: Seq<AsmSection>, bytes: Seq<u8>, map: Seq<u32>, k: nat)
    requires
        tiles(secs, bytes),
        k <= secs.len(),
        pass_prefix(secs, map, k).2,
        pass_prefix(secs, map, k).3 is None,
    ensures
        pass_prefix(secs, map, k).1 == emit(secs, bytes, map, k as int).len(),
    decreases k,
{
    reveal(tiles);
    reveal(refs_in_range);
    reveal(marks_below);
    reveal(deltas_nonnegative);
    if k > 0 {
        lemma_converged_prefix(secs, map, k, (k - 1) as nat);
        lemma_converged_prefix(secs, map, k, k);
        let (m, offset, converged, error) = pass_prefix(secs, map, (k - 1) as nat);
        assert(error is None);
        lemma_offsets_are_lengths(secs, bytes, map, (k - 1) as nat);
        lemma_span_end_mono(secs, k - 1, secs.len() as int);
        lemma_span_end_mono(secs, k as int, secs.len() as int);
        lemma_span_step(secs, bytes, k - 1);
        lemma_encode_len(secs[k - 1], bytes, map);
    }
}

/// Once the layout settles, every mark sits at the offset of the bytes
/// assembled before it.
pub proof fn lemma_settled_marks_placed(secs: Seq<AsmSection>, bytes: Seq<u8>, map: Seq<u32>)
    requires
        tiles(secs, bytes),
        marks_below(secs, map.len()),
        pass_prefix(secs, map, secs.len()).2,
        pass_prefix(secs, map, secs.len()).3 is None,
    ensures
        marks_placed(secs, bytes, map),
{
    reveal(tiles);
    reveal(refs_in_range);
    reveal(marks_below);
    reveal(deltas_nonnegative);
    assert forall|i: int| 0 <= i < secs.len() implies match #[trigger] secs[i] {
        AsmSection::Mark(id) => id < map.len() && map[id as int] == emit(secs, bytes, map, i).len(),
        _ => true,
    } by {
        lemma_converged_prefix(secs, map, secs.len(), i as nat);
        lemma_converged_prefix(secs, map, secs.len(), (i + 1) as nat);
        lemma_pass_none_prefix(secs, map, secs.len(), (i + 1) as nat);
        lemma_offsets_are_lengths(secs, bytes, map, i as nat);
    }
}

proof fn lemma_pass_none_prefix(secs: Seq<AsmSection>, map0: Seq<u32>, k: nat, j: nat)
    requires
        j <= k <= secs.len(),
        pass_prefix(secs, map0, k).3 is None,
    ensures
        pass_prefix(secs, map0, j).3 is None,
    decreases k,
{
    reveal(tiles);
    reveal(refs_in_range);
    reveal(marks_below);
    reveal(deltas_nonnegative);
    if k > j {
        lemma_pass_none_prefix(secs, map0, (k - 1) as nat, j);
    }
}


/// Every mark a reference reads is below `len`.
#[verifier::opaque]
pub open spec fn refs_in_range(secs: Seq<AsmSection>, len: nat) -> bool {
    forall|i: int|
        0 <= i < secs.len() ==> match #[trigger] secs[i] {
            AsmSection::MarkRef(r) => ref_marks_in(r, len as int),
            _ => true,
        }
}

/// Every mark id is below the length of the mark map after the first layout.
proof fn lemma_marks_in_init(secs: Seq<AsmSection>, map0: Seq<u32>)
    ensures
        marks_below(secs, init_prefix(secs, map0, secs.len()).0.len()),
{
    reveal(marks_below);
    lemma_init_marks(secs, map0, secs.len());
}

proof fn lemma_init_marks(secs: Seq<AsmSection>, map0: Seq<u32>, k: nat)
    requires
        k <= secs.len(),
    ensures
        forall|i: int|
            0 <= i < k ==> match #[trigger] secs[i] {
                AsmSection::Mark(id) => id < init_prefix(secs, map0, k).0.len(),
                _ => true,
            },
        init_prefix(secs, map0, k).0.len() >= map0.len(),
    decreases k,
{
    reveal(tiles);
    reveal(refs_in_range);
    reveal(marks_below);
    reveal(deltas_nonnegative);
    if k > 0 {
        lemma_init_marks(secs, map0, (k - 1) as nat);
        let map = init_prefix(secs, map0, (k - 1) as nat).0;
        let map1 = init_prefix(secs, map0, k).0;
        assert forall|i: int| 0 <= i < k implies match #[trigger] secs[i] {
            AsmSection::Mark(id) => id < map1.len(),
            _ => true,
        } by {
            if i < k - 1 {
                assert(match secs[i] {
                    AsmSection::Mark(id) => id < map.len(),
                    _ => true,
                });
            }
        }
    }
}

proof fn lemma_span_end_le(secs: Seq<AsmSection>, bytes: Seq<u8>, i: int)
    requires
        tiles(secs, bytes),
        0 <= i <= secs.len(),
    ensures
        span_end(secs, i) <= bytes.len(),
{
    reveal(tiles);
    lemma_span_end_mono(secs, i, secs.len() as int);
}

proof fn lemma_mark_below(secs: Seq<AsmSection>, len: nat, i: int)
    requires
        marks_below(secs, len),
        0 <= i < secs.len(),
    ensures
        secs[i] matches AsmSection::Mark(id) ==> id < len,
{
    reveal(marks_below);
    assert(match secs[i] {
        AsmSection::Mark(id) => id < len,
        _ => true,
    });
}

proof fn lemma_pass_error_persists(secs: Seq<AsmSection>, map0: Seq<u32>, k: nat, k2: nat)
    requires
        k <= k2 <= secs.len(),
        pass_prefix(secs, map0, k).3 is Some,
    ensures
        pass_prefix(secs, map0, k2).3 == pass_prefix(secs, map0, k).3,
    decreases k2,
{
    reveal(tiles);
    reveal(refs_in_range);
    reveal(marks_below);
    reveal(deltas_nonnegative);
    if k2 > k {
        lemma_pass_error_persists(secs, map0, k, (k2 - 1) as nat);
    }
}

/// Appends the encoding of a reference under a settled layout.
fn emit_ref(result: &mut Vec<u8>, mark_ref: AsmReference, mark_to_offset: &Vec<u32>)
    requires
        ref_marks_in(mark_ref, mark_to_offset@.len() as int),
        ref_value(mark_ref, mark_to_offset@) >= 0,
    ensures
        final(result)@ == old(result)@ + encode_ref(mark_ref, mark_to_offset@),
{
    reveal(tiles);
    reveal(refs_in_range);
    reveal(marks_below);
    reveal(deltas_nonnegative);
    let ghost map = mark_to_offset@;
    let value: u32 = match mark_ref.mark_ref {
        MarkReference::Direct(id) => mark_to_offset[id as usize],
        MarkReference::Delta(span) => mark_to_offset[span.end as usize]
            - mark_to_offset[span.start as usize],
    };
    assert(value == sat_ref_value(mark_ref, map));
    let is_unsized = match mark_ref.set_size {
        None => true,
        Some(_) => false,
    };
    if value == 0 && is_unsized && mark_ref.pushed {
        result.push(PUSH0);
        proof {
            assert(final(result)@ =~= old(result)@ + encode_ref(mark_ref, map));
        }
    } else {
        let ref_size = match mark_ref.set_size {
            Some(set_size) => set_size.bytes(),
            None => bytes_to_hold(value).bytes(),
        };
        let ghost mid = result@;
        if mark_ref.pushed {
            result.push((PUSH1 as u32 + ref_size - 1) as u8);
        }
        let ghost pushed_op = result@;
        push_be(result, value, ref_size);
        proof {
            assert(final(result)@ =~= old(result)@ + encode_ref(mark_ref, map));
        }
    }
}

/// Appends the low `n` bytes of `value`, most significant first.
fn push_be(result: &mut Vec<u8>, value: u32, n: u32)
    requires
        n <= 4,
    ensures
        final(result)@ == old(result)@ + be_bytes(value as nat, n as nat),
    decreases n,
{
    reveal(tiles);
    reveal(refs_in_range);
    reveal(marks_below);
    reveal(deltas_nonnegative);
    if n > 0 {
        push_be(result, value / 256, n - 1);
        result.push((value % 256) as u8);
        proof {
            assert(final(result)@ =~= old(result)@ + be_bytes(value as nat, n as nat));
        }
    } else {
        proof {
            assert(final(result)@ =~= old(result)@ + be_bytes(value as nat, n as nat));
        }
    }
}


proof fn lemma_emit_extend_bytes(secs: Seq<AsmSection>, bytes: Seq<u8>, more: Seq<u8>, map: Seq<u32>, k: int)
    requires
        0 <= k <= secs.len(),
        forall|i: int|
            0 <= i < k ==> match #[trigger] secs[i] {
                AsmSection::Ops(span) => span.start <= span.end <= bytes.len(),
                AsmSection::Data(span) => span.start <= span.end <= bytes.len(),
                _ => true,
            },
    ensures
        emit(secs, bytes + more, map, k) == emit(secs, bytes, map, k),
    decreases k,
{
    if k > 0 {
        lemma_emit_extend_bytes(secs, bytes, more, map, k - 1);
        match secs[k - 1] {
            AsmSection::Ops(span) => {
                assert((bytes + more).subrange(span.start as int, span.end as int) =~= bytes.subrange(
                    span.start as int,
                    span.end as int,
                ));
            },
            AsmSection::Data(span) => {
                assert((bytes + more).subrange(span.start as int, span.end as int) =~= bytes.subrange(
                    span.start as int,
                    span.end as int,
                ));
            },
            _ => {},
        }
    }
}

proof fn lemma_emit_same_prefix(a: Seq<AsmSection>, b: Seq<AsmSection>, bytes: Seq<u8>, map: Seq<u32>, k: int)
    requires
        0 <= k <= a.len(),
        k <= b.len(),
        forall|i: int| 0 <= i < k ==> #[trigger] a[i] == b[i],
    ensures
        emit(a, bytes, map, k) == emit(b, bytes, map, k),
    decreases k,
{
    if k > 0 {
        lemma_emit_same_prefix(a, b, bytes, map, k - 1);
    }
}

proof fn lemma_spans_within(secs: Seq<AsmSection>, bytes: Seq<u8>)
    requires
        tiles(secs, bytes),
    ensures
        forall|i: int|
            0 <= i < secs.len() ==> match #[trigger] secs[i] {
                AsmSection::Ops(span) => span.start <= span.end <= bytes.len(),
                AsmSection::Data(span) => span.start <= span.end <= bytes.len(),
                _ => true,
            },
{
    reveal(tiles);
    assert forall|i: int| 0 <= i < secs.len() implies match #[trigger] secs[i] {
        AsmSection::Ops(span) => span.start <= span.end <= bytes.len(),
        AsmSection::Data(span) => span.start <= span.end <= bytes.len(),
        _ => true,
    } by {
        lemma_span_step(secs, bytes, i);
        lemma_span_end_mono(secs, i + 1, secs.len() as int);
    }
}

/// Appending an operation byte appends exactly that byte to the assembled
/// code, whatever the mark layout.
pub proof fn lemma_emit_op_byte(secs: Seq<AsmSection>, bytes: Seq<u8>, byte: u8, map: Seq<u32>)
    requires
        tiles(secs, bytes),
    ensures
        ({
            let (secs2, bytes2) = with_op_byte(secs, bytes, byte);
            emit(secs2, bytes2, map, secs2.len() as int) == emit(secs, bytes, map, secs.len() as int)
                + seq![byte]
        }),
{
    reveal(tiles);
    let (secs2, bytes2) = with_op_byte(secs, bytes, byte);
    lemma_spans_within(secs, bytes);
    assert(bytes2 =~= bytes + seq![byte]);
    let n = secs.len() as int;
    if n > 0 && secs.last() is Ops {
        let span = secs.last()->Ops_0;
        lemma_emit_same_prefix(secs2, secs, bytes2, map, n - 1);
        lemma_emit_extend_bytes(secs, bytes, seq![byte], map, n - 1);
        lemma_span_step(secs, bytes, n - 1);
        assert(span.end == bytes.len());
        assert(bytes2.subrange(span.start as int, span.end + 1) =~= bytes.subrange(
            span.start as int,
            span.end as int,
        ).push(byte));
    } else {
        lemma_emit_same_prefix(secs2, secs, bytes2, map, n);
        lemma_emit_extend_bytes(secs, bytes, seq![byte], map, n);
        assert(bytes2.subrange(bytes.len() as int, bytes.len() + 1int) =~= seq![byte]);
    }
}

/// Appending data appends exactly those bytes to the assembled code.
pub proof fn lemma_emit_data(secs: Seq<AsmSection>, bytes: Seq<u8>, data: Seq<u8>, map: Seq<u32>)
    requires
        tiles(secs, bytes),
        bytes.len() + data.len() < u32::MAX,
    ensures
        ({
            let (secs2, bytes2) = with_data(secs, bytes, data);
            emit(secs2, bytes2, map, secs2.len() as int) == emit(secs, bytes, map, secs.len() as int)
                + data
        }),
{
    reveal(tiles);
    let (secs2, bytes2) = with_data(secs, bytes, data);
    lemma_spans_within(secs, bytes);
    let n = secs.len() as int;
    if n > 0 && secs.last() is Data {
        let span = secs.last()->Data_0;
        lemma_emit_same_prefix(secs2, secs, bytes2, map, n - 1);
        lemma_emit_extend_bytes(secs, bytes, data, map, n - 1);
        lemma_span_step(secs, bytes, n - 1);
        assert(span.end == bytes.len());
        assert(bytes2.subrange(span.start as int, span.end + data.len()) =~= bytes.subrange(
            span.start as int,
            span.end as int,
        ) + data);
    } else {
        lemma_emit_same_prefix(secs2, secs, bytes2, map, n);
        lemma_emit_extend_bytes(secs, bytes, data, map, n);
        assert(bytes2.subrange(bytes.len() as int, (bytes.len() + data.len()) as int) =~= data);
    }
}

/// Appending a mark or a reference appends its encoding (nothing for a
/// mark) to the assembled code.
pub proof fn lemma_emit_push_section(secs: Seq<AsmSection>, bytes: Seq<u8>, section: AsmSection, map: Seq<u32>)
    requires
        section is Mark || section is MarkRef,
    ensures
        emit(secs.push(section), bytes, map, secs.len() + 1int) == emit(secs, bytes, map, secs.len() as int)
            + encode_section(section, bytes, map),
        section is Mark ==> emit(secs.push(section), bytes, map, secs.len() + 1int) == emit(secs, bytes, map, secs.len() as int),
{
    lemma_emit_same_prefix(secs.push(section), secs, bytes, map, secs.len() as int);
    if section is Mark {
        assert(emit(secs, bytes, map, secs.len() as int) + Seq::<u8>::empty() =~= emit(secs, bytes, map, secs.len() as int));
    }
}

impl AsmSection {
    fn delta_ref(delta_span: Span, pushed: bool, set_size: Option<RefSize>) -> (r: AsmSection)
        ensures
            r == delta(delta_span, pushed, set_size),
    {
        reveal(tiles);
        reveal(refs_in_range);
        reveal(marks_below);
        reveal(deltas_nonnegative);
            AsmSection::MarkRef(
            AsmReference { mark_ref: MarkReference::Delta(delta_span), set_size, pushed },
        )
    }

    pub fn min_compiled_size(&self) -> (r: u32)
        requires
            match *self {
                AsmSection::Ops(span) => span.start <= span.end,
                AsmSection::Data(span) => span.start <= span.end,
                _ => true,
            },
        ensures
            r == min_size(*self),
    {
        reveal(tiles);
        reveal(refs_in_range);
        reveal(marks_below);
        reveal(deltas_nonnegative);
            match self {
            AsmSection::Mark(_) => 0,
            AsmSection::Ops(bytes_span) | AsmSection::Data(bytes_span) => {
                bytes_span.end - bytes_span.start
            },
            AsmSection::MarkRef(mark_ref) => match mark_ref.set_size {
                Some(set_size) => if mark_ref.pushed {
                    set_size.bytes() + 1
                } else {
                    set_size.bytes()
                },
                None => 1,
            },
        }
    }

    pub fn compiled_size(&self, mark_map: &Vec<u32>) -> (r: Option<u32>)
        requires
            match *self {
                AsmSection::Ops(span) => span.start <= span.end,
                AsmSection::Data(span) => span.start <= span.end,
                AsmSection::MarkRef(r) => ref_marks_in(r, mark_map@.len() as int),
                _ => true,
            },
        ensures
            r is Some <==> compiled_size(*self, mark_map@) is Some,
            r matches Some(n) ==> n == compiled_size(*self, mark_map@).unwrap(),
    {
        reveal(tiles);
        reveal(refs_in_range);
        reveal(marks_below);
        reveal(deltas_nonnegative);
            match self {
            AsmSection::Mark(_) => Some(0),
            AsmSection::Ops(bytes_span) | AsmSection::Data(bytes_span) => {
                Some(bytes_span.end - bytes_span.start)
            },
            AsmSection::MarkRef(mark_ref) => {
                let value = match mark_ref.mark_ref {
                    MarkReference::Direct(id) => mark_map[id as usize],
                    MarkReference::Delta(span) => {
                        // The end mark may temporarily have an offset smaller than the start's if
                        // the start is updated *first* to a large value past end.
                        let end = mark_map[span.end as usize];
                        let start = mark_map[span.start as usize];
                        if end >= start {
                            end - start
                        } else {
                            0
                        }
                    },
                };
                let ref_size = bytes_to_hold(value).bytes();
                match mark_ref.set_size {
                    Some(set_size) => {
                        if set_size.bytes() < ref_size {
                            None
                        } else if mark_ref.pushed {
                            Some(set_size.bytes() + 1)
                        } else {
                            Some(set_size.bytes())
                        }
                    },
                    None => {
                        if mark_ref.pushed && value == 0 {
                            Some(1)
                        } else if mark_ref.pushed {
                            Some(1 + ref_size)
                        } else {
                            Some(ref_size)
                        }
                    },
                }
            },
        }
    }
}

#[derive(Debug, Clone, Copy, PartialEq, Eq, Structural)]
pub enum AssembleError {
    RefHasTooSmallSetSize(usize),
}

/// A buffer of assembly sections.
#[derive(Debug)]
pub struct Assembler {
    bytes: Vec<u8>,
    sections: Vec<StoredAsmSection>,
}

spec fn sections_of(stored: Seq<StoredAsmSection>) -> Seq<AsmSection> {
    stored.map_values(|s: StoredAsmSection| section_of(s))
}

impl Assembler {
    pub closed spec fn code_bytes(&self) -> Seq<u8> {
        self.bytes@
    }

    pub closed spec fn sections(&self) -> Seq<AsmSection> {
        sections_of(self.sections@)
    }

    pub open spec fn wf(&self) -> bool {
        tiles(self.sections(), self.code_bytes())
    }

    pub fn with_capacity(bytes_capacity: usize, sections_capacity: usize) -> (r: Assembler)
        ensures
            r.wf(),
            r.sections() == Seq::<AsmSection>::empty(),
            r.code_bytes() == Seq::<u8>::empty(),
    {
        reveal(tiles);
        reveal(refs_in_range);
        reveal(marks_below);
        reveal(deltas_nonnegative);
            let r = Assembler {
            bytes: Vec::with_capacity(bytes_capacity),
            sections: Vec::with_capacity(sections_capacity),
        };
        proof {
            assert(r.sections() =~= Seq::<AsmSection>::empty());
        }
        r
    }

    pub fn clear(&mut self)
        ensures
            final(self).wf(),
            final(self).sections() == Seq::<AsmSection>::empty(),
            final(self).code_bytes() == Seq::<u8>::empty(),
    {
        reveal(tiles);
        reveal(refs_in_range);
        reveal(marks_below);
        reveal(deltas_nonnegative);
            self.bytes.clear();
        self.sections.clear();
        proof {
            assert(self.sections() =~= Seq::<AsmSection>::empty());
        }
    }

    /// The sections in order.
    pub fn iter_sections(&self) -> (r: Vec<AsmSection>)
        ensures
            r@ == self.sections(),
    {
        reveal(tiles);
        reveal(refs_in_range);
        reveal(marks_below);
        reveal(deltas_nonnegative);
            let mut out: Vec<AsmSection> = Vec::new();
        let mut i: usize = 0;
        while i < self.sections.len()
            invariant
                i <= self.sections@.len(),
                out@ =~= self.sections().take(i as int),
            decreases self.sections@.len() - i,
        {
            out.push(to_section(self.sections[i]));
            proof {
                assert(self.sections().take(i + 1) =~= self.sections().take(i as int).push(
                    section_of(self.sections@[i as int]),
                ));
            }
            i = i + 1;
        }
        proof {
            assert(self.sections().take(i as int) =~= self.sections());
        }
        out
    }

    pub fn push_mark(&mut self, mark: u32)
        requires
            old(self).wf(),
        ensures
            final(self).wf(),
            final(self).sections() == old(self).sections().push(AsmSection::Mark(mark)),
            final(self).code_bytes() == old(self).code_bytes(),
    {
        reveal(tiles);
        reveal(refs_in_range);
        reveal(marks_below);
        reveal(deltas_nonnegative);
            self.sections.push(StoredAsmSection::Mark(mark));
        proof {
            assert(self.sections() =~= old(self).sections().push(AsmSection::Mark(mark)));
            lemma_tiles_push_nonspan(old(self).sections(), old(self).code_bytes(), AsmSection::Mark(mark));
        }
    }

    /// Appends an operation byte, extending the last section if it holds
    /// operations.
    pub fn push_op_byte(&mut self, byte: u8)
        requires
            old(self).wf(),
            old(self).code_bytes().len() + 1 < u32::MAX,
        ensures
            final(self).wf(),
            (final(self).sections(), final(self).code_bytes()) == with_op_byte(
                old(self).sections(),
                old(self).code_bytes(),
                byte,
            ),
    {
        reveal(tiles);
        reveal(refs_in_range);
        reveal(marks_below);
        reveal(deltas_nonnegative);
            let n = self.sections.len();
        let len = self.bytes.len() as u32;
        if n > 0 {
            match self.sections[n - 1] {
                StoredAsmSection::Ops(bytes_span) => {
                    proof {
                        assert(self.sections()[n - 1] == AsmSection::Ops(bytes_span));
                        assert(bytes_span.end == span_end(self.sections(), n as int));
                    }
                    self.bytes.push(byte);
                    let updated = Span { start: bytes_span.start, end: len + 1 };
                    self.sections.set(n - 1, StoredAsmSection::Ops(updated));
                    proof {
                        assert(self.sections() =~= old(self).sections().update(
                            n - 1,
                            AsmSection::Ops(updated),
                        ));
                        lemma_tiles_extend_last(
                            old(self).sections(),
                            old(self).code_bytes(),
                            AsmSection::Ops(updated),
                            1,
                        );
                        assert(self.code_bytes() =~= old(self).code_bytes() + seq![byte]);
                        assert(tiles(
                            old(self).sections().update(n - 1, AsmSection::Ops(updated)),
                            old(self).code_bytes() + seq![byte],
                        ));
                    }
                    return;
                },
                _ => {},
            }
        }
        self.bytes.push(byte);
        let span = Span { start: len, end: len + 1 };
        self.sections.push(StoredAsmSection::Ops(span));
        proof {
            assert(self.sections() =~= old(self).sections().push(AsmSection::Ops(span)));
            lemma_tiles_push_span(old(self).sections(), old(self).code_bytes(), AsmSection::Ops(span), 1);
            assert(self.code_bytes() =~= old(self).code_bytes() + seq![byte]);
            assert(tiles(old(self).sections().push(AsmSection::Ops(span)), old(self).code_bytes() + seq![byte]));
        }
    }

    /// Appends data bytes, extending the last section if it holds data.
    pub fn push_data(&mut self, data: &[u8])
        requires
            old(self).wf(),
            old(self).code_bytes().len() + data@.len() < u32::MAX,
        ensures
            final(self).wf(),
            (final(self).sections(), final(self).code_bytes()) == with_data(
                old(self).sections(),
                old(self).code_bytes(),
                data@,
            ),
    {
        reveal(tiles);
        reveal(refs_in_range);
        reveal(marks_below);
        reveal(deltas_nonnegative);
            let n = self.sections.len();
        let len = self.bytes.len() as u32;
        let mut k: usize = 0;
        let ghost old_bytes = self.bytes@;
        while k < data.len()
            invariant
                k <= data@.len(),
                self.bytes@ =~= old_bytes + data@.take(k as int),
                self.sections@ == old(self).sections@,
                old_bytes == old(self).bytes@,
            decreases data@.len() - k,
        {
            self.bytes.push(data[k]);
            proof {
                assert(data@.take(k + 1) =~= data@.take(k as int).push(data@[k as int]));
            }
            k = k + 1;
        }
        proof {
            assert(data@.take(data@.len() as int) =~= data@);
        }
        let end = len + data.len() as u32;
        if n > 0 {
            match self.sections[n - 1] {
                StoredAsmSection::Data(bytes_span) => {
                    proof {
                        assert(old(self).sections()[n - 1] == AsmSection::Data(bytes_span));
                        assert(bytes_span.end == span_end(old(self).sections(), n as int));
                    }
                    let updated = Span { start: bytes_span.start, end };
                    self.sections.set(n - 1, StoredAsmSection::Data(updated));
                    proof {
                        assert(self.sections() =~= old(self).sections().update(
                            n - 1,
                            AsmSection::Data(updated),
                        ));
                        lemma_tiles_extend_last(
                            old(self).sections(),
                            old(self).code_bytes(),
                            AsmSection::Data(updated),
                            data@.len(),
                        );
                    }
                    return;
                },
                _ => {},
            }
        }
        let span = Span { start: len, end };
        self.sections.push(StoredAsmSection::Data(span));
        proof {
            assert(self.sections() =~= old(self).sections().push(AsmSection::Data(span)));
            lemma_tiles_push_span(
                old(self).sections(),
                old(self).code_bytes(),
                AsmSection::Data(span),
                data@.len(),
            );
        }
    }

    /// Appends a reference to marks.
    pub fn push_reference(&mut self, asm_ref: AsmReference)
        requires
            old(self).wf(),
        ensures
            final(self).wf(),
            final(self).sections() == old(self).sections().push(AsmSection::MarkRef(asm_ref)),
            final(self).code_bytes() == old(self).code_bytes(),
    {
        reveal(tiles);
        reveal(refs_in_range);
        reveal(marks_below);
        reveal(deltas_nonnegative);
            let section = match asm_ref.mark_ref {
            MarkReference::Direct(id) => StoredAsmSection::DirectMarkRef(
                DirectMarkRef { id, set_size: asm_ref.set_size, pushed: asm_ref.pushed },
            ),
            MarkReference::Delta(delta_span) => {
                if asm_ref.pushed {
                    match asm_ref.set_size {
                        None => StoredAsmSection::UnsizedPushedDeltaRef(delta_span),
                        Some(RefSize::S1) => StoredAsmSection::Size1PushedDeltaRef(delta_span),
                        Some(RefSize::S2) => StoredAsmSection::Size2PushedDeltaRef(delta_span),
                        Some(RefSize::S3) => StoredAsmSection::Size3PushedDeltaRef(delta_span),
                        Some(RefSize::S4) => StoredAsmSection::Size4PushedDeltaRef(delta_span),
                    }
                } else {
                    match asm_ref.set_size {
                        None => StoredAsmSection::UnsizedRawDeltaRef(delta_span),
                        Some(RefSize::S1) => StoredAsmSection::Size1RawDeltaRef(delta_span),
                        Some(RefSize::S2) => StoredAsmSection::Size2RawDeltaRef(delta_span),
                        Some(RefSize::S3) => StoredAsmSection::Size3RawDeltaRef(delta_span),
                        Some(RefSize::S4) => StoredAsmSection::Size4RawDeltaRef(delta_span),
                    }
                }
            },
        };
        proof {
            assert(section_of(section) == AsmSection::MarkRef(asm_ref));
        }
        self.sections.push(section);
        proof {
            assert(self.sections() =~= old(self).sections().push(AsmSection::MarkRef(asm_ref)));
            lemma_tiles_push_nonspan(
                old(self).sections(),
                old(self).code_bytes(),
                AsmSection::MarkRef(asm_ref),
            );
        }
    }

    /// `SWAPn` for `n == depth`.
    pub fn push_swap(&mut self, depth: u8)
        requires
            old(self).wf(),
            old(self).code_bytes().len() + 1 < u32::MAX,
            1 <= depth <= 16,
        ensures
            final(self).wf(),
            (final(self).sections(), final(self).code_bytes()) == with_op_byte(
                old(self).sections(),
                old(self).code_bytes(),
                (SWAP1 + depth - 1) as u8,
            ),
    {
        reveal(tiles);
        reveal(refs_in_range);
        reveal(marks_below);
        reveal(deltas_nonnegative);
            self.push_op_byte(SWAP1 + depth - 1);
    }

    /// `DUPn` for `n == depth + 1`.
    pub fn push_dup(&mut self, depth: u8)
        requires
            old(self).wf(),
            old(self).code_bytes().len() + 1 < u32::MAX,
            depth <= 15,
        ensures
            final(self).wf(),
            (final(self).sections(), final(self).code_bytes()) == with_op_byte(
                old(self).sections(),
                old(self).code_bytes(),
                (DUP1 + depth) as u8,
            ),
    {
        reveal(tiles);
        reveal(refs_in_range);
        reveal(marks_below);
        reveal(deltas_nonnegative);
            self.push_op_byte(DUP1 + depth);
    }

    /// Exchanges stack slots `n` and `m` (0 is the top) with swaps.
    pub fn push_exchange(&mut self, n: u8, m: u8)
        requires
            old(self).wf(),
            old(self).code_bytes().len() + 3 < u32::MAX,
            n != m,
            n <= 16,
            m <= 16,
        ensures
            final(self).wf(),
            (final(self).sections(), final(self).code_bytes()) == with_ops(
                old(self).sections(),
                old(self).code_bytes(),
                exchange_ops(n, m),
            ),
    {
        reveal(tiles);
        reveal(refs_in_range);
        reveal(marks_below);
        reveal(deltas_nonnegative);
            if n == 0 {
            self.push_swap(m);
            proof {
                lemma_with_ops_one(old(self).sections(), old(self).code_bytes(), (SWAP1 + m - 1) as u8);
            }
        } else if m == 0 {
            self.push_swap(n);
            proof {
                lemma_with_ops_one(old(self).sections(), old(self).code_bytes(), (SWAP1 + n - 1) as u8);
            }
        } else {
            let ghost s0 = (self.sections(), self.code_bytes());
            self.push_swap(n);
            let ghost s1 = (self.sections(), self.code_bytes());
            self.push_swap(m);
            let ghost s2 = (self.sections(), self.code_bytes());
            self.push_swap(n);
            proof {
                let a = (SWAP1 + n - 1) as u8;
                let b = (SWAP1 + m - 1) as u8;
                assert(seq![a, b, a].drop_last() =~= seq![a, b]);
                assert(seq![a, b].drop_last() =~= seq![a]);
                assert(seq![a].drop_last() =~= Seq::<u8>::empty());
                reveal_with_fuel(with_ops, 4);
            }
        }
    }

    /// Pushes a word with the shortest `PUSH`: `PUSH0` for zero, otherwise
    /// `PUSHn` with the big-endian bytes of the value without leading zeros.
    pub fn push_minimal_u256(&mut self, value: Word)
        requires
            old(self).wf(),
            old(self).code_bytes().len() + 33 < u32::MAX,
        ensures
            final(self).wf(),
            (final(self).sections(), final(self).code_bytes()) == with_ops(
                old(self).sections(),
                old(self).code_bytes(),
                minimal_push(word_value(value) as nat),
            ),
    {
        reveal(tiles);
        reveal(refs_in_range);
        reveal(marks_below);
        reveal(deltas_nonnegative);
            let bytes = value.to_be_bytes();
        let mut first: usize = 0;
        while first < 32 && bytes[first] == 0
            invariant
                first <= 32,
                forall|m: int| 0 <= m < first ==> #[trigger] bytes@[m] == 0u8,
            decreases 32 - first,
        {
            first = first + 1;
        }
        proof {
            lemma_be_value_leading_zero_prefix(bytes@, first as int);
            lemma_minimal_push(bytes@, first as int, word_value(value) as nat);
        }
        if first == 32 {
            self.push_op_byte(PUSH0);
            proof {
                lemma_with_ops_one(old(self).sections(), old(self).code_bytes(), PUSH0);
            }
            return;
        }
        let push_size = (32 - first) as u8;
        let ghost ops = minimal_push(word_value(value) as nat);
        self.push_op_byte(PUSH1 + push_size - 1);
        proof {
            lemma_with_ops_one(old(self).sections(), old(self).code_bytes(), (PUSH1 + push_size - 1) as u8);
            assert(ops == seq![(PUSH1 + (32 - first) - 1) as u8] + bytes@.skip(first as int));
            assert(ops.take(1) =~= seq![(PUSH1 + push_size - 1) as u8]);
        }
        let mut k: usize = first;
        while k < 32
            invariant
                first <= k <= 32,
                first < 32,
                ops == seq![(PUSH1 + (32 - first) - 1) as u8] + bytes@.skip(first as int),
                self.wf(),
                self.code_bytes().len() == old(self).code_bytes().len() + 1 + (k - first),
                old(self).code_bytes().len() + 33 < u32::MAX,
                (self.sections(), self.code_bytes()) == with_ops(
                    old(self).sections(),
                    old(self).code_bytes(),
                    ops.take(1 + k - first),
                ),
            decreases 32 - k,
        {
            let ghost before = (self.sections(), self.code_bytes());
            self.push_op_byte(bytes[k]);
            proof {
                assert(ops.take(1 + (k + 1) - first).drop_last() =~= ops.take(1 + k - first));
                assert(ops.take(1 + (k + 1) - first).last() == bytes@[k as int]);
            }
            k = k + 1;
        }
        proof {
            assert(ops.take(1 + 32 - first) =~= ops);
        }
    }

    /// Lays out the marks: places each at the sum of minimal sizes before it,
    /// then repeats passes until no mark moves.
    fn converge_mark_offsets(&self, mark_to_offset: &mut Vec<u32>) -> (r: Result<
        (),
        AssembleError,
    >)
        requires
            self.wf(),
            self.code_bytes().len() + 5 * self.sections().len() <= u32::MAX,
            refs_in_range(
                self.sections(),
                init_prefix(self.sections(), old(mark_to_offset)@, self.sections().len()).0.len(),
            ),
            marks_below(self.sections(), u32::MAX as nat),
            converge(
                self.sections(),
                init_prefix(self.sections(), old(mark_to_offset)@, self.sections().len()).0,
                MAX_ASSEMBLER_CONVERGENCE_ITERS as nat,
            ) is Some,
        ensures
            ({
                let outcome = converge(
                    self.sections(),
                    init_prefix(self.sections(), old(mark_to_offset)@, self.sections().len()).0,
                    MAX_ASSEMBLER_CONVERGENCE_ITERS as nat,
                );
                &&& outcome matches Some(Ok(m)) ==> r is Ok && final(mark_to_offset)@ == m
                &&& outcome matches Some(Err(i)) ==> r == Err::<(), AssembleError>(
                    AssembleError::RefHasTooSmallSetSize(i as usize),
                )
            }),
            marks_below(self.sections(), final(mark_to_offset)@.len()),
    {
        let ghost secs = self.sections();
        let ghost bytes = self.code_bytes();
        let ghost map0 = mark_to_offset@;
        let n = self.sections.len();
        let mut min_size: u32 = 0;
        let mut i: usize = 0;
        while i < n
            invariant
                secs == self.sections(),
                bytes == self.code_bytes(),
                n == secs.len(),
                tiles(secs, bytes),
                bytes.len() + 5 * secs.len() <= u32::MAX,
                i <= n,
                (mark_to_offset@, min_size as int) == init_prefix(secs, map0, i as nat),
                marks_below(secs, u32::MAX as nat),
                map0 == old(mark_to_offset)@,
            decreases n - i,
        {
            let section = to_section(self.sections[i]);
            proof {
                lemma_init_prefix(secs, bytes, map0, i as nat);
                lemma_init_prefix(secs, bytes, map0, (i + 1) as nat);
                lemma_span_end_le(secs, bytes, (i + 1) as int);
                lemma_span_step(secs, bytes, i as int);
            }
            match section {
                AsmSection::Mark(id) => {
                    proof {
                        assert(section == secs[i as int]);
                        lemma_mark_below(secs, u32::MAX as nat, i as int);
                    }
                    let size_for_id: usize = id as usize + 1;
                    if mark_to_offset.len() < size_for_id {
                        let ghost before = mark_to_offset@;
                        mark_to_offset.resize(size_for_id, 0);
                        proof {
                            assert(mark_to_offset@ =~= grow(before, (id + 1) as nat));
                        }
                    } else {
                        proof {
                            assert(mark_to_offset@ == grow(mark_to_offset@, (id + 1) as nat));
                        }
                    }
                    mark_to_offset.set(id as usize, min_size);
                },
                _ => {},
            }
            min_size = min_size + section.min_compiled_size();
            i = i + 1;
        }
        proof {
            lemma_init_prefix(secs, bytes, map0, n as nat);
            lemma_marks_in_init(secs, map0);
        }
        let ghost start = mark_to_offset@;
        let mut iteration: usize = 0;
        while iteration < MAX_ASSEMBLER_CONVERGENCE_ITERS
            invariant
                secs == self.sections(),
                bytes == self.code_bytes(),
                n == secs.len(),
                tiles(secs, bytes),
                bytes.len() + 5 * secs.len() <= u32::MAX,
                start == init_prefix(secs, map0, n as nat).0,
                map0 == old(mark_to_offset)@,
                marks_below(secs, mark_to_offset@.len()),
                refs_in_range(secs, mark_to_offset@.len()),
                iteration <= MAX_ASSEMBLER_CONVERGENCE_ITERS,
                converge(secs, mark_to_offset@, (MAX_ASSEMBLER_CONVERGENCE_ITERS - iteration) as nat)
                    == converge(secs, start, MAX_ASSEMBLER_CONVERGENCE_ITERS as nat),
                converge(secs, start, MAX_ASSEMBLER_CONVERGENCE_ITERS as nat) is Some,
            decreases MAX_ASSEMBLER_CONVERGENCE_ITERS - iteration,
        {
            let ghost pass_start = mark_to_offset@;
            let mut converged = true;
            let mut current_code_offset: u32 = 0;
            let mut i: usize = 0;
            while i < n
                invariant
                    secs == self.sections(),
                    bytes == self.code_bytes(),
                    n == secs.len(),
                    tiles(secs, bytes),
                    bytes.len() + 5 * secs.len() <= u32::MAX,
                    marks_below(secs, pass_start.len()),
                    refs_in_range(secs, pass_start.len()),
                    iteration < MAX_ASSEMBLER_CONVERGENCE_ITERS,
                    start == init_prefix(secs, map0, n as nat).0,
                    converge(secs, pass_start, (MAX_ASSEMBLER_CONVERGENCE_ITERS - iteration) as nat)
                        == converge(secs, start, MAX_ASSEMBLER_CONVERGENCE_ITERS as nat),
                    converge(secs, start, MAX_ASSEMBLER_CONVERGENCE_ITERS as nat) is Some,
                    map0 == old(mark_to_offset)@,
                    i <= n,
                    (mark_to_offset@, current_code_offset as int, converged, None::<nat>)
                        == pass_prefix(secs, pass_start, i as nat),
                decreases n - i,
            {
                proof {
                    lemma_pass_prefix(secs, bytes, pass_start, i as nat);
                    lemma_span_end_le(secs, bytes, i as int);
                }
                match self.pass_section(mark_to_offset, i, current_code_offset, converged) {
                    Some((offset, still_converged)) => {
                        current_code_offset = offset;
                        converged = still_converged;
                    },
                    None => {
                        proof {
                            lemma_pass_error_persists(secs, pass_start, (i + 1) as nat, n as nat);
                            assert(converge(
                                secs,
                                pass_start,
                                (MAX_ASSEMBLER_CONVERGENCE_ITERS - iteration) as nat,
                            ) == Some(Err::<Seq<u32>, nat>(i as nat)));
                        }
                        return Err(AssembleError::RefHasTooSmallSetSize(i));
                    },
                }
                i = i + 1;
            }
            proof {
                lemma_pass_prefix(secs, bytes, pass_start, n as nat);
                let fuel = (MAX_ASSEMBLER_CONVERGENCE_ITERS - iteration) as nat;
                assert(converge(secs, pass_start, fuel) == (if converged {
                    Some(Ok::<Seq<u32>, nat>(mark_to_offset@))
                } else {
                    converge(secs, mark_to_offset@, (fuel - 1) as nat)
                }));
            }
            if converged {
                return Ok(());
            }
            iteration = iteration + 1;
        }
        proof {
            assert(converge(secs, mark_to_offset@, 0) is None);
        }
        Ok(())
    }

    /// One section of a layout pass (see `pass_step`).
    fn pass_section(&self, mark_to_offset: &mut Vec<u32>, i: usize, current: u32, converged: bool) -> (r: Option<(u32, bool)>)
        requires
            self.wf(),
            self.code_bytes().len() + 5 * self.sections().len() <= u32::MAX,
            marks_below(self.sections(), old(mark_to_offset)@.len()),
            refs_in_range(self.sections(), old(mark_to_offset)@.len()),
            i < self.sections().len(),
            current <= span_end(self.sections(), i as int) + 5 * i,
            span_end(self.sections(), i as int) <= self.code_bytes().len(),
        ensures
            ({
                let st = pass_step(self.sections(), (old(mark_to_offset)@, current as int, converged, None), i as nat);
                &&& final(mark_to_offset)@ == st.0
                &&& r is None <==> st.3 is Some
                &&& r matches Some((offset, still)) ==> offset == st.1 && still == st.2
            }),
            final(mark_to_offset)@.len() == old(mark_to_offset)@.len(),
    {
        reveal(tiles);
        reveal(refs_in_range);
        reveal(marks_below);
        reveal(deltas_nonnegative);
            let ghost secs = self.sections();
        let section = to_section(self.sections[i]);
        proof {
            assert(section == secs[i as int]);
            lemma_span_step(secs, self.code_bytes(), i as int);
            lemma_span_end_mono(secs, (i + 1) as int, secs.len() as int);
        }
        let mut converged = converged;
        match section {
            AsmSection::Mark(id) => {
                proof {
                    assert(match secs[i as int] {
                        AsmSection::Mark(id) => id < old(mark_to_offset)@.len(),
                        _ => true,
                    });
                }
                let prev_offset = mark_to_offset[id as usize];
                if prev_offset != current {
                    converged = false;
                    mark_to_offset.set(id as usize, current);
                }
            },
            _ => {},
        }
        proof {
            assert(match secs[i as int] {
                AsmSection::MarkRef(r) => ref_marks_in(r, old(mark_to_offset)@.len() as int),
                _ => true,
            });
            lemma_size_bound(section, mark_to_offset@);
        }
        match section.compiled_size(mark_to_offset) {
            Some(size) => Some((current + size, converged)),
            None => None,
        }
    }

    /// Appends the assembled bytes of section `i` under a settled layout.
    fn emit_section(&self, result: &mut Vec<u8>, i: usize, mark_to_offset: &Vec<u32>)
        requires
            self.wf(),
            i < self.sections().len(),
            refs_in_range(self.sections(), mark_to_offset@.len()),
            deltas_nonnegative(self.sections(), mark_to_offset@),
        ensures
            final(result)@ == old(result)@ + encode_section(
                self.sections()[i as int],
                self.code_bytes(),
                mark_to_offset@,
            ),
    {
        reveal(tiles);
        reveal(refs_in_range);
        reveal(marks_below);
        reveal(deltas_nonnegative);
            let ghost secs = self.sections();
        let section = to_section(self.sections[i]);
        proof {
            assert(section == secs[i as int]);
            lemma_span_end_mono(secs, (i + 1) as int, secs.len() as int);
            lemma_span_step(secs, self.code_bytes(), i as int);
            assert(match secs[i as int] {
                AsmSection::MarkRef(r) => ref_marks_in(r, mark_to_offset@.len() as int)
                    && ref_value(r, mark_to_offset@) >= 0,
                _ => true,
            });
        }
        match section {
            AsmSection::Mark(_) => {
                proof {
                    assert(old(result)@ + Seq::<u8>::empty() =~= old(result)@);
                }
            },
            AsmSection::Ops(span) | AsmSection::Data(span) => {
                self.copy_span(result, span);
            },
            AsmSection::MarkRef(mark_ref) => {
                emit_ref(result, mark_ref, mark_to_offset);
            },
        }
    }

    fn copy_span(&self, result: &mut Vec<u8>, span: Span)
        requires
            span.start <= span.end <= self.code_bytes().len(),
        ensures
            final(result)@ == old(result)@ + self.code_bytes().subrange(
                span.start as int,
                span.end as int,
            ),
    {
        reveal(tiles);
        reveal(refs_in_range);
        reveal(marks_below);
        reveal(deltas_nonnegative);
            let ghost before = result@;
        let ghost bytes = self.code_bytes();
        let mut b: usize = span.start as usize;
        while b < span.end as usize
            invariant
                span.start <= b <= span.end <= bytes.len(),
                bytes == self.code_bytes(),
                result@ == before + bytes.subrange(span.start as int, b as int),
            decreases span.end - b,
        {
            result.push(self.bytes[b]);
            proof {
                assert(bytes.subrange(span.start as int, b + 1) =~= bytes.subrange(
                    span.start as int,
                    b as int,
                ).push(bytes[b as int]));
            }
            b = b + 1;
        }
    }

    /// Assembles the sections into `result` and returns the mark layout.
    pub fn assemble(&self, result: &mut Vec<u8>, mark_id_count_hint: Option<usize>) -> (r: Result<
        Vec<u32>,
        AssembleError,
    >)
        requires
            self.wf(),
            self.code_bytes().len() + 5 * self.sections().len() <= u32::MAX,
            refs_fit(self.sections(), mark_id_count_hint),
            marks_below(self.sections(), u32::MAX as nat),
            assembly_settles(self.sections(), mark_id_count_hint),
        ensures
            assembly_outcome(self.sections(), mark_id_count_hint) matches Some(Err(i)) ==> r
                == Err::<Vec<u32>, AssembleError>(AssembleError::RefHasTooSmallSetSize(i as usize))
                && final(result)@ == old(result)@,
            assembly_outcome(self.sections(), mark_id_count_hint) matches Some(Ok(m)) ==> (
            r matches Ok(map) && map@ == m && final(result)@ == old(result)@ + emit(
                self.sections(),
                self.code_bytes(),
                m,
                self.sections().len() as int,
            ) && marks_placed(self.sections(), self.code_bytes(), m)),
    {
        let count = match mark_id_count_hint {
            Some(count) => count,
            None => ASSUMED_MARK_COUNT_WITHOUT_HINT,
        };
        let mut mark_to_offset: Vec<u32> = Vec::new();
        let mut k: usize = 0;
        while k < count
            invariant
                k <= count,
                mark_to_offset@ =~= Seq::new(k as nat, |_i: int| 0u32),
            decreases count - k,
        {
            mark_to_offset.push(0);
            k = k + 1;
        }
        proof {
            assert(mark_to_offset@ == start_map(mark_id_count_hint));
            lemma_marks_in_init(self.sections(), mark_to_offset@);
        }
        self.converge_mark_offsets(&mut mark_to_offset)?;
        let ghost secs = self.sections();
        let ghost bytes = self.code_bytes();
        let ghost map = mark_to_offset@;
        proof {
            lemma_converge_len(
                secs,
                bytes,
                init_prefix(secs, Seq::new(count as nat, |_i: int| 0u32), secs.len()).0,
                MAX_ASSEMBLER_CONVERGENCE_ITERS as nat,
            );
            lemma_init_prefix(secs, bytes, Seq::new(count as nat, |_i: int| 0u32), secs.len());
            lemma_settled_marks_placed(secs, bytes, map);
        }
        let n = self.sections.len();
        let mut i: usize = 0;
        while i < n
            invariant
                secs == self.sections(),
                bytes == self.code_bytes(),
                map == mark_to_offset@,
                n == secs.len(),
                tiles(secs, bytes),
                refs_in_range(secs, map.len()),
                deltas_nonnegative(secs, map),
                i <= n,
                result@ == old(result)@ + emit(secs, bytes, map, i as int),
            decreases n - i,
        {
            let ghost before = result@;
            self.emit_section(result, i, &mark_to_offset);
            i = i + 1;
        }
        Ok(mark_to_offset)
    }

    pub fn push_minimal_u64(&mut self, value: u64)
        requires
            old(self).wf(),
            old(self).code_bytes().len() + 33 < u32::MAX,
        ensures
            final(self).wf(),
            (final(self).sections(), final(self).code_bytes()) == with_ops(
                old(self).sections(),
                old(self).code_bytes(),
                minimal_push(value as nat),
            ),
    {
        reveal(tiles);
        reveal(refs_in_range);
        reveal(marks_below);
        reveal(deltas_nonnegative);
            let word = Word { limb3: 0, limb2: 0, limb1: 0, limb0: value };
        proof {
            crate::word::lemma_word_of_u64(value);
        }
        self.push_minimal_u256(word);
    }

    pub fn push_minimal_u32(&mut self, value: u32)
        requires
            old(self).wf(),
            old(self).code_bytes().len() + 33 < u32::MAX,
        ensures
            final(self).wf(),
            (final(self).sections(), final(self).code_bytes()) == with_ops(
                old(self).sections(),
                old(self).code_bytes(),
                minimal_push(value as nat),
            ),
    {
        reveal(tiles);
        reveal(refs_in_range);
        reveal(marks_below);
        reveal(deltas_nonnegative);
            self.push_minimal_u64(value as u64);
    }
}

proof fn lemma_span_end_prefix(secs: Seq<AsmSection>, extra: AsmSection, k: int)
    requires
        0 <= k <= secs.len(),
    ensures
        span_end(secs.push(extra), k) == span_end(secs, k),
    decreases k,
{
    reveal(tiles);
    reveal(refs_in_range);
    reveal(marks_below);
    reveal(deltas_nonnegative);
    if k > 0 {
        lemma_span_end_prefix(secs, extra, k - 1);
        assert(secs.push(extra)[k - 1] == secs[k - 1]);
    }
}

proof fn lemma_span_end_update(secs: Seq<AsmSection>, last: AsmSection, k: int)
    requires
        secs.len() > 0,
        0 <= k < secs.len(),
    ensures
        span_end(secs.update(secs.len() - 1, last), k) == span_end(secs, k),
    decreases k,
{
    reveal(tiles);
    reveal(refs_in_range);
    reveal(marks_below);
    reveal(deltas_nonnegative);
    if k > 0 {
        lemma_span_end_update(secs, last, k - 1);
        assert(secs.update(secs.len() - 1, last)[k - 1] == secs[k - 1]);
    }
}

proof fn lemma_tiles_push_nonspan(secs: Seq<AsmSection>, bytes: Seq<u8>, extra: AsmSection)
    requires
        tiles(secs, bytes),
        !(extra is Ops) && !(extra is Data),
    ensures
        tiles(secs.push(extra), bytes),
{
    reveal(tiles);
    reveal(refs_in_range);
    reveal(marks_below);
    reveal(deltas_nonnegative);
    let pushed = secs.push(extra);
    assert forall|i: int| 0 <= i < pushed.len() implies match #[trigger] pushed[i] {
        AsmSection::Ops(span) => span.start == span_end(pushed, i) && span.start <= span.end,
        AsmSection::Data(span) => span.start == span_end(pushed, i) && span.start <= span.end,
        _ => true,
    } by {
        if i < secs.len() {
            lemma_span_end_prefix(secs, extra, i);
            assert(pushed[i] == secs[i]);
        }
    }
    lemma_span_end_prefix(secs, extra, secs.len() as int);
}

} // verus!
