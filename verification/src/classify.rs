use vstd::prelude::*;
use vstd::slice::slice_subrange;
use vstd::string::*;

use crate::decode::DecodedBytecode;
use crate::icall::{lemma_block_count, CodeBlock, InternalCallInference};
use crate::ownership::Ownership;
use crate::text::{bytes_hex_text, dec_text, hex_min_text, joined, push_bytes_hex, push_dec, push_hex_min};

verus! {

/// A run of bytes that no function executes.
#[derive(Debug, PartialEq, Eq)]
pub struct DataSection {
    pub bytes: core::ops::Range<u32>,
}

impl Clone for DataSection {
    fn clone(&self) -> (r: DataSection)
        ensures
            r.bytes.start == self.bytes.start,
            r.bytes.end == self.bytes.end,
    {
        DataSection { bytes: self.bytes.start..self.bytes.end }
    }
}

/// The byte ranges of the non-code blocks among the first `k` blocks, with
/// ranges that touch merged into one.
pub open spec fn merged_data(blocks: Seq<CodeBlock>, code: Seq<bool>, k: int) -> Seq<(u32, u32)>
    decreases k,
{
    if k <= 0 {
        Seq::empty()
    } else {
        let prev = merged_data(blocks, code, k - 1);
        let blk = blocks[k - 1];
        if code[k - 1] {
            prev
        } else if prev.len() > 0 && prev.last().1 == blk.start_pc {
            prev.update(prev.len() - 1, (prev.last().0, blk.end_pc))
        } else {
            prev.push((blk.start_pc, blk.end_pc))
        }
    }
}

/// `sections` are `merged`, with the last one cut at `limit`.
pub open spec fn clipped_sections(merged: Seq<(u32, u32)>, limit: int, sections: Seq<DataSection>) -> bool {
    &&& sections.len() == merged.len()
    &&& forall|i: int|
        0 <= i < sections.len() ==> (#[trigger] sections[i]).bytes.start == merged[i].0 && sections[i].bytes.end == if i
            == sections.len() - 1 && merged[i].1 > limit {
            limit
        } else {
            merged[i].1 as int
        }
}

/// Which blocks are code, and the data between them.
#[derive(Debug, Clone)]
pub struct ClassifiedProgram {
    code: Vec<bool>,
    data: Vec<DataSection>,
}

/// One data section line: number, byte range and the bytes in hexadecimal.
pub open spec fn data_section_text(id: nat, section: DataSection, code: Seq<u8>) -> Seq<char> {
    ".d"@ + dec_text(id) + " [0x"@ + hex_min_text(section.bytes.start as nat) + ",0x"@ + hex_min_text(
        section.bytes.end as nat,
    ) + ") 0x"@ + bytes_hex_text(code.subrange(section.bytes.start as int, section.bytes.end as int))
        + "\n"@
}

/// The data sections of a classified program, or a note that there are none.
pub open spec fn classified_text(sections: Seq<DataSection>, code: Seq<u8>) -> Seq<char> {
    if sections.len() == 0 {
        "no data sections\n"@
    } else {
        joined(sections.len(), |i: nat| data_section_text(i, sections[i as int], code))
    }
}

impl ClassifiedProgram {
    pub closed spec fn code_flags(&self) -> Seq<bool> {
        self.code@
    }

    pub closed spec fn section_list(&self) -> Seq<DataSection> {
        self.data@
    }

    pub fn is_code(&self, block: u32) -> (r: bool)
        requires
            block < self.code_flags().len(),
        ensures
            r == self.code_flags()[block as int],
    {
        self.code[block as usize]
    }

    /// The data sections, one line each, with their bytes taken from `decoded`.
    pub fn display(&self, decoded: &DecodedBytecode) -> (r: String)
        requires
            forall|i: int|
                0 <= i < self.section_list().len() ==> #[trigger] self.section_list()[i].bytes.start
                    <= self.section_list()[i].bytes.end <= decoded.code().len(),
        ensures
            r@ == classified_text(self.section_list(), decoded.code()),
    {
        let mut text = String::new();
        if self.data.len() == 0 {
            text.append("no data sections\n");
            return text;
        }
        let ghost item = |i: nat| data_section_text(i, self.section_list()[i as int], decoded.code());
        let bytes = decoded.bytes();
        let mut i: usize = 0;
        while i < self.data.len()
            invariant
                i <= self.section_list().len(),
                bytes@ == decoded.code(),
                item == (|i: nat| data_section_text(i, self.section_list()[i as int], decoded.code())),
                forall|k: int|
                    0 <= k < self.section_list().len() ==> #[trigger] self.section_list()[k].bytes.start
                        <= self.section_list()[k].bytes.end <= decoded.code().len(),
                text@ == joined(i as nat, item),
            decreases self.section_list().len() - i,
        {
            let section = &self.data[i];
            let ghost before = text@;
            text.append(".d");
            push_dec(&mut text, i as u64);
            text.append(" [0x");
            push_hex_min(&mut text, section.bytes.start as u64);
            text.append(",0x");
            push_hex_min(&mut text, section.bytes.end as u64);
            text.append(") 0x");
            let data = slice_subrange(bytes, section.bytes.start as usize, section.bytes.end as usize);
            push_bytes_hex(&mut text, data);
            text.append("\n");
            assert(text@ =~= before + item(i as nat));
            i = i + 1;
        }
        text
    }

    pub fn data_sections(&self) -> (r: &Vec<DataSection>)
        ensures
            r@ == self.section_list(),
    {
        &self.data
    }
}

/// Splits the blocks into code, owned by some function, and data: the
/// unowned blocks, merged where their bytes touch, the last cut at the end
/// of the code.
pub fn classify(
    decoded: &DecodedBytecode,
    inference: &InternalCallInference,
    ownership: &Ownership,
) -> (r: ClassifiedProgram)
    requires
        inference.wf(),
        ownership.owner_sets().len() == inference.blocks_spec().block_list().len(),
        decoded.code().len() <= u32::MAX,
    ensures
        r.code_flags().len() == inference.blocks_spec().block_list().len(),
        forall|b: int|
            0 <= b < r.code_flags().len() ==> #[trigger] r.code_flags()[b] == !ownership.owner_sets()[b].is_empty(),
        clipped_sections(
            merged_data(inference.blocks_spec().block_list(), r.code_flags(), r.code_flags().len() as int),
            decoded.code().len() as int,
            r.section_list(),
        ),
{
    let blocks = inference.code_blocks().blocks();
    let nb = blocks.len();
    proof {
        lemma_block_count(inference.source(), inference.call_list(), inference.blocks_spec().block_list());
    }
    let mut code: Vec<bool> = Vec::new();
    let mut b: usize = 0;
    while b < nb
        invariant
            nb == blocks@.len(),
            nb <= u32::MAX,
            ownership.owner_sets().len() == nb,
            b <= nb,
            code@.len() == b,
            forall|k: int| 0 <= k < b ==> #[trigger] code@[k] == !ownership.owner_sets()[k].is_empty(),
        decreases nb - b,
    {
        code.push(ownership.is_code(b as u32));
        b = b + 1;
    }
    let mut data: Vec<DataSection> = Vec::new();
    let mut b: usize = 0;
    while b < nb
        invariant
            nb == blocks@.len(),
            code@.len() == nb,
            b <= nb,
            data@.len() == merged_data(blocks@, code@, b as int).len(),
            forall|i: int|
                0 <= i < data@.len() ==> (#[trigger] data@[i]).bytes.start == merged_data(blocks@, code@, b as int)[i].0
                    && data@[i].bytes.end == merged_data(blocks@, code@, b as int)[i].1,
        decreases nb - b,
    {
        let ghost prev = merged_data(blocks@, code@, b as int);
        if !code[b] {
            let block = &blocks[b];
            let len = data.len();
            if len > 0 && data[len - 1].bytes.end == block.start_pc {
                let start = data[len - 1].bytes.start;
                data.set(len - 1, DataSection { bytes: start..block.end_pc });
            } else {
                data.push(DataSection { bytes: block.start_pc..block.end_pc });
            }
        }
        proof {
            let next = merged_data(blocks@, code@, b + 1);
            assert(next == if code@[b as int] {
                prev
            } else if prev.len() > 0 && prev.last().1 == blocks@[b as int].start_pc {
                prev.update(prev.len() - 1, (prev.last().0, blocks@[b as int].end_pc))
            } else {
                prev.push((blocks@[b as int].start_pc, blocks@[b as int].end_pc))
            });
        }
        b = b + 1;
    }
    let limit = decoded.bytes().len() as u32;
    let len = data.len();
    if len > 0 {
        let start = data[len - 1].bytes.start;
        let end = data[len - 1].bytes.end;
        let clipped = if end < limit {
            end
        } else {
            limit
        };
        data.set(len - 1, DataSection { bytes: start..clipped });
    }
    ClassifiedProgram { code, data }
}

/// Every byte of a merged range belongs to some block among the first `k`
/// that is not code.
proof fn lemma_merged_in_data(blocks: Seq<CodeBlock>, code: Seq<bool>, k: int, i: int, x: int)
    requires
        0 <= k <= blocks.len(),
        k <= code.len(),
        0 <= i < merged_data(blocks, code, k).len(),
        merged_data(blocks, code, k)[i].0 <= x < merged_data(blocks, code, k)[i].1,
    ensures
        exists|b: int| 0 <= b < k && !code[b] && blocks[b].start_pc <= x < #[trigger] blocks[b].end_pc,
    decreases k,
{
    let prev = merged_data(blocks, code, k - 1);
    let cur = merged_data(blocks, code, k);
    let blk = blocks[k - 1];
    if code[k - 1] {
        lemma_merged_in_data(blocks, code, k - 1, i, x);
    } else if prev.len() > 0 && prev.last().1 == blk.start_pc {
        if i < prev.len() - 1 {
            assert(cur[i] == prev[i]);
            lemma_merged_in_data(blocks, code, k - 1, i, x);
        } else if x < blk.start_pc {
            assert(cur[i].0 == prev[i].0);
            lemma_merged_in_data(blocks, code, k - 1, i, x);
        } else {
            assert(blocks[k - 1].start_pc <= x < blocks[k - 1].end_pc);
        }
    } else {
        if i < prev.len() {
            assert(cur[i] == prev[i]);
            lemma_merged_in_data(blocks, code, k - 1, i, x);
        } else {
            assert(blocks[k - 1].start_pc <= x < blocks[k - 1].end_pc);
        }
    }
}

/// A data section holds only bytes of blocks that are not code: each byte
/// `x` of section `i` belongs to some block that no function owns, so a code
/// block between two data blocks keeps them apart.
pub proof fn lemma_data_sections_hold_data(
    blocks: Seq<CodeBlock>,
    code: Seq<bool>,
    limit: int,
    sections: Seq<DataSection>,
    i: int,
    x: int,
)
    requires
        code.len() == blocks.len(),
        clipped_sections(merged_data(blocks, code, blocks.len() as int), limit, sections),
        0 <= i < sections.len(),
        sections[i].bytes.start <= x < sections[i].bytes.end,
    ensures
        exists|b: int| 0 <= b < blocks.len() && !code[b] && blocks[b].start_pc <= x < #[trigger] blocks[b].end_pc,
{
    let merged = merged_data(blocks, code, blocks.len() as int);
    assert(sections[i].bytes.start == merged[i].0);
    assert(merged[i].0 <= x < merged[i].1);
    lemma_merged_in_data(blocks, code, blocks.len() as int, i, x);
}

} // verus!
