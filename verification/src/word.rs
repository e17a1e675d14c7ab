use vstd::prelude::*;

use crate::decode::{be_value, pow256};

verus! {

/// A 256-bit EVM word as four 64-bit limbs, most significant first.
#[derive(Debug, Clone, Copy, PartialEq, Eq, Hash, Structural)]
pub struct Word {
    pub limb3: u64,
    pub limb2: u64,
    pub limb1: u64,
    pub limb0: u64,
}

/// The number a word stands for.
pub open spec fn word_value(w: Word) -> int {
    ((w.limb3 as nat * pow256(8) + w.limb2 as nat) * pow256(8) + w.limb1 as nat) * pow256(8)
        + w.limb0 as nat
}

pub proof fn lemma_be_value_append(a: Seq<u8>, b: Seq<u8>)
    ensures
        be_value(a + b) == be_value(a) * pow256(b.len() as int) + be_value(b),
    decreases b.len(),
{
    if b.len() == 0 {
        assert(a + b =~= a);
    } else {
        lemma_be_value_append(a, b.drop_last());
        assert((a + b).drop_last() =~= a + b.drop_last());
        assert(pow256(b.len() as int) == 256 * pow256(b.len() - 1));
        assert(be_value(a) * pow256(b.len() as int) == (be_value(a) * pow256(b.len() - 1)) * 256)
            by (nonlinear_arith)
            requires
                pow256(b.len() as int) == 256 * pow256(b.len() - 1),
        ;
    }
}

proof fn lemma_be_value_bound(s: Seq<u8>)
    ensures
        be_value(s) < pow256(s.len() as int),
    decreases s.len(),
{
    if s.len() > 0 {
        lemma_be_value_bound(s.drop_last());
        assert(be_value(s.drop_last()) * 256 + s.last() < pow256(s.len() as int)) by (nonlinear_arith)
            requires
                be_value(s.drop_last()) < pow256(s.len() - 1),
                pow256(s.len() as int) == 256 * pow256(s.len() - 1),
                s.last() < 256,
        ;
    }
}

proof fn lemma_pow256_8()
    ensures
        pow256(8) == 0x1_0000_0000_0000_0000,
{
    reveal_with_fuel(pow256, 9);
}

/// Reads eight big-endian bytes starting at `start`.
fn be_u64(bytes: &[u8; 32], start: usize) -> (r: u64)
    requires
        start + 8 <= 32,
    ensures
        r == be_value(bytes@.subrange(start as int, start + 8)),
{
    let mut value: u64 = 0;
    let mut k: usize = 0;
    proof {
        lemma_pow256_8();
    }
    while k < 8
        invariant
            start + 8 <= 32,
            k <= 8,
            value == be_value(bytes@.subrange(start as int, start + k)),
            pow256(8) == 0x1_0000_0000_0000_0000,
        decreases 8 - k,
    {
        let ghost prefix = bytes@.subrange(start as int, start + k);
        proof {
            assert(bytes@.subrange(start as int, start + k + 1).drop_last() =~= prefix);
            lemma_be_value_bound(prefix);
            lemma_pow_mono(k as int, 7);
            assert(value * 256 + bytes@[start + k] < 0x1_0000_0000_0000_0000) by (nonlinear_arith)
                requires
                    value < pow256(k as int),
                    pow256(k as int) <= pow256(7),
                    pow256(8) == 256 * pow256(7),
                    pow256(8) == 0x1_0000_0000_0000_0000,
                    bytes@[start + k] < 256,
            ;
        }
        value = value * 256 + bytes[start + k] as u64;
        k = k + 1;
    }
    value
}

proof fn lemma_pow_mono(a: int, b: int)
    requires
        0 <= a <= b,
    ensures
        pow256(a) <= pow256(b),
    decreases b - a,
{
    if a < b {
        lemma_pow_mono(a, b - 1);
        crate::decode::lemma_pow256_pos(b - 1);
        assert(pow256(b) == 256 * pow256(b - 1));
    }
}

impl Word {
    /// The word that big-endian bytes encode.
    pub fn from_be_bytes(bytes: [u8; 32]) -> (r: Word)
        ensures
            word_value(r) == be_value(bytes@),
    {
        let r = Word {
            limb3: be_u64(&bytes, 0),
            limb2: be_u64(&bytes, 8),
            limb1: be_u64(&bytes, 16),
            limb0: be_u64(&bytes, 24),
        };
        proof {
            let s = bytes@;
            let a = s.subrange(0, 8);
            let b = s.subrange(8, 16);
            let c = s.subrange(16, 24);
            let d = s.subrange(24, 32);
            lemma_be_value_append(a, b);
            lemma_be_value_append(a + b, c);
            lemma_be_value_append(a + b + c, d);
            assert(s =~= a + b + c + d);
        }
        r
    }

    /// The word that holds a `u32`.
    pub fn from_u32(value: u32) -> (r: Word)
        ensures
            word_value(r) == value,
            r == (Word { limb3: 0, limb2: 0, limb1: 0, limb0: value as u64 }),
    {
        Word { limb3: 0, limb2: 0, limb1: 0, limb0: value as u64 }
    }

    /// Zero.
    pub fn zero() -> (r: Word)
        ensures
            word_value(r) == 0,
            r == (Word { limb3: 0, limb2: 0, limb1: 0, limb0: 0 }),
    {
        Word { limb3: 0, limb2: 0, limb1: 0, limb0: 0 }
    }
}


/// Writes `limb` as eight big-endian bytes at `base`.
fn put_limb(out: &mut [u8; 32], base: usize, limb: u64)
    requires
        base + 8 <= 32,
    ensures
        be_value(final(out)@.subrange(base as int, base + 8)) == limb,
        forall|i: int|
            0 <= i < 32 && !(base <= i < base + 8) ==> #[trigger] final(out)@[i] == old(out)@[i],
{
    let mut x: u64 = limb;
    let mut j: usize = 0;
    proof {
        assert(out@.subrange(base + 8, base + 8) =~= Seq::<u8>::empty());
        lemma_pow256_8();
    }
    while j < 8
        invariant
            base + 8 <= 32,
            j <= 8,
            limb == x * pow256(j as int) + be_value(out@.subrange(base + 8 - j, base + 8)),
            x * pow256(j as int) <= limb,
            pow256(8) == 0x1_0000_0000_0000_0000,
            forall|i: int|
                0 <= i < 32 && !(base + 8 - j <= i < base + 8) ==> #[trigger] out@[i] == old(
                    out,
                )@[i],
        decreases 8 - j,
    {
        let ghost old_suffix = out@.subrange(base + 8 - j, base + 8);
        let b = (x % 256) as u8;
        let ghost xi = x as int;
        out[base + 7 - j] = b;
        x = x / 256;
        proof {
            let new_suffix = out@.subrange(base + 8 - (j + 1), base + 8);
            assert(new_suffix =~= seq![b] + old_suffix);
            lemma_be_value_append(seq![b], old_suffix);
            assert(be_value(seq![b]) == b) by {
                assert(seq![b].drop_last() =~= Seq::<u8>::empty());
                reveal_with_fuel(be_value, 2);
            }
            assert(old_suffix.len() == j);
            crate::decode::lemma_pow256_pos(j as int);
            assert(pow256(j + 1) == 256 * pow256(j as int));
            assert(xi * pow256(j as int) == (xi / 256) * pow256(j + 1) + (xi % 256) * pow256(
                j as int,
            )) by (nonlinear_arith)
                requires
                    pow256(j + 1) == 256 * pow256(j as int),
                    xi >= 0,
            ;
        }
        j = j + 1;
    }
    proof {
        assert(x == 0) by (nonlinear_arith)
            requires
                x * pow256(8) <= limb,
                pow256(8) == 0x1_0000_0000_0000_0000,
                limb < 0x1_0000_0000_0000_0000,
                x >= 0,
        ;
    }
}

impl Word {
    /// The 32 big-endian bytes of the word.
    pub fn to_be_bytes(self) -> (r: [u8; 32])
        ensures
            be_value(r@) == word_value(self),
    {
        let mut out = [0u8; 32];
        put_limb(&mut out, 0, self.limb3);
        let ghost s0 = out@;
        put_limb(&mut out, 8, self.limb2);
        let ghost s1 = out@;
        put_limb(&mut out, 16, self.limb1);
        let ghost s2 = out@;
        put_limb(&mut out, 24, self.limb0);
        proof {
            assert(out@.subrange(0, 8) =~= s0.subrange(0, 8));
            assert(out@.subrange(8, 16) =~= s1.subrange(8, 16));
            assert(out@.subrange(16, 24) =~= s2.subrange(16, 24));
            lemma_pow256_8();
            let s = out@;
            let a = s.subrange(0, 8);
            let b = s.subrange(8, 16);
            let c = s.subrange(16, 24);
            let d = s.subrange(24, 32);
            lemma_be_value_append(a, b);
            lemma_be_value_append(a + b, c);
            lemma_be_value_append(a + b + c, d);
            assert(s =~= a + b + c + d);
        }
        out
    }
}

/// A word with only its lowest limb set stands for that limb.
pub proof fn lemma_word_of_u64(v: u64)
    ensures
        word_value(Word { limb3: 0, limb2: 0, limb1: 0, limb0: v }) == v,
{
}

/// Words are equal exactly when their values are.
pub proof fn lemma_word_value_injective(a: Word, b: Word)
    ensures
        word_value(a) == word_value(b) <==> a == b,
{
    lemma_pow256_8();
    let p: int = 0x1_0000_0000_0000_0000;
    if word_value(a) == word_value(b) {
        assert(a.limb0 == b.limb0 && a.limb1 == b.limb1 && a.limb2 == b.limb2 && a.limb3 == b.limb3)
            by (nonlinear_arith)
            requires
                ((a.limb3 * p + a.limb2) * p + a.limb1) * p + a.limb0 == ((b.limb3 * p + b.limb2) * p
                    + b.limb1) * p + b.limb0,
                p == 0x1_0000_0000_0000_0000,
                0 <= a.limb0 < p,
                0 <= a.limb1 < p,
                0 <= a.limb2 < p,
                0 <= a.limb3 < p,
                0 <= b.limb0 < p,
                0 <= b.limb1 < p,
                0 <= b.limb2 < p,
                0 <= b.limb3 < p,
        ;
    }
}

} // verus!
