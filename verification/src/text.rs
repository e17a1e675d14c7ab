//! Decimal and hexadecimal digits, and the writers that build text listings.
use vstd::prelude::*;
use vstd::string::*;
use vstd::arithmetic::div_mod::lemma_fundamental_div_mod_converse;

use crate::decode::pow256;
use crate::word::{word_value, Word};

verus! {

/// A character as a one-character string.
#[verifier::external_body]
pub(crate) fn char_string(c: char) -> (r: String)
    ensures
        r@ == seq![c],
{
    c.to_string()
}

/// The digit for a value below 16: `0`-`9`, then `a`-`f` or `A`-`F`.
pub open spec fn digit_char(d: nat, upper: bool) -> char {
    if d < 10 {
        (48 + d) as char
    } else if upper {
        (55 + d) as char
    } else {
        (87 + d) as char
    }
}

/// The decimal digits of `n`, most significant first, with no leading zero.
pub open spec fn dec_text(n: nat) -> Seq<char>
    decreases n,
{
    if n < 10 {
        seq![digit_char(n, false)]
    } else {
        dec_text(n / 10) + seq![digit_char(n % 10, false)]
    }
}

/// The last `width` hexadecimal digits of `n`, most significant first.
pub open spec fn hex_text(n: nat, width: nat, upper: bool) -> Seq<char>
    decreases width,
{
    if width == 0 {
        Seq::empty()
    } else {
        hex_text(n / 16, (width - 1) as nat, upper) + seq![digit_char(n % 16, upper)]
    }
}

/// The hexadecimal digits of `n`, lower case, with no leading zero (`0` for zero).
pub open spec fn hex_min_text(n: nat) -> Seq<char>
    decreases n,
{
    if n < 16 {
        seq![digit_char(n, false)]
    } else {
        hex_min_text(n / 16) + seq![digit_char(n % 16, false)]
    }
}

/// A half-open PC range, `[0x<start>,0x<end>)`.
pub open spec fn pc_range_text(start: u32, end: u32) -> Seq<char> {
    "[0x"@ + hex_min_text(start as nat) + ",0x"@ + hex_min_text(end as nat) + ")"@
}

/// `16` to the power `k`.
pub open spec fn pow16(k: nat) -> nat
    decreases k,
{
    if k == 0 {
        1
    } else {
        16 * pow16((k - 1) as nat)
    }
}

/// Dividing `a * 16^k + b` by 16 splits off the last digit of `b`.
proof fn lemma_split_digit(a: nat, b: nat, k: nat)
    requires
        k > 0,
        b < pow16(k),
    ensures
        (a * pow16(k) + b) / 16 == a * pow16((k - 1) as nat) + b / 16,
        (a * pow16(k) + b) % 16 == b % 16,
        b / 16 < pow16((k - 1) as nat),
{
    let p = pow16((k - 1) as nat);
    assert(a * pow16(k) == 16 * (a * p)) by (nonlinear_arith)
        requires
            pow16(k) == 16 * p,
    ;
    let n = a * pow16(k) + b;
    assert(b == 16 * (b / 16) + b % 16);
    lemma_fundamental_div_mod_converse(n as int, 16, (a * p + b / 16) as int, (b % 16) as int);
    assert(b / 16 < p);
}

/// The digits of `a * 16^k + b`, for `b` below `16^k`, are those of `a`
/// followed by the last `k` digits of `b`.
pub proof fn lemma_hex_min_split(a: nat, b: nat, k: nat)
    requires
        a > 0,
        b < pow16(k),
    ensures
        hex_min_text(a * pow16(k) + b) == hex_min_text(a) + hex_text(b, k, false),
    decreases k,
{
    if k == 0 {
        assert(b == 0);
        assert(a * pow16(k) + b == a);
        assert(hex_min_text(a) + hex_text(b, k, false) =~= hex_min_text(a));
    } else {
        lemma_split_digit(a, b, k);
        lemma_hex_min_split(a, b / 16, (k - 1) as nat);
        lemma_pow16_positive((k - 1) as nat);
        assert(a * pow16(k) >= pow16(k)) by (nonlinear_arith)
            requires
                a > 0,
                pow16(k) > 0,
        ;
        assert(pow16(k) >= 16) by {
            lemma_pow16_positive((k - 1) as nat);
        }
        assert(hex_min_text(a * pow16(k) + b) =~= hex_min_text(a) + hex_text(b, k, false));
    }
}

proof fn lemma_pow16_positive(k: nat)
    ensures
        pow16(k) > 0,
    decreases k,
{
    if k > 0 {
        lemma_pow16_positive((k - 1) as nat);
    }
}

/// The last `j + k` digits of `a * 16^k + b`, for `b` below `16^k`, are the
/// last `j` digits of `a` followed by the last `k` digits of `b`.
pub proof fn lemma_hex_text_split(a: nat, b: nat, j: nat, k: nat, upper: bool)
    requires
        b < pow16(k),
    ensures
        hex_text(a * pow16(k) + b, j + k, upper) == hex_text(a, j, upper) + hex_text(b, k, upper),
    decreases k,
{
    if k == 0 {
        assert(b == 0);
        assert(a * pow16(k) + b == a);
        assert(hex_text(a, j, upper) + hex_text(b, k, upper) =~= hex_text(a, j, upper));
    } else {
        lemma_split_digit(a, b, k);
        lemma_hex_text_split(a, b / 16, j, (k - 1) as nat, upper);
        assert((j + k - 1) as nat == j + (k - 1) as nat);
        assert(hex_text(a * pow16(k) + b, j + k, upper) =~= hex_text(a, j, upper) + hex_text(b, k, upper));
    }
}

/// The texts `item(0)`, ..., `item(n - 1)`, one after the other.
pub open spec fn joined(n: nat, item: spec_fn(nat) -> Seq<char>) -> Seq<char>
    decreases n,
{
    if n == 0 {
        Seq::empty()
    } else {
        joined((n - 1) as nat, item) + item((n - 1) as nat)
    }
}

/// Each byte as two lower-case hexadecimal digits.
pub open spec fn bytes_hex_text(bytes: Seq<u8>) -> Seq<char>
    decreases bytes.len(),
{
    if bytes.len() == 0 {
        Seq::empty()
    } else {
        bytes_hex_text(bytes.drop_last()) + hex_text(bytes.last() as nat, 2, false)
    }
}

fn digit(d: u8, upper: bool) -> (c: char)
    requires
        d < 16,
    ensures
        c == digit_char(d as nat, upper),
{
    if d < 10 {
        (48 + d) as char
    } else if upper {
        (55 + d) as char
    } else {
        (87 + d) as char
    }
}

/// Appends one character.
pub(crate) fn push_char(s: &mut String, c: char)
    ensures
        final(s)@ == old(s)@.push(c),
{
    let one = char_string(c);
    s.append(one.as_str());
    assert(s@ =~= old(s)@.push(c));
}

/// Appends `n` in decimal.
pub(crate) fn push_dec(s: &mut String, n: u64)
    ensures
        final(s)@ == old(s)@ + dec_text(n as nat),
    decreases n,
{
    if n >= 10 {
        push_dec(s, n / 10);
    }
    push_char(s, digit((n % 10) as u8, false));
    assert(s@ =~= old(s)@ + dec_text(n as nat));
}

/// Appends `n` in hexadecimal with no leading zero.
pub(crate) fn push_hex_min(s: &mut String, n: u64)
    ensures
        final(s)@ == old(s)@ + hex_min_text(n as nat),
    decreases n,
{
    if n >= 16 {
        push_hex_min(s, n / 16);
    }
    push_char(s, digit((n % 16) as u8, false));
    assert(s@ =~= old(s)@ + hex_min_text(n as nat));
}

/// Appends a half-open PC range.
pub(crate) fn push_pc_range(s: &mut String, start: u32, end: u32)
    ensures
        final(s)@ == old(s)@ + pc_range_text(start, end),
{
    s.append("[0x");
    push_hex_min(s, start as u64);
    s.append(",0x");
    push_hex_min(s, end as u64);
    s.append(")");
    assert(s@ =~= old(s)@ + pc_range_text(start, end));
}

/// Appends the value of a word in hexadecimal with no leading zero.
pub(crate) fn push_word_hex(s: &mut String, w: Word)
    ensures
        final(s)@ == old(s)@ + hex_min_text(word_value(w) as nat),
{
    let ghost p: nat = pow16(16);
    proof {
        reveal_with_fuel(pow16, 49);
        reveal_with_fuel(pow256, 9);
        assert(pow16(16) == 0x1_0000_0000_0000_0000nat);
        assert(pow256(8) == 0x1_0000_0000_0000_0000int);
        assert(pow16(32) == 0x1_0000_0000_0000_0000_0000_0000_0000_0000nat);
        assert(pow16(48) == 0x1_0000_0000_0000_0000_0000_0000_0000_0000_0000_0000_0000_0000nat);
    }
    let ghost l3 = w.limb3 as nat;
    let ghost l2 = w.limb2 as nat;
    let ghost l1 = w.limb1 as nat;
    let ghost l0 = w.limb0 as nat;
    let ghost low2 = l1 * p + l0;
    let ghost low3 = l2 * pow16(32) + low2;
    proof {
        assert(word_value(w) == l3 * pow16(48) + low3);
        assert(low2 < pow16(32));
        assert(low3 < pow16(48));
        lemma_hex_text_split(l1, l0, 16, 16, false);
        lemma_hex_text_split(l2, low2, 16, 32, false);
    }
    if w.limb3 != 0 {
        push_hex_min(s, w.limb3);
        push_hex(s, w.limb2, 16, false);
        push_hex(s, w.limb1, 16, false);
        push_hex(s, w.limb0, 16, false);
        proof {
            lemma_hex_min_split(l3, low3, 48);
        }
    } else if w.limb2 != 0 {
        push_hex_min(s, w.limb2);
        push_hex(s, w.limb1, 16, false);
        push_hex(s, w.limb0, 16, false);
        proof {
            lemma_hex_min_split(l2, low2, 32);
        }
    } else if w.limb1 != 0 {
        push_hex_min(s, w.limb1);
        push_hex(s, w.limb0, 16, false);
        proof {
            lemma_hex_min_split(l1, l0, 16);
        }
    } else {
        push_hex_min(s, w.limb0);
    }
    assert(s@ =~= old(s)@ + hex_min_text(word_value(w) as nat));
}

/// Appends the last `width` hexadecimal digits of `n`.
pub(crate) fn push_hex(s: &mut String, n: u64, width: u8, upper: bool)
    ensures
        final(s)@ == old(s)@ + hex_text(n as nat, width as nat, upper),
    decreases width,
{
    if width > 0 {
        push_hex(s, n / 16, width - 1, upper);
        push_char(s, digit((n % 16) as u8, upper));
        assert(s@ =~= old(s)@ + hex_text(n as nat, width as nat, upper));
    } else {
        assert(s@ =~= old(s)@ + hex_text(n as nat, width as nat, upper));
    }
}

/// Appends each byte as two lower-case hexadecimal digits.
pub(crate) fn push_bytes_hex(s: &mut String, bytes: &[u8])
    ensures
        final(s)@ == old(s)@ + bytes_hex_text(bytes@),
{
    let ghost start = s@;
    let mut i: usize = 0;
    while i < bytes.len()
        invariant
            i <= bytes@.len(),
            s@ == start + bytes_hex_text(bytes@.take(i as int)),
        decreases bytes@.len() - i,
    {
        push_hex(s, bytes[i] as u64, 2, false);
        proof {
            assert(bytes@.take(i as int + 1).drop_last() =~= bytes@.take(i as int));
        }
        i = i + 1;
        assert(s@ =~= start + bytes_hex_text(bytes@.take(i as int)));
    }
    assert(bytes@.take(i as int) =~= bytes@);
}

} // verus!
