//! Big-endian numbers.

use vstd::prelude::*;

verus! {

/// `width` bytes, most significant first, that spell `value` modulo
/// 256 to the power `width`.
pub open spec fn bytes(value: int, width: nat) -> Seq<u8>
    decreases width,
{
    if width == 0 {
        seq![]
    } else {
        bytes(value / 256, (width - 1) as nat).push((value % 256) as u8)
    }
}

/// The number that `digits` spell, most significant byte first.
pub open spec fn number(digits: Seq<u8>) -> int
    decreases digits.len(),
{
    if digits.len() == 0 {
        0
    } else {
        number(digits.drop_last()) * 256 + digits.last()
    }
}

/// 256 to the power `width`.
pub open spec fn pow256(width: nat) -> int
    decreases width,
{
    if width == 0 {
        1
    } else {
        pow256((width - 1) as nat) * 256
    }
}

pub proof fn lemma_pow256_values()
    ensures
        pow256(1) == 0x100,
        pow256(2) == 0x1_0000,
        pow256(3) == 0x100_0000,
        pow256(4) == 0x1_0000_0000,
        pow256(5) == 0x100_0000_0000,
        pow256(6) == 0x1_0000_0000_0000,
        pow256(7) == 0x100_0000_0000_0000,
        pow256(8) == 0x1_0000_0000_0000_0000,
{
    reveal_with_fuel(pow256, 9);
}

pub proof fn lemma_bytes_len(value: int, width: nat)
    ensures
        bytes(value, width).len() == width,
    decreases width,
{
    if width > 0 {
        lemma_bytes_len(value / 256, (width - 1) as nat);
    }
}

pub proof fn lemma_four_bytes(value: int)
    ensures
        bytes(value, 4) == seq![
            (value / 0x100_0000 % 256) as u8,
            (value / 0x1_0000 % 256) as u8,
            (value / 0x100 % 256) as u8,
            (value % 256) as u8,
        ],
{
    reveal_with_fuel(bytes, 5);
    assert(value / 256 / 256 == value / 0x1_0000);
    assert(value / 0x1_0000 / 256 == value / 0x100_0000);
}

pub proof fn lemma_number_bound(digits: Seq<u8>)
    ensures
        0 <= number(digits) < pow256(digits.len()),
    decreases digits.len(),
{
    if digits.len() > 0 {
        lemma_number_bound(digits.drop_last());
    }
}

/// Reading back what was spelled gives the number, if it fits in the width.
pub proof fn lemma_round_trip(value: int, width: nat)
    requires
        0 <= value < pow256(width),
    ensures
        number(bytes(value, width)) == value,
    decreases width,
{
    if width > 0 {
        let shorter = (width - 1) as nat;
        lemma_round_trip(value / 256, shorter);
        assert(bytes(value, width).drop_last() == bytes(value / 256, shorter));
    }
}

/// Appends the low `width` bytes of `value`, most significant first.
pub fn push_be(out: &mut Vec<u8>, value: u64, width: u8)
    ensures
        final(out)@ == old(out)@ + bytes(value as int, width as nat),
    decreases width,
{
    if width > 0 {
        push_be(out, value / 256, width - 1);
        out.push((value % 256) as u8);
    }
}

/// The number that at most eight bytes spell, most significant first.
pub fn read_be(digits: &[u8]) -> (value: u64)
    requires
        digits.len() <= 8,
    ensures
        value == number(digits@),
{
    let mut value: u64 = 0;
    let mut i: usize = 0;
    while i < digits.len()
        invariant
            i <= digits.len() <= 8,
            value == number(digits@.take(i as int)),
        decreases digits.len() - i,
    {
        proof {
            let next = digits@.take(i + 1);
            lemma_number_bound(next);
            lemma_pow256_values();
            assert(next.drop_last() == digits@.take(i as int));
        }
        value = value * 256 + digits[i] as u64;
        i += 1;
    }
    assert(digits@.take(i as int) == digits@);
    value
}

} // verus!
