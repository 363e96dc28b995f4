//! Little-endian encoding of unsigned numbers, of any width in bytes.
use vstd::arithmetic::div_mod::lemma_div_denominator;
use vstd::arithmetic::power::{lemma_pow_positive, pow};
use vstd::prelude::*;

verus! {

/// The low `width` bytes of `n`, least significant byte first.
pub open spec fn le_bytes(n: nat, width: nat) -> Seq<u8>
    decreases width,
{
    if width == 0 {
        Seq::empty()
    } else {
        seq![(n % 256) as u8] + le_bytes(n / 256, (width - 1) as nat)
    }
}

/// The number whose little-endian bytes are `s`.
pub open spec fn le_value(s: Seq<u8>) -> nat
    decreases s.len(),
{
    if s.len() == 0 {
        0
    } else {
        s[0] as nat + 256 * le_value(s.drop_first())
    }
}

/// How many numbers `width` bytes can hold.
pub open spec fn le_capacity(width: nat) -> nat
    decreases width,
{
    if width == 0 {
        1
    } else {
        256 * le_capacity((width - 1) as nat)
    }
}

pub proof fn lemma_le_len(n: nat, width: nat)
    ensures
        le_bytes(n, width).len() == width,
    decreases width,
{
    if width > 0 {
        lemma_le_len(n / 256, (width - 1) as nat);
    }
}

/// Reading back `width` bytes gives the number that was written, whenever it fits.
pub proof fn law_le_round_trip(n: nat, width: nat)
    requires
        n < le_capacity(width),
    ensures
        le_value(le_bytes(n, width)) == n,
    decreases width,
{
    if width > 0 {
        let rest = le_bytes(n / 256, (width - 1) as nat);
        law_le_round_trip(n / 256, (width - 1) as nat);
        lemma_le_len(n, width);
        assert(le_bytes(n, width).drop_first() =~= rest);
    }
}

/// Each byte is a digit of the number in base 256, the lowest first: byte `i` is the one of weight
/// 256 to the power `i`.
pub proof fn law_le_bytes_are_digits(n: nat, width: nat, i: nat)
    requires
        i < width,
    ensures
        le_bytes(n, width).len() == width,
        le_bytes(n, width)[i as int] == (n as int / pow(256, i)) % 256,
    decreases i,
{
    lemma_le_len(n, width);
    lemma_le_len(n / 256, (width - 1) as nat);
    reveal(pow);
    if i > 0 {
        let j = (i - 1) as nat;
        law_le_bytes_are_digits(n / 256, (width - 1) as nat, j);
        assert(le_bytes(n, width)[i as int] == le_bytes(n / 256, (width - 1) as nat)[j as int]);
        lemma_pow_positive(256, j);
        lemma_div_denominator(n as int, 256, pow(256, j));
    }
}

/// Four bytes are read as the sum of the bytes, each with its weight.
pub proof fn law_le_value_of_four(s: Seq<u8>)
    requires
        s.len() == 4,
    ensures
        le_value(s) == s[0] + 0x100 * s[1] + 0x1_0000 * s[2] + 0x100_0000 * s[3],
{
    reveal_with_fuel(le_value, 5);
    assert(s.drop_first()[0] == s[1]);
    assert(s.drop_first().drop_first()[0] == s[2]);
    assert(s.drop_first().drop_first().drop_first()[0] == s[3]);
}

/// Two numbers that fit are equal when their bytes are.
pub proof fn law_le_injective(a: nat, b: nat, width: nat)
    requires
        a < le_capacity(width),
        b < le_capacity(width),
        le_bytes(a, width) == le_bytes(b, width),
    ensures
        a == b,
{
    law_le_round_trip(a, width);
    law_le_round_trip(b, width);
}

pub proof fn lemma_le_capacities()
    ensures
        le_capacity(1) == 0x100,
        le_capacity(2) == 0x1_0000,
        le_capacity(4) == 0x1_0000_0000,
        le_capacity(8) == 0x1_0000_0000_0000_0000,
        le_capacity(16) == 0x1_0000_0000_0000_0000_0000_0000_0000_0000nat,
{
    reveal_with_fuel(le_capacity, 17);
}

/// Appends the low `width` bytes of `value`; bytes past the eighth are zero.
pub fn put_le(out: &mut Vec<u8>, value: u64, width: usize)
    ensures
        final(out)@ == old(out)@ + le_bytes(value as nat, width as nat),
        final(out)@.len() == old(out)@.len() + width,
        forall|i: int|
            0 <= i < old(out)@.len() ==> #[trigger] final(out)@[i] == old(out)@[i],
        forall|i: int|
            0 <= i < width ==> #[trigger] final(out)@[old(out)@.len() + i] == (value as int / pow(
                256,
                i as nat,
            )) % 256,
{
    let mut rest: u64 = value;
    let mut left: usize = width;
    assert(out@ + le_bytes(rest as nat, left as nat) =~= old(out)@ + le_bytes(
        value as nat,
        width as nat,
    ));
    while left > 0
        invariant
            left <= width,
            out@ + le_bytes(rest as nat, left as nat) == old(out)@ + le_bytes(
                value as nat,
                width as nat,
            ),
        decreases left,
    {
        let ghost before = out@;
        let ghost tail = le_bytes((rest / 256) as nat, (left - 1) as nat);
        out.push((rest % 256) as u8);
        assert(out@ + tail =~= before + (seq![(rest as nat % 256) as u8] + tail));
        rest = rest / 256;
        left = left - 1;
    }
    assert(out@ + le_bytes(rest as nat, 0) =~= out@);
    proof {
        lemma_le_len(value as nat, width as nat);
        assert forall|i: int| 0 <= i < width implies #[trigger] out@[old(out)@.len() + i] == (
        value as int / pow(256, i as nat)) % 256 by {
            law_le_bytes_are_digits(value as nat, width as nat, i as nat);
        }
    }
}

/// Reads the number that the first four bytes hold.
pub fn get_le32(bytes: &[u8]) -> (value: u32)
    requires
        bytes@.len() >= 4,
    ensures
        value == le_value(bytes@.subrange(0, 4)),
        value == bytes@[0] + 0x100 * bytes@[1] + 0x1_0000 * bytes@[2] + 0x100_0000 * bytes@[3],
{
    proof {
        let s = bytes@.subrange(0, 4);
        reveal_with_fuel(le_value, 5);
        assert(s.drop_first()[0] == s[1]);
        assert(s.drop_first().drop_first()[0] == s[2]);
        assert(s.drop_first().drop_first().drop_first()[0] == s[3]);
    }
    let b0 = bytes[0] as u32;
    let b1 = bytes[1] as u32;
    let b2 = bytes[2] as u32;
    let b3 = bytes[3] as u32;
    b0 + 256 * (b1 + 256 * (b2 + 256 * b3))
}

} // verus!
