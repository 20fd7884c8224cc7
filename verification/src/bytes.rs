//! Big-endian integers, as they stand in a datagram.

use vstd::prelude::*;

verus! {

/// The four bytes of `x`, most significant first.
pub open spec fn be32(x: u32) -> Seq<u8> {
    seq![
        (x / 0x100_0000) as u8,
        (x / 0x1_0000 % 0x100) as u8,
        (x / 0x100 % 0x100) as u8,
        (x % 0x100) as u8,
    ]
}

/// The eight bytes of `x`, most significant first.
pub open spec fn be64(x: u64) -> Seq<u8> {
    be32((x / 0x1_0000_0000) as u32) + be32((x % 0x1_0000_0000) as u32)
}

/// The four bytes of `x`.
pub fn u32_to_be(x: u32) -> (r: [u8; 4])
    ensures
        r@ == be32(x),
        x == r@[0] * 0x100_0000 + r@[1] * 0x1_0000 + r@[2] * 0x100 + r@[3],
{
    let r = [
        (x / 0x100_0000) as u8,
        (x / 0x1_0000 % 0x100) as u8,
        (x / 0x100 % 0x100) as u8,
        (x % 0x100) as u8,
    ];
    proof {
        assert(r@ =~= be32(x));
    }
    r
}

/// The eight bytes of `x`.
pub fn u64_to_be(x: u64) -> (r: [u8; 8])
    ensures
        r@ == be64(x),
        x == r@[0] * 0x100_0000_0000_0000 + r@[1] * 0x1_0000_0000_0000 + r@[2] * 0x100_0000_0000
            + r@[3] * 0x1_0000_0000 + r@[4] * 0x100_0000 + r@[5] * 0x1_0000 + r@[6] * 0x100 + r@[7],
{
    let high = u32_to_be((x / 0x1_0000_0000) as u32);
    let low = u32_to_be((x % 0x1_0000_0000) as u32);
    let r = [high[0], high[1], high[2], high[3], low[0], low[1], low[2], low[3]];
    proof {
        assert(r@ =~= high@ + low@);
        law_be64_is_the_number(x);
    }
    r
}

/// The number whose bytes stand in `s` from `at` on.
pub fn u32_from_be(s: &[u8], at: usize) -> (x: u32)
    requires
        at + 4 <= s@.len(),
    ensures
        be32(x) == s@.subrange(at as int, at + 4),
        x == s@[at as int] * 0x100_0000 + s@[at + 1] * 0x1_0000 + s@[at + 2] * 0x100 + s@[at + 3],
{
    assert(at + 4 <= s.len());
    let x: u32 = s[at] as u32 * 0x100_0000 + s[at + 1] as u32 * 0x1_0000 + s[at + 2] as u32 * 0x100
        + s[at + 3] as u32;
    proof {
        lemma_from_digits(
            x,
            s[at as int] as u32,
            s[at + 1] as u32,
            s[at + 2] as u32,
            s[at + 3] as u32,
        );
        assert(be32(x) =~= s@.subrange(at as int, at + 4));
    }
    x
}

proof fn lemma_from_digits(x: u32, a: u32, b: u32, c: u32, d: u32)
    by (bit_vector)
    requires
        a < 0x100,
        b < 0x100,
        c < 0x100,
        d < 0x100,
        x == a * 0x100_0000 + b * 0x1_0000 + c * 0x100 + d,
    ensures
        x / 0x100_0000 == a,
        x / 0x1_0000 % 0x100 == b,
        x / 0x100 % 0x100 == c,
        x % 0x100 == d,
{
}

/// The number whose bytes stand in `s` from `at` on.
pub fn u64_from_be(s: &[u8], at: usize) -> (x: u64)
    requires
        at + 8 <= s@.len(),
    ensures
        be64(x) == s@.subrange(at as int, at + 8),
        x == s@[at as int] * 0x100_0000_0000_0000 + s@[at + 1] * 0x1_0000_0000_0000 + s@[at + 2]
            * 0x100_0000_0000 + s@[at + 3] * 0x1_0000_0000 + s@[at + 4] * 0x100_0000 + s@[at + 5]
            * 0x1_0000 + s@[at + 6] * 0x100 + s@[at + 7],
{
    assert(at + 8 <= s.len());
    let high = u32_from_be(s, at);
    let low = u32_from_be(s, at + 4);
    let x: u64 = high as u64 * 0x1_0000_0000 + low as u64;
    proof {
        assert(be64(x) =~= s@.subrange(at as int, at + 8));
    }
    x
}

/// The four bytes are the digits of the number to the base 256, the highest first.
pub proof fn law_be32_is_the_number(x: u32)
    ensures
        be32(x).len() == 4,
        x == be32(x)[0] * 0x100_0000 + be32(x)[1] * 0x1_0000 + be32(x)[2] * 0x100 + be32(x)[3],
{
}

/// The eight bytes are the digits of the number to the base 256, the highest first.
pub proof fn law_be64_is_the_number(x: u64)
    ensures
        be64(x).len() == 8,
        x == be64(x)[0] * 0x100_0000_0000_0000 + be64(x)[1] * 0x1_0000_0000_0000 + be64(x)[2]
            * 0x100_0000_0000 + be64(x)[3] * 0x1_0000_0000 + be64(x)[4] * 0x100_0000 + be64(x)[5]
            * 0x1_0000 + be64(x)[6] * 0x100 + be64(x)[7],
{
    let high: u32 = (x / 0x1_0000_0000) as u32;
    let low: u32 = (x % 0x1_0000_0000) as u32;
    law_be32_is_the_number(high);
    law_be32_is_the_number(low);
    assert(x == high * 0x1_0000_0000 + low);
}

/// Any four bytes are those of some number.
pub proof fn law_four_bytes_are_a_number(s: Seq<u8>) -> (x: u32)
    requires
        s.len() == 4,
    ensures
        be32(x) == s,
{
    let x: u32 = (s[0] * 0x100_0000 + s[1] * 0x1_0000 + s[2] * 0x100 + s[3]) as u32;
    lemma_from_digits(x, s[0] as u32, s[1] as u32, s[2] as u32, s[3] as u32);
    assert(be32(x) =~= s);
    x
}

/// Any eight bytes are those of some number.
pub proof fn law_eight_bytes_are_a_number(s: Seq<u8>) -> (x: u64)
    requires
        s.len() == 8,
    ensures
        be64(x) == s,
{
    let high: u32 = law_four_bytes_are_a_number(s.subrange(0, 4));
    let low: u32 = law_four_bytes_are_a_number(s.subrange(4, 8));
    let x: u64 = (high * 0x1_0000_0000 + low) as u64;
    assert(x / 0x1_0000_0000 == high && x % 0x1_0000_0000 == low);
    assert(be64(x) == be32(high) + be32(low));
    assert(s.subrange(0, 4) + s.subrange(4, 8) =~= s);
    x
}

/// Different numbers have different bytes.
pub proof fn law_be32_is_injective(x: u32, y: u32)
    ensures
        be32(x) == be32(y) <==> x == y,
{
    if be32(x) == be32(y) {
        law_be32_is_the_number(x);
        law_be32_is_the_number(y);
    }
}

/// Different numbers have different bytes.
pub proof fn law_be64_is_injective(x: u64, y: u64)
    ensures
        be64(x) == be64(y) <==> x == y,
{
    if be64(x) == be64(y) {
        assert(be64(x).subrange(0, 4) =~= be32((x / 0x1_0000_0000) as u32));
        assert(be64(y).subrange(0, 4) =~= be32((y / 0x1_0000_0000) as u32));
        assert(be64(x).subrange(4, 8) =~= be32((x % 0x1_0000_0000) as u32));
        assert(be64(y).subrange(4, 8) =~= be32((y % 0x1_0000_0000) as u32));
        law_be32_is_injective((x / 0x1_0000_0000) as u32, (y / 0x1_0000_0000) as u32);
        law_be32_is_injective((x % 0x1_0000_0000) as u32, (y % 0x1_0000_0000) as u32);
    }
}

} // verus!
