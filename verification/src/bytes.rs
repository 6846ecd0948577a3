//! Integers as bytes: big-endian 32-bit ones, the length and checksum encoding
//! shared by the log file and the network frames, and little-endian 64-bit ones,
//! which the state file holds.

use vstd::prelude::*;

verus! {

/// The four bytes of `x`, most significant first.
pub open spec fn be_bytes(x: u32) -> Seq<u8> {
    seq![
        (x / 0x100_0000) as u8,
        (x / 0x1_0000 % 0x100) as u8,
        (x / 0x100 % 0x100) as u8,
        (x % 0x100) as u8,
    ]
}

/// The number that the first four bytes of `b` stand for, most significant first.
pub open spec fn be_value(b: Seq<u8>) -> u32 {
    (b[0] * 0x100_0000 + b[1] * 0x1_0000 + b[2] * 0x100 + b[3]) as u32
}

/// The eight bytes of `x`, least significant first.
#[verifier::opaque]
pub open spec fn le_bytes(x: u64) -> Seq<u8> {
    seq![
        (x % 0x100) as u8,
        (x / 0x100 % 0x100) as u8,
        (x / 0x1_0000 % 0x100) as u8,
        (x / 0x100_0000 % 0x100) as u8,
        (x / 0x1_0000_0000 % 0x100) as u8,
        (x / 0x100_0000_0000 % 0x100) as u8,
        (x / 0x1_0000_0000_0000 % 0x100) as u8,
        (x / 0x100_0000_0000_0000) as u8,
    ]
}

/// There are eight of them.
pub proof fn lemma_le_bytes_len(x: u64)
    ensures
        le_bytes(x).len() == 8,
{
    reveal(le_bytes);
}

/// Different numbers have different bytes.
pub proof fn lemma_le_bytes_injective(x: u64, y: u64)
    requires
        le_bytes(x) == le_bytes(y),
    ensures
        x == y,
{
    reveal(le_bytes);
    let (p, q) = (le_bytes(x), le_bytes(y));
    assert(p[0] == q[0] && p[1] == q[1] && p[2] == q[2] && p[3] == q[3]);
    assert(p[4] == q[4] && p[5] == q[5] && p[6] == q[6] && p[7] == q[7]);
    assert(x == y) by (bit_vector)
        requires
            x % 0x100 == y % 0x100,
            x / 0x100 % 0x100 == y / 0x100 % 0x100,
            x / 0x1_0000 % 0x100 == y / 0x1_0000 % 0x100,
            x / 0x100_0000 % 0x100 == y / 0x100_0000 % 0x100,
            x / 0x1_0000_0000 % 0x100 == y / 0x1_0000_0000 % 0x100,
            x / 0x100_0000_0000 % 0x100 == y / 0x100_0000_0000 % 0x100,
            x / 0x1_0000_0000_0000 % 0x100 == y / 0x1_0000_0000_0000 % 0x100,
            x / 0x100_0000_0000_0000 == y / 0x100_0000_0000_0000,
    ;
}

/// Reading back the bytes of a number gives the number.
pub proof fn lemma_be_round_trip(x: u32)
    ensures
        be_bytes(x).len() == 4,
        be_value(be_bytes(x)) == x,
{
    let (a, b, c, d) = (x / 0x100_0000, x / 0x1_0000 % 0x100, x / 0x100 % 0x100, x % 0x100);
    assert(a < 0x100 && b < 0x100 && c < 0x100 && d < 0x100);
    assert(a * 0x100_0000 + b * 0x1_0000 + c * 0x100 + d == x);
}

/// The four bytes weigh what they should, and each number has its own four: bytes and
/// numbers determine each other.
pub proof fn law_big_endian_is_positional(x: u32, b: Seq<u8>)
    requires
        b.len() == 4,
    ensures
        be_bytes(x).len() == 4,
        x == be_bytes(x)[0] * 0x100_0000 + be_bytes(x)[1] * 0x1_0000 + be_bytes(x)[2] * 0x100
            + be_bytes(x)[3],
        be_value(b) == b[0] * 0x100_0000 + b[1] * 0x1_0000 + b[2] * 0x100 + b[3],
        be_bytes(be_value(b)) == b,
        be_value(be_bytes(x)) == x,
{
    lemma_be_round_trip(x);
    let (p, q, r, s) = (b[0], b[1], b[2], b[3]);
    let v = be_value(b);
    assert(v == p * 0x100_0000 + q * 0x1_0000 + r * 0x100 + s);
    assert(v / 0x100_0000 == p && v / 0x1_0000 % 0x100 == q && v / 0x100 % 0x100 == r && v % 0x100
        == s) by (bit_vector)
        requires
            v == p * 0x100_0000 + q * 0x1_0000 + r * 0x100 + s,
    ;
    assert(be_bytes(v) =~= b);
}

/// The eight bytes weigh what they should.
pub proof fn law_little_endian_is_positional(x: u64)
    ensures
        le_bytes(x).len() == 8,
        x == le_bytes(x)[0] + le_bytes(x)[1] * 0x100 + le_bytes(x)[2] * 0x1_0000 + le_bytes(x)[3]
            * 0x100_0000 + le_bytes(x)[4] * 0x1_0000_0000 + le_bytes(x)[5] * 0x100_0000_0000
            + le_bytes(x)[6] * 0x1_0000_0000_0000 + le_bytes(x)[7] * 0x100_0000_0000_0000,
{
    reveal(le_bytes);
    assert(x == x % 0x100 + (x / 0x100 % 0x100) * 0x100 + (x / 0x1_0000 % 0x100) * 0x1_0000 + (x
        / 0x100_0000 % 0x100) * 0x100_0000 + (x / 0x1_0000_0000 % 0x100) * 0x1_0000_0000 + (x
        / 0x100_0000_0000 % 0x100) * 0x100_0000_0000 + (x / 0x1_0000_0000_0000 % 0x100)
        * 0x1_0000_0000_0000 + (x / 0x100_0000_0000_0000) * 0x100_0000_0000_0000) by (bit_vector);
    assert(x / 0x100_0000_0000_0000 < 0x100) by (bit_vector);
}

/// `x` as four bytes, most significant first.
pub fn to_be_bytes(x: u32) -> (bytes: [u8; 4])
    ensures
        bytes@ == be_bytes(x),
{
    let bytes: [u8; 4] = [
        (x / 0x100_0000) as u8,
        (x / 0x1_0000 % 0x100) as u8,
        (x / 0x100 % 0x100) as u8,
        (x % 0x100) as u8,
    ];
    assert(bytes@ =~= be_bytes(x));
    bytes
}

/// The number that the four bytes stand for, most significant first.
pub fn from_be_bytes(bytes: [u8; 4]) -> (x: u32)
    ensures
        x == be_value(bytes@),
{
    bytes[0] as u32 * 0x100_0000 + bytes[1] as u32 * 0x1_0000 + bytes[2] as u32 * 0x100
        + bytes[3] as u32
}

} // verus!
