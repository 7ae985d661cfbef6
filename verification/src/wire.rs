//! Little-endian 32-bit integers, the only scalar that a page holds.

use byteorder::ByteOrder;
use byteorder::LittleEndian;
use vstd::prelude::*;

verus! {

/// The number that four bytes stand for, least significant byte first.
pub open spec fn le_u32(b: Seq<u8>) -> int
    recommends
        b.len() >= 4,
{
    b[0] as int + 256 * (b[1] as int) + 65536 * (b[2] as int) + 16777216 * (b[3] as int)
}

/// The four bytes that stand for `n`, least significant byte first.
pub open spec fn le_bytes(n: u32) -> Seq<u8> {
    seq![
        (n as int % 256) as u8,
        (n as int / 256 % 256) as u8,
        (n as int / 65536 % 256) as u8,
        (n as int / 16777216 % 256) as u8,
    ]
}

/// Reading back what `le_bytes` wrote gives the number that was written.
pub proof fn lemma_le_round_trip(n: u32)
    ensures
        le_bytes(n).len() == 4,
        le_u32(le_bytes(n)) == n as int,
{
}

/// `byteorder::LittleEndian::read_u32`: the first four bytes of `buf`, read as
/// a little-endian number. The outside function panics on a shorter buffer.
#[verifier::external_body]
pub(crate) fn read_le_u32(buf: &[u8]) -> (n: u32)
    requires
        buf@.len() >= 4,
    ensures
        n as int == le_u32(buf@),
{
    LittleEndian::read_u32(buf)
}

/// `byteorder::LittleEndian::write_u32`: the four bytes of `n` in little-endian
/// order, written into a fresh buffer of that size.
#[verifier::external_body]
pub(crate) fn write_le_u32(n: u32) -> (b: [u8; 4])
    ensures
        b@ == le_bytes(n),
{
    let mut b = [0u8; 4];
    LittleEndian::write_u32(&mut b, n);
    b
}

} // verus!
