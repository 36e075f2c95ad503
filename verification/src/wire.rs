//! Big-endian 32-bit fields: the counts and lengths of the packed format.

use vstd::prelude::*;

verus! {

/// Width in bytes of a count or length field.
pub const FIELD_BYTES: usize = 4;

/// The number that four bytes spell, most significant byte first.
pub open spec fn be32_value(bytes: Seq<u8>) -> nat
    recommends
        bytes.len() == 4,
{
    (bytes[0] as nat) * 0x100_0000 + (bytes[1] as nat) * 0x1_0000 + (bytes[2] as nat) * 0x100
        + (bytes[3] as nat)
}

/// The four bytes that spell `n`, most significant byte first.
#[verifier::opaque]
pub open spec fn be32(n: nat) -> Seq<u8>
    recommends
        n <= u32::MAX,
{
    seq![
        (n / 0x100_0000 % 0x100) as u8,
        (n / 0x1_0000 % 0x100) as u8,
        (n / 0x100 % 0x100) as u8,
        (n % 0x100) as u8,
    ]
}

/// A field is four bytes wide, whatever it spells.
pub broadcast proof fn lemma_be32_len(n: nat)
    ensures
        #[trigger] be32(n).len() == 4,
{
    reveal(be32);
}

/// Reading back what was written gives the number written.
pub proof fn lemma_be32_value_of_be32(n: nat)
    requires
        n <= u32::MAX,
    ensures
        be32_value(be32(n)) == n,
{
    reveal(be32);
}

/// Writing the number that four bytes spell gives the same four bytes.
pub proof fn lemma_be32_of_be32_value(bytes: Seq<u8>)
    requires
        bytes.len() == 4,
    ensures
        be32(be32_value(bytes)) == bytes,
{
    reveal(be32);
    let b0: u64 = bytes[0] as u64;
    let b1: u64 = bytes[1] as u64;
    let b2: u64 = bytes[2] as u64;
    let b3: u64 = bytes[3] as u64;
    let n: u64 = (b0 * 0x100_0000 + b1 * 0x1_0000 + b2 * 0x100 + b3) as u64;
    assert(n / 0x100_0000 % 0x100 == b0 && n / 0x1_0000 % 0x100 == b1 && n / 0x100 % 0x100 == b2
        && n % 0x100 == b3) by (bit_vector)
        requires
            b0 < 0x100,
            b1 < 0x100,
            b2 < 0x100,
            b3 < 0x100,
            n == b0 * 0x100_0000 + b1 * 0x1_0000 + b2 * 0x100 + b3,
    ;
}

/// Reads a big-endian `u32` from four bytes.
pub fn as_u32_be(array: &[u8; 4]) -> (value: u32)
    ensures
        value == be32_value(array@),
{
    let b0: u32 = array[0] as u32;
    let b1: u32 = array[1] as u32;
    let b2: u32 = array[2] as u32;
    let b3: u32 = array[3] as u32;
    assert((b0 << 24) | (b1 << 16) | (b2 << 8) | (b3 << 0) == b0 * 0x100_0000 + b1 * 0x1_0000 + b2
        * 0x100 + b3) by (bit_vector)
        requires
            b0 < 0x100,
            b1 < 0x100,
            b2 < 0x100,
            b3 < 0x100,
    ;
    (b0 << 24) | (b1 << 16) | (b2 << 8) | (b3 << 0)
}

/// Reads the big-endian `u32` that the first four bytes of `bytes` spell.
pub fn read_u32_be(bytes: &[u8]) -> (value: u32)
    requires
        bytes@.len() >= 4,
    ensures
        value == be32_value(bytes@.take(4)),
{
    let field: [u8; 4] = [bytes[0], bytes[1], bytes[2], bytes[3]];
    as_u32_be(&field)
}

/// Writes `value` as four bytes, most significant first.
pub fn u32_to_be(value: u32) -> (bytes: [u8; 4])
    ensures
        bytes@ == be32(value as nat),
{
    let b0: u8 = (value >> 24) as u8;
    let b1: u8 = ((value >> 16) & 0xff) as u8;
    let b2: u8 = ((value >> 8) & 0xff) as u8;
    let b3: u8 = (value & 0xff) as u8;
    assert(value >> 24 == value / 0x100_0000 % 0x100) by (bit_vector);
    assert((value >> 16) & 0xff == value / 0x1_0000 % 0x100) by (bit_vector);
    assert((value >> 8) & 0xff == value / 0x100 % 0x100) by (bit_vector);
    assert(value & 0xff == value % 0x100) by (bit_vector);
    let bytes = [b0, b1, b2, b3];
    assert(bytes@ =~= be32(value as nat)) by {
        reveal(be32);
    }
    bytes
}

} // verus!
