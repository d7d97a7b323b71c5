//! The on-storage layout of a block, and the little-endian encodings of the
//! integers stored in it.
//!
//! A block is `BLOCK_SIZE` bytes:
//! byte 0 holds the status (`'E'` empty, `'O'` occupied), bytes 1..5 the key
//! of the block, bytes 5..7 the length of the payload stored in the block,
//! bytes 7..11 the key of the next block of the chain (or `FF FF FF FF` where
//! the chain ends), bytes 11..15 the length of the whole value (first block of a
//! chain only) and bytes 15.. the payload.

use vstd::prelude::*;

verus! {

/// Offset of the status byte within a block.
pub const OFFSET_BLOCK_STATUS: u8 = 0x00;
/// Offset of the block's key within a block.
pub const OFFSET_ADDRESS_KEY: u8 = 0x01;
/// Offset of the length of the block's payload within a block.
pub const OFFSET_ADDRESS_SIZE: u8 = 0x05;
/// Offset of the key of the next block within a block.
pub const OFFSET_ADDRESS_NEXT: u8 = 0x07;
/// Offset of the length of the whole value within a block.
pub const OFFSET_VALUE_SIZE: u8 = 0x0B;
/// Offset of the payload within a block.
pub const OFFSET_ADDRESS_PAYLOAD: u8 = 0x0B + 4;
/// The largest key a caller may use.
pub const MAX_KEY_ID: u32 = 999;
/// The size of a block in bytes.
pub const BLOCK_SIZE: u16 = 2048;
/// The number of payload bytes a block holds.
pub const PAYLOAD_SIZE: u16 = 2048 - 15;
/// What a block's key stride is: the `i`-th block of the chain of key `k`
/// carries the key `k + 1000 * i`.
pub const CHAIN_KEY_STRIDE: u32 = 1000;
/// The value of the next-key field where a chain ends. No chain key can
/// equal it: a chain key is below `1000 * (n + 1)` for a chain of `n`
/// blocks, and no chain of the address space is that long.
pub const CHAIN_END: u32 = 0xFFFF_FFFF;

/// Status of a block in the filesystem.
pub enum BlockStatus {
    Empty,
    Occupied,
}

/// The byte that marks a block with the given status.
pub open spec fn status_byte(s: BlockStatus) -> u8 {
    match s {
        BlockStatus::Empty => 0x45u8,
        BlockStatus::Occupied => 0x4Fu8,
    }
}

impl BlockStatus {
    /// The byte stored in the status field of a block with this status:
    /// `b'E'` for an empty block and `b'O'` for an occupied one.
    pub fn byte(&self) -> (b: u8)
        ensures
            b == status_byte(*self),
    {
        match self {
            BlockStatus::Empty => 0x45u8,
            BlockStatus::Occupied => 0x4Fu8,
        }
    }
}

/// The little-endian bytes of a 16-bit integer.
pub open spec fn le16(x: u16) -> Seq<u8> {
    seq![(x & 0xff) as u8, ((x >> 8u16) & 0xff) as u8]
}

/// The little-endian bytes of a 32-bit integer.
pub open spec fn le32(x: u32) -> Seq<u8> {
    seq![
        (x & 0xff) as u8,
        ((x >> 8u32) & 0xff) as u8,
        ((x >> 16u32) & 0xff) as u8,
        ((x >> 24u32) & 0xff) as u8,
    ]
}

/// The 16-bit integer whose little-endian bytes are the first two of `s`.
pub open spec fn from_le16(s: Seq<u8>) -> u16 {
    ((s[0] as u16) | ((s[1] as u16) << 8u16)) as u16
}

/// The 32-bit integer whose little-endian bytes are the first four of `s`.
pub open spec fn from_le32(s: Seq<u8>) -> u32 {
    ((s[0] as u32) | ((s[1] as u32) << 8u32) | ((s[2] as u32) << 16u32) | ((s[3]
        as u32) << 24u32)) as u32
}

/// Decoding the encoding of a 16-bit integer gives the integer back.
pub proof fn lemma_le16_roundtrip(x: u16)
    ensures
        from_le16(le16(x)) == x,
        le16(x).len() == 2,
{
    let a = (x & 0xff) as u8;
    let b = ((x >> 8u16) & 0xff) as u8;
    assert(((a as u16) | ((b as u16) << 8u16)) as u16 == x) by (bit_vector)
        requires
            a == (x & 0xff) as u8,
            b == ((x >> 8u16) & 0xff) as u8,
    ;
}

/// Decoding the encoding of a 32-bit integer gives the integer back.
pub proof fn lemma_le32_roundtrip(x: u32)
    ensures
        from_le32(le32(x)) == x,
        le32(x).len() == 4,
{
    let a = (x & 0xff) as u8;
    let b = ((x >> 8u32) & 0xff) as u8;
    let c = ((x >> 16u32) & 0xff) as u8;
    let d = ((x >> 24u32) & 0xff) as u8;
    assert(((a as u32) | ((b as u32) << 8u32) | ((c as u32) << 16u32) | ((d as u32) << 24u32))
        as u32 == x) by (bit_vector)
        requires
            a == (x & 0xff) as u8,
            b == ((x >> 8u32) & 0xff) as u8,
            c == ((x >> 16u32) & 0xff) as u8,
            d == ((x >> 24u32) & 0xff) as u8,
    ;
}

/// Two integers with the same encoding are equal.
pub proof fn lemma_le32_injective(x: u32, y: u32)
    requires
        le32(x) == le32(y),
    ensures
        x == y,
{
    lemma_le32_roundtrip(x);
    lemma_le32_roundtrip(y);
}

/// The little-endian bytes of `x`, as an array.
pub fn u32_to_le(x: u32) -> (r: [u8; 4])
    ensures
        r@ == le32(x),
{
    let r = [(x & 0xff) as u8, ((x >> 8) & 0xff) as u8, ((x >> 16) & 0xff) as u8, ((x >> 24)
        & 0xff) as u8];
    assert(r@ =~= le32(x));
    r
}

/// The little-endian bytes of `x`, as an array.
pub fn u16_to_le(x: u16) -> (r: [u8; 2])
    ensures
        r@ == le16(x),
{
    let r = [(x & 0xff) as u8, ((x >> 8) & 0xff) as u8];
    assert(r@ =~= le16(x));
    r
}

/// The integer whose little-endian bytes are `b`.
pub fn u32_from_le(b: &[u8; 4]) -> (x: u32)
    ensures
        x == from_le32(b@),
{
    (b[0] as u32) | ((b[1] as u32) << 8) | ((b[2] as u32) << 16) | ((b[3] as u32) << 24)
}

/// The integer whose little-endian bytes are `b`.
pub fn u16_from_le(b: &[u8; 2]) -> (x: u16)
    ensures
        x == from_le16(b@),
{
    (b[0] as u16) | ((b[1] as u16) << 8)
}

} // verus!
