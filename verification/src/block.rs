//! Decoding of one fixed 512-byte block of the container format.
//!
//! A block carries two tag words at its start and one at its end, five
//! little-endian 32-bit header fields, and a 476-byte payload area of
//! which only the first `data_len` bytes are meaningful.

use vstd::prelude::*;

verus! {

/// Size of one raw block in bytes.
pub const BLOCK_SIZE: usize = 512;

/// Greatest number of payload bytes a block can carry.
pub const MAX_PAYLOAD_SIZE: u32 = 476;

/// Expected value of the tag word at offset 0.
pub const MAGIC_START_0: u32 = 0x0A324655;

/// Expected value of the tag word at offset 4.
pub const MAGIC_START_1: u32 = 0x9E5D5157;

/// Expected value of the closing tag word at offset 508.
pub const MAGIC_END: u32 = 0x0AB16F30;

/// Why a run over a block stream failed.  Every variant is fatal: the
/// stream cannot be trusted past the first of these.
#[derive(Clone, Copy, Debug, PartialEq, Eq, Structural)]
pub enum DecodeError {
    /// A tag word of a block did not hold its expected constant.
    InvalidMagic,
    /// A block declared more payload bytes than the payload area holds.
    PayloadTooLarge,
    /// The stream ended with a partial block.
    ShortRead,
    /// A payload would run past the end of the 32-bit address space.
    AddressOverflow,
}

/// The little-endian 32-bit word at offset `off` of `b`.
#[verifier::opaque]
pub open spec fn le_word(b: Seq<u8>, off: int) -> int {
    b[off] + b[off + 1] * 0x100 + b[off + 2] * 0x10000 + b[off + 3] * 0x1000000
}

/// A little-endian word assembled from four bytes is a 32-bit value.
pub proof fn lemma_le_word_bounds(b: Seq<u8>, off: int)
    requires
        0 <= off,
        off + 4 <= b.len(),
    ensures
        0 <= le_word(b, off) <= u32::MAX,
{
    reveal(le_word);
}

/// The three tag words of the raw block `b` hold the format's constants.
pub open spec fn magic_ok(b: Seq<u8>) -> bool {
    &&& le_word(b, 0) == MAGIC_START_0
    &&& le_word(b, 4) == MAGIC_START_1
    &&& le_word(b, 508) == MAGIC_END
}

/// The declared payload length of the raw block `b` fits the capacity.
pub open spec fn len_ok(b: Seq<u8>) -> bool {
    le_word(b, 16) <= MAX_PAYLOAD_SIZE
}

/// One decoded block: the header fields and the raw payload area.
pub struct Block {
    /// Bit-field describing the block's semantics.
    pub flags: u32,
    /// Address the payload is destined for.
    pub target_addr: u32,
    /// Number of meaningful payload bytes.
    pub data_len: u32,
    /// 0-based position of this block in the sequence, as declared.
    pub block_index: u32,
    /// Declared total number of blocks in the stream.
    pub total_blocks: u32,
    /// The full payload area; only the first `data_len` bytes carry data.
    pub payload: Vec<u8>,
}

/// The fields of `blk` are exactly the fields encoded in the raw block `b`.
pub open spec fn block_matches(blk: Block, b: Seq<u8>) -> bool {
    &&& blk.flags == le_word(b, 8)
    &&& blk.target_addr == le_word(b, 12)
    &&& blk.data_len == le_word(b, 16)
    &&& blk.block_index == le_word(b, 20)
    &&& blk.total_blocks == le_word(b, 24)
    &&& blk.payload@ == b.subrange(32, 508)
}

/// Read the little-endian 32-bit word at offset `off` of `buf`.
fn read_le_u32(buf: &[u8], off: usize) -> (r: u32)
    requires
        off + 4 <= buf@.len(),
    ensures
        r == le_word(buf@, off as int),
{
    proof {
        reveal(le_word);
    }
    let b0 = buf[off] as u32;
    let b1 = buf[off + 1] as u32;
    let b2 = buf[off + 2] as u32;
    let b3 = buf[off + 3] as u32;
    b0 + b1 * 0x100 + b2 * 0x10000 + b3 * 0x1000000
}

/// Decode one raw 512-byte block.
///
/// The result is a pure function of the buffer: the tag words are checked
/// first, then the declared payload length, and on success every field of
/// the block is exactly the little-endian word at its fixed offset.
pub fn decode(buf: &[u8]) -> (r: Result<Block, DecodeError>)
    requires
        buf@.len() == BLOCK_SIZE,
    ensures
        r is Ok <==> magic_ok(buf@) && len_ok(buf@),
        !magic_ok(buf@) ==> r == Result::<Block, DecodeError>::Err(DecodeError::InvalidMagic),
        magic_ok(buf@) && !len_ok(buf@) ==> r == Result::<Block, DecodeError>::Err(
            DecodeError::PayloadTooLarge,
        ),
        r is Ok ==> block_matches(r->Ok_0, buf@),
{
    let m0 = read_le_u32(buf, 0);
    let m1 = read_le_u32(buf, 4);
    let me = read_le_u32(buf, 508);
    if m0 != MAGIC_START_0 || m1 != MAGIC_START_1 || me != MAGIC_END {
        return Err(DecodeError::InvalidMagic);
    }
    let data_len = read_le_u32(buf, 16);
    if data_len > MAX_PAYLOAD_SIZE {
        return Err(DecodeError::PayloadTooLarge);
    }
    let flags = read_le_u32(buf, 8);
    let target_addr = read_le_u32(buf, 12);
    let block_index = read_le_u32(buf, 20);
    let total_blocks = read_le_u32(buf, 24);
    let mut payload: Vec<u8> = Vec::new();
    let mut i: usize = 32;
    while i < 508
        invariant
            32 <= i <= 508,
            buf@.len() == 512,
            payload@ == buf@.subrange(32, i as int),
        decreases 508 - i,
    {
        payload.push(buf[i]);
        proof {
            assert(payload@ =~= buf@.subrange(32, i as int + 1));
        }
        i = i + 1;
    }
    Ok(Block { flags, target_addr, data_len, block_index, total_blocks, payload })
}

/// Decoding is a pure function of the buffer: two blocks decoded from the
/// same raw buffer agree in every field.
pub proof fn lemma_decode_deterministic(b1: Block, b2: Block, buf: Seq<u8>)
    requires
        block_matches(b1, buf),
        block_matches(b2, buf),
    ensures
        b1.flags == b2.flags,
        b1.target_addr == b2.target_addr,
        b1.data_len == b2.data_len,
        b1.block_index == b2.block_index,
        b1.total_blocks == b2.total_blocks,
        b1.payload@ == b2.payload@,
{
}

} // verus!
