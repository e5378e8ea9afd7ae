//! The single pass over a block stream: decode each 512-byte block,
//! accumulate its payload, track the covered address ranges, and check
//! the declared sequencing.
//!
//! A fatal condition (a partial block, a bad tag word, an oversized or
//! unaddressable payload) aborts the run with no partial result.  A
//! sequencing oddity (an index out of order, a declared total that does
//! not match the count) is only reported, and the run completes.

use vstd::arithmetic::div_mod::lemma_fundamental_div_mod;
use vstd::arithmetic::div_mod::lemma_mod_bound;
use vstd::prelude::*;
use vstd::slice::slice_subrange;

use crate::block::decode;
use crate::block::le_word;
use crate::block::len_ok;
use crate::block::magic_ok;
use crate::block::DecodeError;
use crate::regions::covered;
use crate::regions::wf;
use crate::regions::MemoryRegions;

verus! {

/// Number of whole blocks at the front of the stream.
pub open spec fn num_blocks(inp: Seq<u8>) -> int {
    inp.len() as int / 512
}

/// The raw bytes of block `i` of the stream.
pub open spec fn block_at(inp: Seq<u8>, i: int) -> Seq<u8> {
    inp.subrange(512 * i, 512 * i + 512)
}

/// What, if anything, is fatally wrong with the raw block `b`: a bad tag
/// word, a payload length over the capacity, or a payload that would run
/// past the end of the 32-bit address space.
pub open spec fn block_error(b: Seq<u8>) -> Option<DecodeError> {
    if !magic_ok(b) {
        Some(DecodeError::InvalidMagic)
    } else if !len_ok(b) {
        Some(DecodeError::PayloadTooLarge)
    } else if le_word(b, 12) + le_word(b, 16) > u32::MAX {
        Some(DecodeError::AddressOverflow)
    } else {
        None
    }
}

/// None of the first `k` blocks of the stream is fatally flawed.
pub open spec fn blocks_ok(inp: Seq<u8>, k: int) -> bool {
    forall|i: int| 0 <= i < k ==> block_error(#[trigger] block_at(inp, i)) is None
}

/// The meaningful payload bytes of the raw block `b`.
pub open spec fn payload_bytes(b: Seq<u8>) -> Seq<u8> {
    b.subrange(32, 32 + le_word(b, 16))
}

/// The concatenation of the payloads of the first `k` blocks, in arrival
/// order.
pub open spec fn accumulated(inp: Seq<u8>, k: int) -> Seq<u8>
    decreases k,
{
    if k <= 0 {
        Seq::empty()
    } else {
        accumulated(inp, k - 1) + payload_bytes(block_at(inp, k - 1))
    }
}

/// The sum of the declared payload lengths of the first `k` blocks.
pub open spec fn total_data_len(inp: Seq<u8>, k: int) -> int
    decreases k,
{
    if k <= 0 {
        0
    } else {
        total_data_len(inp, k - 1) + le_word(block_at(inp, k - 1), 16)
    }
}

/// How many of the first `k` blocks declare an index other than their
/// actual position in the stream.
pub open spec fn index_mismatch_count(inp: Seq<u8>, k: int) -> int
    decreases k,
{
    if k <= 0 {
        0
    } else {
        index_mismatch_count(inp, k - 1) + if le_word(block_at(inp, k - 1), 20) == k - 1 {
            0int
        } else {
            1int
        }
    }
}

/// Address `a` is covered by the payload of one of the first `k` blocks.
pub open spec fn stream_covers(inp: Seq<u8>, k: int, a: int) -> bool {
    exists|i: int|
        0 <= i < k && le_word(#[trigger] block_at(inp, i), 16) > 0 && le_word(block_at(inp, i), 12)
            <= a < le_word(block_at(inp, i), 12) + le_word(block_at(inp, i), 16)
}

/// The total block count that the last of the first `k` blocks declares,
/// or 0 if there is none.
pub open spec fn declared_total_of(inp: Seq<u8>, k: int) -> int {
    if k <= 0 {
        0
    } else {
        le_word(block_at(inp, k - 1), 24)
    }
}

/// Everything a completed run reports.
pub struct ConversionReport {
    /// The reconstructed binary: every payload in arrival order.
    pub binary: Vec<u8>,
    /// The distinct, non-touching address ranges the payloads cover.
    pub regions: MemoryRegions,
    /// Number of blocks processed.
    pub blocks_processed: usize,
    /// Number of blocks whose declared index differed from their position.
    pub index_mismatches: usize,
    /// The total block count declared by the last block, 0 with no blocks.
    pub declared_total: u32,
    /// The declared total did not match the number of blocks processed.
    pub total_mismatch: bool,
}

/// Every whole block of the stream is 512 bytes long.
proof fn lemma_block_at_len(inp: Seq<u8>, i: int)
    requires
        0 <= i < num_blocks(inp),
    ensures
        block_at(inp, i).len() == 512,
{
    lemma_fundamental_div_mod(inp.len() as int, 512);
    lemma_mod_bound(inp.len() as int, 512);
}

/// Over flawless blocks, the accumulated bytes number exactly the sum of
/// the declared payload lengths.
proof fn lemma_accumulated_len(inp: Seq<u8>, k: int)
    requires
        0 <= k <= num_blocks(inp),
        blocks_ok(inp, k),
    ensures
        accumulated(inp, k).len() == total_data_len(inp, k),
    decreases k,
{
    if k > 0 {
        lemma_accumulated_len(inp, k - 1);
        let b = block_at(inp, k - 1);
        lemma_block_at_len(inp, k - 1);
        assert(block_error(b) is None);
        crate::block::lemma_le_word_bounds(b, 16);
        assert(payload_bytes(b).len() == le_word(b, 16));
    }
}

/// A stream whose every block declares its own position has no index
/// mismatch.
proof fn lemma_mismatch_count_zero(inp: Seq<u8>, k: int)
    requires
        forall|i: int| 0 <= i < k ==> le_word(#[trigger] block_at(inp, i), 20) == i,
    ensures
        index_mismatch_count(inp, k) == 0,
    decreases k,
{
    if k > 0 {
        lemma_mismatch_count_zero(inp, k - 1);
    }
}

/// A flawless, strictly sequential stream reports cleanly: if the stream
/// splits into whole blocks with none fatally flawed, block `i` declares
/// index `i`, and the last block declares the block count as the total,
/// then a run reports no index mismatch and no total mismatch, and the
/// accumulated bytes number exactly the sum of the declared payload
/// lengths of all blocks.
pub proof fn lemma_sequential_stream_clean(inp: Seq<u8>)
    requires
        inp.len() % 512 == 0,
        blocks_ok(inp, num_blocks(inp)),
        forall|i: int| 0 <= i < num_blocks(inp) ==> le_word(#[trigger] block_at(inp, i), 20) == i,
        num_blocks(inp) > 0 ==> le_word(block_at(inp, num_blocks(inp) - 1), 24) == num_blocks(
            inp,
        ),
    ensures
        index_mismatch_count(inp, num_blocks(inp)) == 0,
        declared_total_of(inp, num_blocks(inp)) == num_blocks(inp),
        accumulated(inp, num_blocks(inp)).len() == total_data_len(inp, num_blocks(inp)),
{
    lemma_mismatch_count_zero(inp, num_blocks(inp));
    lemma_accumulated_len(inp, num_blocks(inp));
}

/// A fatally flawed block behind a flawless prefix pins the outcome of
/// the whole run: no later block can be the first flawed one.
proof fn lemma_first_error(inp: Seq<u8>, k: int)
    requires
        0 <= k < num_blocks(inp),
        blocks_ok(inp, k),
        block_error(block_at(inp, k)) is Some,
    ensures
        !blocks_ok(inp, num_blocks(inp)),
        forall|i: int|
            0 <= i < num_blocks(inp) && blocks_ok(inp, i) && (#[trigger] block_error(
                block_at(inp, i),
            )) is Some ==> block_error(block_at(inp, i)) == block_error(block_at(inp, k)),
{
    assert(block_error(block_at(inp, k)) is Some);
    assert forall|i: int|
        0 <= i < num_blocks(inp) && blocks_ok(inp, i) && (#[trigger] block_error(
            block_at(inp, i),
        )) is Some implies block_error(block_at(inp, i)) == block_error(block_at(inp, k)) by {
        if i < k {
            assert(block_error(block_at(inp, i)) is None);
        }
        if i > k {
            assert(block_error(block_at(inp, k)) is None);
        }
    }
}

/// Extending the stream by one block extends the covered addresses by
/// exactly that block's payload range.
proof fn lemma_stream_covers_step(inp: Seq<u8>, k: int)
    requires
        0 <= k,
    ensures
        forall|a: int|
            stream_covers(inp, k + 1, a) <==> stream_covers(inp, k, a) || (le_word(
                block_at(inp, k),
                16,
            ) > 0 && le_word(block_at(inp, k), 12) <= a < le_word(block_at(inp, k), 12) + le_word(
                block_at(inp, k),
                16,
            )),
{
    assert forall|a: int|
        stream_covers(inp, k + 1, a) <==> stream_covers(inp, k, a) || (le_word(
            block_at(inp, k),
            16,
        ) > 0 && le_word(block_at(inp, k), 12) <= a < le_word(block_at(inp, k), 12) + le_word(
            block_at(inp, k),
            16,
        )) by {
        if stream_covers(inp, k + 1, a) {
            let i = choose|i: int|
                0 <= i < k + 1 && le_word(#[trigger] block_at(inp, i), 16) > 0 && le_word(
                    block_at(inp, i),
                    12,
                ) <= a < le_word(block_at(inp, i), 12) + le_word(block_at(inp, i), 16);
            if i < k {
                assert(stream_covers(inp, k, a));
            }
        }
        if stream_covers(inp, k, a) {
            let i = choose|i: int|
                0 <= i < k && le_word(#[trigger] block_at(inp, i), 16) > 0 && le_word(
                    block_at(inp, i),
                    12,
                ) <= a < le_word(block_at(inp, i), 12) + le_word(block_at(inp, i), 16);
            assert(stream_covers(inp, k + 1, a));
        }
        if le_word(block_at(inp, k), 16) > 0 && le_word(block_at(inp, k), 12) <= a < le_word(
            block_at(inp, k),
            12,
        ) + le_word(block_at(inp, k), 16) {
            assert(stream_covers(inp, k + 1, a));
        }
    }
}

/// Run the whole pass over `input`.
///
/// The stream is consumed 512 bytes at a time.  The first fatal condition
/// in stream order aborts the run: a flawed block yields its own error,
/// and a trailing partial block yields `ShortRead`.  On success the
/// report carries the concatenated payloads, the covered address ranges,
/// and the sequencing inconsistencies observed on the way.
pub fn convert(input: &[u8]) -> (r: Result<ConversionReport, DecodeError>)
    ensures
        r is Ok <==> blocks_ok(input@, num_blocks(input@)) && input@.len() % 512 == 0,
        forall|i: int|
            0 <= i < num_blocks(input@) && blocks_ok(input@, i) && (#[trigger] block_error(
                block_at(input@, i),
            )) is Some ==> r == Result::<ConversionReport, DecodeError>::Err(
                block_error(block_at(input@, i))->Some_0,
            ),
        blocks_ok(input@, num_blocks(input@)) && input@.len() % 512 != 0 ==> r == Result::<
            ConversionReport,
            DecodeError,
        >::Err(DecodeError::ShortRead),
        r is Ok ==> (r->Ok_0).blocks_processed == num_blocks(input@),
        r is Ok ==> (r->Ok_0).binary@ == accumulated(input@, num_blocks(input@)),
        r is Ok ==> wf((r->Ok_0).regions.regions@),
        r is Ok ==> forall|a: int|
            covered((r->Ok_0).regions.regions@, a) <==> stream_covers(
                input@,
                num_blocks(input@),
                a,
            ),
        r is Ok ==> (r->Ok_0).index_mismatches == index_mismatch_count(
            input@,
            num_blocks(input@),
        ),
        r is Ok ==> (r->Ok_0).declared_total == declared_total_of(input@, num_blocks(input@)),
        r is Ok ==> ((r->Ok_0).total_mismatch <==> declared_total_of(input@, num_blocks(input@))
            != num_blocks(input@)),
{
    let len = input.len();
    let n = len / 512;
    proof {
        lemma_fundamental_div_mod(len as int, 512);
        lemma_mod_bound(len as int, 512);
        assert(n * 512 <= len);
        assert(n == num_blocks(input@));
    }
    let mut binary: Vec<u8> = Vec::new();
    let mut regions = MemoryRegions::new();
    let mut index_mismatches: usize = 0;
    let mut declared_total: u32 = 0;
    let mut k: usize = 0;
    while k < n
        invariant
            k <= n,
            len == input@.len(),
            n == num_blocks(input@),
            n * 512 <= len,
            blocks_ok(input@, k as int),
            binary@ == accumulated(input@, k as int),
            wf(regions.regions@),
            forall|a: int| covered(regions.regions@, a) <==> stream_covers(input@, k as int, a),
            index_mismatches <= k,
            index_mismatches == index_mismatch_count(input@, k as int),
            declared_total == declared_total_of(input@, k as int),
        decreases n - k,
    {
        let chunk = slice_subrange(input, k * 512, k * 512 + 512);
        proof {
            assert(chunk@ == block_at(input@, k as int));
        }
        let blk = match decode(chunk) {
            Ok(b) => b,
            Err(e) => {
                proof {
                    assert(block_error(block_at(input@, k as int)) == Some(e));
                    lemma_first_error(input@, k as int);
                }
                return Err(e);
            },
        };
        if blk.data_len > 0 && blk.target_addr > u32::MAX - blk.data_len {
            proof {
                assert(block_error(block_at(input@, k as int)) == Some(
                    DecodeError::AddressOverflow,
                ));
                lemma_first_error(input@, k as int);
            }
            return Err(DecodeError::AddressOverflow);
        }
        proof {
            assert(block_error(block_at(input@, k as int)) is None);
            assert(blocks_ok(input@, k as int + 1));
        }
        if (blk.block_index as usize) != k {
            index_mismatches = index_mismatches + 1;
        }
        declared_total = blk.total_blocks;
        let ghost binary0 = binary@;
        let dl = blk.data_len as usize;
        let mut j: usize = 0;
        while j < dl
            invariant
                j <= dl,
                dl == blk.data_len,
                blk.payload@.len() == 476,
                dl <= 476,
                binary@ == binary0 + blk.payload@.subrange(0, j as int),
            decreases dl - j,
        {
            binary.push(blk.payload[j]);
            proof {
                assert(binary@ =~= binary0 + blk.payload@.subrange(0, j as int + 1));
            }
            j = j + 1;
        }
        proof {
            assert(blk.payload@.subrange(0, dl as int) =~= payload_bytes(
                block_at(input@, k as int),
            ));
            assert(binary@ == accumulated(input@, k as int + 1));
        }
        let ghost regions_before = regions.regions@;
        if blk.data_len > 0 {
            regions.add_region(blk.target_addr, blk.target_addr + blk.data_len);
        }
        proof {
            let b = block_at(input@, k as int);
            lemma_stream_covers_step(input@, k as int);
            assert forall|a: int|
                covered(regions.regions@, a) <==> stream_covers(input@, k as int + 1, a) by {
                assert(covered(regions_before, a) <==> stream_covers(input@, k as int, a));
                if blk.data_len > 0 {
                    assert(covered(regions.regions@, a) <==> covered(regions_before, a) || (
                    blk.target_addr <= a < blk.target_addr + blk.data_len));
                }
            }
            assert(index_mismatch_count(input@, k as int + 1) == index_mismatch_count(
                input@,
                k as int,
            ) + if le_word(b, 20) == k as int {
                0int
            } else {
                1int
            });
            assert(declared_total == declared_total_of(input@, k as int + 1));
        }
        k = k + 1;
    }
    if len % 512 != 0 {
        return Err(DecodeError::ShortRead);
    }
    let total_mismatch = (declared_total as usize) != n;
    Ok(
        ConversionReport {
            binary,
            regions,
            blocks_processed: n,
            index_mismatches,
            declared_total,
            total_mismatch,
        },
    )
}

} // verus!
