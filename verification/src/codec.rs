//! Block codec: packs a block of 128 strictly increasing `u32` identifiers
//! into a variable-bit-width byte buffer, given the identifier preceding the
//! block. The packing itself is done by the `bitpacking` crate; the packed
//! and unpacked contents are named by uninterpreted spec functions, the bit
//! width is specified exactly, and every fact the rest of the crate uses is
//! stated on the trusted wrappers below.

use vstd::prelude::*;
use bitpacking::BitPacker;

verus! {

/// Number of identifiers in one compressed block.
pub const BLOCK_LEN: usize = 128;

/// True when every element of `ids` is strictly greater than its predecessor.
pub open spec fn strictly_increasing(ids: Seq<u32>) -> bool {
    forall|i: int, j: int| 0 <= i < j < ids.len() ==> ids[i] < ids[j]
}

/// True when `prev` is a valid predecessor for the block `ids`: either absent,
/// or strictly below the first identifier.
pub open spec fn prev_below(prev: Option<u32>, ids: Seq<u32>) -> bool {
    match prev {
        Option::None => true,
        Option::Some(p) => ids.len() > 0 ==> p < ids[0],
    }
}

/// The bytes that the block codec produces for a block of identifiers with
/// the given predecessor: a deterministic function of its arguments. The
/// image is that of a little-endian host (the codec packs its words
/// native-endian); a big-endian host would lay the same deltas out in other
/// bytes.
pub uninterp spec fn packed_bytes(prev: Option<u32>, ids: Seq<u32>) -> Seq<u8>;

/// The identifiers that the block codec recovers from a byte buffer, given
/// the predecessor and the bit width: a deterministic function of its
/// arguments, again as a little-endian host reads the buffer.
pub uninterp spec fn unpacked_ids(prev: Option<u32>, bytes: Seq<u8>, bits: u8) -> Seq<u32>;

/// Position `i`'s delta: one less than the step from its predecessor, the
/// predecessor of position zero being `prev` (or minus one when absent).
pub open spec fn delta_at(prev: Option<u32>, ids: Seq<u32>, i: int) -> u32 {
    if i == 0 {
        match prev {
            Option::None => ids[0],
            Option::Some(p) => (ids[0] - p - 1) as u32,
        }
    } else {
        (ids[i] - ids[i - 1] - 1) as u32
    }
}

/// How many bits `x` occupies: none for zero, else the position of its
/// highest set bit.
pub open spec fn bit_width(x: u32) -> u8
    decreases x,
{
    if x == 0 {
        0
    } else {
        (1 + bit_width(x / 2)) as u8
    }
}

/// The widest `bit_width` among the first `n` deltas.
pub open spec fn bits_needed_upto(prev: Option<u32>, ids: Seq<u32>, n: int) -> u8
    decreases n,
{
    if n <= 0 {
        0
    } else {
        let rest = bits_needed_upto(prev, ids, n - 1);
        let here = bit_width(delta_at(prev, ids, n - 1));
        if here > rest {
            here
        } else {
            rest
        }
    }
}

/// The minimal bit width the codec needs for a block of identifiers with
/// the given predecessor: wide enough for the widest delta.
pub open spec fn bits_needed(prev: Option<u32>, ids: Seq<u32>) -> u8 {
    bits_needed_upto(prev, ids, ids.len() as int)
}

/// Relies on bitpacking's `BitPacker4x::num_bits_strictly_sorted`: for a
/// strictly increasing block with a valid predecessor it returns the most
/// significant bit of the bitwise-or of all the deltas, which is the width
/// of the widest one.
#[verifier::external_body]
pub(crate) fn num_bits_block(prev: Option<u32>, ids: &[u32]) -> (r: u8)
    requires
        ids@.len() == BLOCK_LEN,
        strictly_increasing(ids@),
        prev_below(prev, ids@),
    ensures
        r == bits_needed(prev, ids@),
        r <= 32,
{
    bitpacking::BitPacker4x::new().num_bits_strictly_sorted(prev, ids)
}

/// Relies on bitpacking's `BitPacker4x::compress_strictly_sorted`: writes the
/// block as tightly packed deltas, producing exactly `16 * bits` bytes
/// (`compressed_block_size`), a deterministic function of `prev` and the
/// identifiers; `decompress_strictly_sorted` recovers the block from them.
#[verifier::external_body]
pub(crate) fn pack_block(prev: Option<u32>, ids: &[u32], bits: u8) -> (r: Vec<u8>)
    requires
        ids@.len() == BLOCK_LEN,
        strictly_increasing(ids@),
        prev_below(prev, ids@),
        bits == bits_needed(prev, ids@),
    ensures
        r@.len() == 16 * bits,
        r@ == packed_bytes(prev, ids@),
        unpacked_ids(prev, r@, bits) == ids@,
{
    let mut out = vec![0u8; 16 * (bits as usize)];
    bitpacking::BitPacker4x::new().compress_strictly_sorted(prev, ids, &mut out, bits);
    out
}

/// Relies on bitpacking's `BitPacker4x::decompress_strictly_sorted`: reads a
/// block of 128 identifiers back out of a `16 * bits`-byte buffer; a
/// deterministic function of `prev`, the bytes and the bit width.
#[verifier::external_body]
pub(crate) fn unpack_block(prev: Option<u32>, bytes: &[u8], bits: u8) -> (r: Vec<u32>)
    requires
        bytes@.len() == 16 * bits,
        bits <= 32,
    ensures
        r@.len() == BLOCK_LEN,
        r@ == unpacked_ids(prev, bytes@, bits),
{
    let mut out = vec![0u32; 128];
    bitpacking::BitPacker4x::new().decompress_strictly_sorted(prev, bytes, &mut out, bits);
    out
}

} // verus!
