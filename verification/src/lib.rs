//! Verified core of a tool for HFS+/APFS transparent file compression:
//! the `decmpfs` extended attribute, the resource-fork block layouts of the
//! ZLIB and LZ (LZVN/LZFSE) compressors, and the writer and reader that
//! produce and consume them.

pub mod bytes;
pub mod compressor;
pub mod decmpfs;
pub mod error;
pub mod info;
pub mod path;
pub mod pipeline;
pub mod progress;
pub mod reader;
pub mod rfork;
pub mod scan;
pub mod spooled;
pub mod seq_queue;
pub mod stats;
pub mod text;
pub mod writer;
pub mod xattr;

pub use stats::Stats;
use vstd::prelude::*;

verus! {

/// The size of one uncompressed block of file data.
pub const BLOCK_SIZE: usize = 0x10000;

/// The number of `BLOCK_SIZE` blocks needed to hold `size` bytes.
pub open spec fn spec_num_blocks(size: u64) -> nat {
    ((size + 0xffff) / 0x10000) as nat
}

/// Returns the number of blocks needed to store `size` bytes.
pub fn num_blocks(size: u64) -> (n: u64)
    ensures
        n == spec_num_blocks(size),
        n * 0x10000 >= size,
        n == 0 || (n - 1) * 0x10000 < size,
{
    let whole = size / 0x10000;
    let n = if size % 0x10000 == 0 {
        whole
    } else {
        whole + 1
    };
    n
}

/// `size` rounded up to the nearest multiple of `block_size`.
pub open spec fn spec_round_to_block_size(size: u64, block_size: u64) -> int
    recommends
        block_size > 0,
{
    if size % block_size == 0 {
        size as int
    } else {
        size + (block_size - size % block_size)
    }
}

/// Rounds `size` up to the nearest multiple of `block_size`.
///
/// If `size` is already a multiple of `block_size`, it is returned unchanged.
pub fn round_to_block_size(size: u64, block_size: u64) -> (r: u64)
    requires
        block_size > 0,
        spec_round_to_block_size(size, block_size) <= u64::MAX,
    ensures
        r == spec_round_to_block_size(size, block_size),
        r % block_size == 0,
        size <= r < size + block_size,
{
    let rem = size % block_size;
    if rem == 0 {
        size
    } else {
        let r = size + (block_size - rem);
        assert(r % block_size == 0) by {
            let q = size / block_size;
            vstd::arithmetic::div_mod::lemma_fundamental_div_mod(size as int, block_size as int);
            assert(r == (q + 1) * block_size) by (nonlinear_arith)
                requires
                    size == block_size * q + rem,
                    r == size + (block_size - rem),
            ;
            vstd::arithmetic::div_mod::lemma_mod_multiples_basic((q + 1) as int, block_size as int);
        }
        r
    }
}

/// `x + i` when it lies in the range of `u64`.
pub open spec fn spec_checked_add_signed(x: u64, i: i64) -> Option<u64> {
    if 0 <= x + i <= u64::MAX {
        Some((x + i) as u64)
    } else {
        None
    }
}

/// Adds a signed offset to an unsigned position, or `None` if the result
/// would leave the range of `u64`.
pub fn checked_add_signed(x: u64, i: i64) -> (r: Option<u64>)
    ensures
        r == spec_checked_add_signed(x, i),
{
    if i >= 0 {
        x.checked_add(i as u64)
    } else {
        let magnitude: u64 = ((-(i + 1)) as u64) + 1;
        x.checked_sub(magnitude)
    }
}

} // verus!
