//! The resource-fork layout of the LZ compressors (LZVN and LZFSE), and the
//! handling of blocks stored uncompressed.
//!
//! An LZ resource fork starts with a table of `n + 1` little-endian offsets:
//! offset `i` is where block `i` starts, and the last is the end of the fork.
use crate::bytes::{
    fitting_prefix, flatten, get_le32, le32, lemma_fitting, spec_fitting, spec_write_at, write_at, lemma_flatten_push, lemma_flatten_uniform, lemma_seq_sum_nonneg,
    lemma_seq_sum_prefix, lemma_seq_sum_step, push_le32, read_le32, seq_sum,
};
use crate::compressor::{block_infos, Kind};
use crate::decmpfs::BlockInfo;
use crate::error::Error;
use crate::{num_blocks, spec_num_blocks};
use vstd::prelude::*;

verus! {

/// The offset at which compressed data starts for `n` blocks.
pub open spec fn spec_header_size(n: int) -> int {
    4 * (n + 1)
}

/// The offset table of blocks of `sizes`, the first starting at `start`.
pub open spec fn spec_offsets(start: int, sizes: Seq<u32>) -> Seq<u8> {
    flatten(Seq::new(sizes.len() + 1, |i: int| le32((start + seq_sum(sizes.take(i))) as u32)))
}

/// The resource fork `old` (data at `spec_header_size`) with the offset table
/// written for blocks of `sizes`; or why it cannot be written.
pub open spec fn spec_finish(old: Seq<u8>, sizes: Seq<u32>) -> Result<Seq<u8>, Error> {
    let hs = spec_header_size(sizes.len() as int);
    if hs + seq_sum(sizes) > u32::MAX {
        Err(Error::OffsetOverflow)
    } else {
        Ok(spec_offsets(hs, sizes) + old.subrange(hs, old.len() as int))
    }
}

/// Finishing an LZ resource fork through a writer over the bytes `old`:
/// the writer rewinds and writes the offsets of the blocks from 0, one per
/// block, until the end of a block does not fit in 32 bits, and else the
/// final offset too.  Gives the result, the bytes afterwards and the
/// writer's position afterwards (whatever it was before).
pub open spec fn spec_finish_at(old: Seq<u8>, sizes: Seq<u32>) -> (Result<(), Error>, Seq<u8>, int) {
    let n = sizes.len();
    let hs = spec_header_size(n as int);
    let m: int = spec_fitting(hs, sizes) as int;
    if m == n {
        (Ok(()), spec_write_at(old, 0, spec_offsets(hs, sizes)), hs)
    } else {
        (Err(Error::OffsetOverflow), spec_write_at(old, 0, spec_offsets(hs, sizes.take(m))), 4 * (m + 1))
    }
}

/// Finishing through a writer over a fork that holds the blocks after the
/// header space gives the fork `spec_finish` describes, or the same error,
/// and leaves the writer after the offset table.
pub proof fn lemma_finish_at_end(old: Seq<u8>, sizes: Seq<u32>)
    requires
        spec_header_size(sizes.len() as int) <= old.len(),
        spec_header_size(sizes.len() as int) <= u32::MAX,
    ensures
        match spec_finish(old, sizes) {
            Ok(image) => spec_finish_at(old, sizes) == (
                Ok::<(), Error>(()),
                image,
                spec_header_size(sizes.len() as int),
            ),
            Err(e) => spec_finish_at(old, sizes).0 == Err::<(), Error>(e),
        },
{
    let n = sizes.len();
    let hs = spec_header_size(n as int);
    lemma_fitting(hs, sizes, n as int);
    assert(sizes.take(n as int) =~= sizes);
    if hs + seq_sum(sizes) <= u32::MAX {
        lemma_offsets_len(hs, sizes);
        assert(spec_write_at(old, 0, spec_offsets(hs, sizes)) =~= spec_finish(old, sizes)->Ok_0);
    }
}

/// The blocks `0..i` described by an offset table, or the first reason one
/// of them cannot be read.
pub open spec fn spec_entries(rf: Seq<u8>, i: nat) -> Result<Seq<BlockInfo>, Error>
    decreases i,
{
    if i == 0 {
        Ok(Seq::empty())
    } else {
        match spec_entries(rf, (i - 1) as nat) {
            Err(e) => Err(e),
            Ok(s) => {
                if 4 * i + 4 > rf.len() {
                    Err(Error::UnexpectedEof)
                } else if read_le32(rf, 4 * i as int) < read_le32(rf, 4 * (i - 1)) {
                    Err(Error::BlockOverlap)
                } else {
                    Ok(
                        s.push(
                            BlockInfo {
                                offset: read_le32(rf, 4 * (i - 1)),
                                compressed_size: (read_le32(rf, 4 * i as int) - read_le32(
                                    rf,
                                    4 * (i - 1),
                                )) as u32,
                            },
                        ),
                    )
                }
            },
        }
    }
}

/// The blocks that an LZ resource fork describes for a file of `n` blocks,
/// or why it is malformed.
pub open spec fn spec_read_block_info(rf: Seq<u8>, n: nat) -> Result<Seq<BlockInfo>, Error> {
    if rf.len() < 4 {
        Err(Error::UnexpectedEof)
    } else if read_le32(rf, 0) != spec_header_size(n as int) {
        Err(Error::UnexpectedFirstOffset)
    } else {
        match spec_entries(rf, n) {
            Err(e) => Err(e),
            Ok(infos) => if rf.len() != read_le32(rf, 4 * n as int) {
                Err(Error::LastBlockNotAtEnd)
            } else {
                Ok(infos)
            },
        }
    }
}

/// The offset at which compressed data starts for `block_count` blocks.
pub fn header_size(block_count: u64) -> (r: u64)
    requires
        spec_header_size(block_count as int) <= u64::MAX,
    ensures
        r == spec_header_size(block_count as int),
{
    (block_count + 1) * 4
}

/// Once reading the table fails, reading more of it fails the same way.
pub proof fn lemma_entries_err_sticky(rf: Seq<u8>, i: nat, n: nat)
    requires
        i <= n,
        spec_entries(rf, i) is Err,
    ensures
        spec_entries(rf, n) == spec_entries(rf, i),
    decreases n - i,
{
    if i < n {
        lemma_entries_err_sticky(rf, i, (n - 1) as nat);
    }
}

/// Reads the first `n` blocks of an offset table.
fn read_entries(rfork: &[u8], n: u64) -> (r: Result<Vec<BlockInfo>, Error>)
    requires
        4 * (n + 1) <= u32::MAX,
    ensures
        match spec_entries(rfork@, n as nat) {
            Ok(s) => r matches Ok(v) && v@ == s,
            Err(e) => r == Err::<Vec<BlockInfo>, Error>(e),
        },
{
    let mut result: Vec<BlockInfo> = Vec::new();
    let mut i: u64 = 0;
    while i < n
        invariant
            i <= n,
            4 * (n + 1) <= u32::MAX,
            spec_entries(rfork@, i as nat) == Ok::<Seq<BlockInfo>, Error>(result@),
        decreases n - i,
    {
        let at: u64 = 4 * (i + 1);
        if at + 4 > rfork.len() as u64 {
            proof {
                lemma_entries_err_sticky(rfork@, (i + 1) as nat, n as nat);
            }
            return Err(Error::UnexpectedEof);
        }
        let last_offset = get_le32(rfork, (at - 4) as usize);
        let next_offset = get_le32(rfork, at as usize);
        if next_offset < last_offset {
            proof {
                lemma_entries_err_sticky(rfork@, (i + 1) as nat, n as nat);
            }
            return Err(Error::BlockOverlap);
        }
        result.push(BlockInfo { offset: last_offset, compressed_size: next_offset - last_offset });
        i = i + 1;
    }
    Ok(result)
}

/// Reads and checks the offset table of an LZ resource fork for a file of
/// `orig_file_size` bytes, and returns the blocks it describes.
pub fn read_block_info(rfork: &[u8], orig_file_size: u64) -> (r: Result<Vec<BlockInfo>, Error>)
    requires
        spec_header_size(spec_num_blocks(orig_file_size) as int) <= u32::MAX,
    ensures
        match spec_read_block_info(rfork@, spec_num_blocks(orig_file_size)) {
            Ok(s) => r matches Ok(v) && v@ == s,
            Err(e) => r == Err::<Vec<BlockInfo>, Error>(e),
        },
{
    let block_count = num_blocks(orig_file_size);
    let blocks_start = header_size(block_count) as u32;
    if rfork.len() < 4 {
        return Err(Error::UnexpectedEof);
    }
    if get_le32(rfork, 0) != blocks_start {
        return Err(Error::UnexpectedFirstOffset);
    }
    match read_entries(rfork, block_count) {
        Err(e) => Err(e),
        Ok(infos) => {
            let end = 4 * block_count;
            if end + 4 > rfork.len() as u64 {
                // Only reachable when there are no blocks: the table is the first offset.
                proof {
                    if block_count > 0 {
                        let k = block_count as nat;
                        assert(spec_entries(rfork@, k) is Ok);
                    }
                }
                assert(block_count == 0);
                return Err(Error::LastBlockNotAtEnd);
            }
            let last = get_le32(rfork, end as usize);
            if rfork.len() as u64 != last as u64 {
                Err(Error::LastBlockNotAtEnd)
            } else {
                Ok(infos)
            }
        },
    }
}

/// Appends the offset table of blocks of `sizes`, the first starting at `start`.
fn append_offsets(table: &mut Vec<u8>, start: u32, sizes: &[u32])
    requires
        start + seq_sum(sizes@) <= u32::MAX,
    ensures
        final(table)@ == old(table)@ + spec_offsets(start as int, sizes@),
{
    let n = sizes.len();
    let ghost prefix = table@;
    let ghost offsets = Seq::new(
        sizes@.len() + 1,
        |k: int| le32((start + seq_sum(sizes@.take(k))) as u32),
    );
    let mut offset: u32 = start;
    let mut i: usize = 0;
    assert(sizes@.take(0) =~= Seq::<u32>::empty());
    while i < n
        invariant
            i <= n,
            n == sizes@.len(),
            start + seq_sum(sizes@) <= u32::MAX,
            offset == start + seq_sum(sizes@.take(i as int)),
            offsets == Seq::new(
                sizes@.len() + 1,
                |k: int| le32((start + seq_sum(sizes@.take(k))) as u32),
            ),
            table@ == prefix + flatten(offsets.take(i as int)),
        decreases n - i,
    {
        proof {
            lemma_seq_sum_step(sizes@, i as int);
            lemma_seq_sum_prefix(sizes@, i as int + 1);
            assert(offsets.take(i as int + 1) =~= offsets.take(i as int).push(offsets[i as int]));
            lemma_flatten_push(offsets.take(i as int), offsets[i as int]);
        }
        push_le32(table, offset);
        offset = offset + sizes[i];
        i = i + 1;
    }
    proof {
        assert(offsets.take(n as int + 1) =~= offsets.take(n as int).push(offsets[n as int]));
        lemma_flatten_push(offsets.take(n as int), offsets[n as int]);
        assert(offsets.take(n as int + 1) =~= offsets);
    }
    push_le32(table, offset);
}

/// The offset table of blocks of `sizes` has four bytes per offset.
pub proof fn lemma_offsets_len(start: int, sizes: Seq<u32>)
    ensures
        spec_offsets(start, sizes).len() == 4 * (sizes.len() + 1),
{
    let offsets = Seq::new(sizes.len() + 1, |k: int| le32((start + seq_sum(sizes.take(k))) as u32));
    lemma_flatten_uniform(offsets, 4);
}

/// Writes the offset table of an LZ resource fork through a writer over
/// `rfork`, from its start, as `spec_finish_at` describes; the writer is
/// left after the table.
pub fn finish(rfork: &mut Vec<u8>, position: &mut u64, block_sizes: &[u32]) -> (r: Result<(), Error>)
    requires
        spec_header_size(block_sizes@.len() as int) <= u32::MAX,
    ensures
        (r, final(rfork)@, *final(position) as int) == spec_finish_at(old(rfork)@, block_sizes@),
{
    let n = block_sizes.len();
    let start = (4 * (n + 1)) as u32;
    let m = fitting_prefix(start, block_sizes);
    proof {
        lemma_fitting(start as int, block_sizes@, n as int);
        lemma_fitting(start as int, block_sizes@, m as int);
    }
    let mut table: Vec<u8> = Vec::new();
    let fitting = vstd::slice::slice_subrange(block_sizes, 0, m);
    assert(fitting@ =~= block_sizes@.take(m as int));
    append_offsets(&mut table, start, fitting);
    proof {
        lemma_offsets_len(start as int, fitting@);
    }
    write_at(rfork, 0, table.as_slice());
    *position = 4 * ((m + 1) as u64);
    if m == n {
        assert(block_sizes@.take(n as int) =~= block_sizes@);
        Ok(())
    } else {
        Err(Error::OffsetOverflow)
    }
}

/// The parts of an LZ resource fork that finishing writes around the `data`
/// of its blocks, the fork being `fork_len` bytes long: the offset table
/// before the data, and nothing after it.
pub fn finish_parts(fork_len: u64, block_sizes: &[u32], Ghost(data): Ghost<Seq<u8>>) -> (r: Result<
    (Vec<u8>, Vec<u8>),
    Error,
>)
    requires
        fork_len == spec_header_size(block_sizes@.len() as int) + data.len(),
        spec_header_size(block_sizes@.len() as int) <= u32::MAX,
    ensures
        match spec_finish(
            Seq::new(spec_header_size(block_sizes@.len() as int) as nat, |i: int| 0u8) + data,
            block_sizes@,
        ) {
            Ok(image) => r matches Ok((head, tail)) && head@.len() == spec_header_size(
                block_sizes@.len() as int,
            ) && image == head@ + data + tail@,
            Err(e) => r == Err::<(Vec<u8>, Vec<u8>), Error>(e),
        },
{
    let ghost hs = spec_header_size(block_sizes@.len() as int);
    let ghost old = Seq::new(hs as nat, |i: int| 0u8) + data;
    let n = block_sizes.len();
    let start = (4 * (n + 1)) as u32;
    if !crate::compressor::zlib::offsets_fit(start, block_sizes) {
        return Err(Error::OffsetOverflow);
    }
    let mut head: Vec<u8> = Vec::new();
    append_offsets(&mut head, start, block_sizes);
    proof {
        lemma_offsets_len(start as int, block_sizes@);
    }
    let tail: Vec<u8> = Vec::new();
    proof {
        assert(old.subrange(hs, old.len() as int) =~= data);
        let image = spec_finish(old, block_sizes@)->Ok_0;
        assert(image =~= head@ + data + tail@);
    }
    Ok((head, tail))
}

/// The byte that marks a block stored uncompressed, for the LZ compressors:
/// LZVN has one, LZFSE has none (and zlib marks such blocks with 0xff).
pub fn uncompressed_prefix(kind: Kind) -> (p: Option<u8>)
    ensures
        p == match kind {
            Kind::Lzvn => Some(0x06u8),
            Kind::Lzfse => None,
            Kind::Zlib => Some(0xffu8),
        },
{
    match kind {
        Kind::Lzvn => Some(0x06),
        Kind::Lzfse => None,
        Kind::Zlib => Some(0xff),
    }
}

/// How many bytes the LZ encoder may write for a block of `src_len` bytes
/// into a buffer of `dst_len` bytes: when a block can be stored
/// uncompressed, no more than the block itself, else the whole buffer.
pub fn encode_limit(dst_len: usize, src_len: usize, uncompressed_prefix: Option<u8>) -> (n: usize)
    requires
        dst_len > src_len,
    ensures
        n == if uncompressed_prefix is Some {
            src_len
        } else {
            dst_len
        },
        n < dst_len || uncompressed_prefix is None,
{
    match uncompressed_prefix {
        Some(_) => src_len,
        None => dst_len,
    }
}

/// Completes the compression of one block after the LZ encoder wrote
/// `encoded_len` bytes to `dst`: an encoder that produced nothing either has
/// the block stored after its `uncompressed_prefix` byte, or fails.
pub fn finish_compress(
    encoded_len: usize,
    dst: &mut [u8],
    src: &[u8],
    uncompressed_prefix: Option<u8>,
) -> (r: Result<usize, Error>)
    requires
        old(dst)@.len() > src@.len(),
    ensures
        encoded_len > 0 ==> r == Ok::<usize, Error>(encoded_len) && final(dst)@ == old(dst)@,
        encoded_len == 0 && uncompressed_prefix is None ==> r == Err::<usize, Error>(
            Error::WriteZero,
        ) && final(dst)@ == old(dst)@,
        encoded_len == 0 && uncompressed_prefix is Some ==> r == Ok::<usize, Error>(
            (src@.len() + 1) as usize,
        ) && final(dst)@ == seq![uncompressed_prefix->Some_0] + src@ + old(dst)@.subrange(
            src@.len() + 1 as int,
            old(dst)@.len() as int,
        ),
{
    if encoded_len > 0 {
        return Ok(encoded_len);
    }
    match uncompressed_prefix {
        None => Err(Error::WriteZero),
        Some(prefix) => {
            let ghost orig = dst@;
            dst[0] = prefix;
            crate::compressor::zlib::copy_into(dst, 1, src);
            assert(dst@ =~= seq![prefix] + src@ + orig.subrange(src@.len() + 1 as int, orig.len() as int));
            Ok(src.len() + 1)
        },
    }
}

/// Handles the blocks an LZ decoder is not needed for: an empty block fails,
/// and a block starting with the `uncompressed_prefix` byte is copied to
/// `dst`.  Returns `None` when the block must be decoded.
pub fn decompress_stored(dst: &mut [u8], src: &[u8], uncompressed_prefix: Option<u8>) -> (r: Option<
    Result<usize, Error>,
>)
    ensures
        src@.len() == 0 ==> r == Some(Err::<usize, Error>(Error::UnexpectedEof)) && final(dst)@
            == old(dst)@,
        src@.len() > 0 && uncompressed_prefix != Some(src@[0]) ==> r is None && final(dst)@ == old(
            dst,
        )@,
        src@.len() > 0 && uncompressed_prefix == Some(src@[0]) ==> if old(dst)@.len() < src@.len()
            - 1 {
            r == Some(Err::<usize, Error>(Error::WriteZero)) && final(dst)@ == old(dst)@
        } else {
            r == Some(Ok::<usize, Error>((src@.len() - 1) as usize)) && final(dst)@ == src@.subrange(
                1,
                src@.len() as int,
            ) + old(dst)@.subrange(src@.len() - 1, old(dst)@.len() as int)
        },
{
    if src.len() == 0 {
        return Some(Err(Error::UnexpectedEof));
    }
    match uncompressed_prefix {
        Some(prefix) => {
            if src[0] != prefix {
                return None;
            }
            let rest = vstd::slice::slice_subrange(src, 1, src.len());
            if dst.len() < rest.len() {
                return Some(Err(Error::WriteZero));
            }
            let ghost orig = dst@;
            crate::compressor::zlib::copy_into(dst, 0, rest);
            assert(dst@ =~= src@.subrange(1, src@.len() as int) + orig.subrange(
                src@.len() - 1,
                orig.len() as int,
            ));
            Some(Ok(rest.len()))
        },
        None => None,
    }
}

/// Completes the decompression of one block after the LZ decoder wrote
/// `decoded_len` bytes to a buffer of `dst_len` bytes: decoding nothing, or
/// filling the buffer (so that the block may not have ended), fails.
pub fn finish_decompress(decoded_len: usize, dst_len: usize) -> (r: Result<usize, Error>)
    ensures
        r == if decoded_len == 0 || decoded_len == dst_len {
            Err::<usize, Error>(Error::WriteZero)
        } else {
            Ok::<usize, Error>(decoded_len)
        },
{
    if decoded_len == 0 || decoded_len == dst_len {
        Err(Error::WriteZero)
    } else {
        Ok(decoded_len)
    }
}

/// The blocks parsed from a finished offset table are the blocks written.
proof fn lemma_entries_of_image(img: Seq<u8>, sizes: Seq<u32>, i: nat)
    requires
        i <= sizes.len(),
        spec_header_size(sizes.len() as int) + seq_sum(sizes) <= u32::MAX,
        img.len() >= 4 * (sizes.len() + 1),
        img.subrange(0, (4 * (sizes.len() + 1)) as int) == spec_offsets(
            spec_header_size(sizes.len() as int),
            sizes,
        ),
    ensures
        spec_entries(img, i) == Ok::<Seq<BlockInfo>, Error>(
            block_infos(spec_header_size(sizes.len() as int), sizes).take(i as int),
        ),
        read_le32(img, 4 * i as int) == spec_header_size(sizes.len() as int) + seq_sum(sizes.take(i as int)),
    decreases i,
{
    let n = sizes.len();
    let hs = spec_header_size(n as int);
    let infos = block_infos(hs, sizes);
    let offsets = Seq::new(n + 1, |k: int| le32((hs + seq_sum(sizes.take(k))) as u32));
    lemma_flatten_uniform(offsets, 4);
    lemma_seq_sum_prefix(sizes, i as int);
    lemma_seq_sum_nonneg(sizes.take(i as int));
    let v = (hs + seq_sum(sizes.take(i as int))) as u32;
    crate::bytes::lemma_le32_roundtrip(v);
    let lv = le32(v);
    assert(offsets[i as int] == lv);
    assert forall|j: int| 0 <= j < 4 implies img[4 * i as int + j] == lv[j] by {
        assert(4 * i + j < 4 * (n + 1));
        assert(img.subrange(0, (4 * (n + 1)) as int)[4 * i as int + j] == img[4 * i as int + j]);
        assert(flatten(offsets)[4 * i as int + j] == offsets[i as int][j]);
    }
    assert(img[4 * i as int] == lv[0]);
    if i == 0 {
        assert(infos.take(0) =~= Seq::<BlockInfo>::empty());
    } else {
        let k = (i - 1) as int;
        lemma_entries_of_image(img, sizes, (i - 1) as nat);
        lemma_seq_sum_step(sizes, k);
        assert(4 * (i - 1) == 4 * k);
        assert(read_le32(img, 4 * k) == hs + seq_sum(sizes.take(k)));
        assert(infos[k] == BlockInfo { offset: read_le32(img, 4 * k), compressed_size: sizes[k] });
        assert(infos.take(i as int) =~= infos.take(k).push(infos[k]));
    }
}

/// Reading the offset table of a resource fork just finished for blocks of
/// `sizes`, whose data fills it exactly, gives back one entry per block, each
/// starting where the previous one ends, the first at the header size.
pub proof fn lemma_read_after_finish(old: Seq<u8>, sizes: Seq<u32>)
    requires
        old.len() == spec_header_size(sizes.len() as int) + seq_sum(sizes),
        old.len() <= u32::MAX,
    ensures
        spec_finish(old, sizes) is Ok,
        spec_read_block_info(spec_finish(old, sizes)->Ok_0, sizes.len()) == Ok::<
            Seq<BlockInfo>,
            Error,
        >(block_infos(spec_header_size(sizes.len() as int), sizes)),
{
    let n = sizes.len();
    let hs = spec_header_size(n as int);
    lemma_seq_sum_nonneg(sizes);
    lemma_offsets_len(hs, sizes);
    let img = spec_finish(old, sizes)->Ok_0;
    assert(img.subrange(0, (4 * (n + 1)) as int) =~= spec_offsets(hs, sizes));
    assert(img.len() == old.len());
    lemma_entries_of_image(img, sizes, n);
    lemma_entries_of_image(img, sizes, 0);
    assert(sizes.take(0) =~= Seq::<u32>::empty());
    assert(sizes.take(n as int) =~= sizes);
    assert(block_infos(hs, sizes).take(n as int) =~= block_infos(hs, sizes));
}

} // verus!
