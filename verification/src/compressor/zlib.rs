//! The ZLIB compressor and its resource-fork layout.
//!
//! A zlib resource fork holds a 16-byte big-endian header, zeros up to 0x100,
//! the big-endian length of the data following 0x104, the little-endian block
//! count, a table of (offset, size) entries counted from 0x104, the compressed
//! blocks, and a fixed 50-byte trailer.
use crate::bytes::{
    be32, flatten, fitting_prefix, le32, lemma_fitting, spec_fitting, spec_write_at, write_at, lemma_flatten_push, lemma_flatten_uniform, lemma_seq_sum_nonneg, lemma_seq_sum_prefix, lemma_seq_sum_step,
    get_le32, push_be32, push_le32, read_le32, seq_sum, bytes_equal_at, zeros,
};
use crate::compressor::block_infos;
use crate::decmpfs::BlockInfo;
use crate::error::Error;
use crate::{num_blocks, spec_num_blocks};
use vstd::prelude::*;

verus! {

/// The ZLIB compressor.
pub struct Zlib;

/// The offset at which compressed data starts for `n` blocks.
pub open spec fn spec_header_size(n: int) -> int {
    0x108 + 8 * n
}

/// The 16-byte header of a zlib resource fork whose data ends at `data_end`.
pub open spec fn spec_header(data_end: u32) -> Seq<u8> {
    be32(0x100) + be32(data_end) + be32((data_end - 0x100) as u32) + be32(0x32)
}

/// The fixed 50-byte trailer of a zlib resource fork.
pub open spec fn spec_trailer() -> Seq<u8> {
    Seq::new(24, |i: int| 0u8) + seq![
        0x00u8, 0x1Cu8, 0x00u8, 0x32u8, 0x00u8, 0x00u8, 0x63u8, 0x6du8, 0x70u8, 0x66u8,
        0x00u8, 0x00u8, 0x00u8, 0x0Au8, 0x00u8, 0x01u8, 0xFFu8, 0xFFu8, 0x00u8, 0x00u8,
        0x00u8, 0x00u8, 0x00u8, 0x00u8, 0x00u8, 0x00u8,
    ]
}

/// The table entry of block `i`: its offset counted from 0x104, and its size.
pub open spec fn spec_table_entry(start: int, sizes: Seq<u32>, i: int) -> Seq<u8> {
    le32((start + seq_sum(sizes.take(i))) as u32) + le32(sizes[i])
}

/// The table entries of all blocks, the first block starting at `start`.
pub open spec fn spec_table_entries(start: int, sizes: Seq<u32>) -> Seq<u8> {
    flatten(Seq::new(sizes.len(), |i: int| spec_table_entry(start, sizes, i)))
}

/// The resource fork `old` (data at `spec_header_size`, ending at its end)
/// with the header, table and trailer written for blocks of `sizes`; or why
/// they cannot be written.
pub open spec fn spec_finish(old: Seq<u8>, sizes: Seq<u32>) -> Result<Seq<u8>, Error> {
    let n = sizes.len();
    let start = spec_header_size(n as int) - 0x104;
    if n > u32::MAX {
        Err(Error::TooManyBlocks)
    } else if old.len() > u32::MAX {
        Err(Error::ResourceForkTooLarge)
    } else if start + seq_sum(sizes) > u32::MAX {
        Err(Error::TableOffsetOverflow)
    } else {
        let data_end = old.len() as u32;
        Ok(spec_header(data_end) + old.subrange(16, 0x100) + be32((data_end - 0x104) as u32) + le32(
            n as u32,
        ) + spec_table_entries(start, sizes) + old.subrange(
            spec_header_size(n as int),
            old.len() as int,
        ) + spec_trailer())
    }
}

/// Finishing a zlib resource fork through a writer over the bytes `old`
/// positioned at `pos`, where the data ends: the trailer is written at
/// `pos`, the header at 0, the data length and block count at 0x100, then
/// the table entries from 0x108, one per block, until the end of a block
/// does not fit in 32 bits.  Gives the result, the bytes afterwards and the
/// writer's position afterwards.
pub open spec fn spec_finish_at(old: Seq<u8>, pos: int, sizes: Seq<u32>) -> (
    Result<(), Error>,
    Seq<u8>,
    int,
) {
    let n = sizes.len();
    if n > u32::MAX {
        (Err(Error::TooManyBlocks), old, pos)
    } else if pos > u32::MAX {
        (Err(Error::ResourceForkTooLarge), old, pos)
    } else {
        let data_end = pos as u32;
        let start: int = 4 + 8 * (n as int);
        let m: int = spec_fitting(start, sizes) as int;
        let front = spec_write_at(
            spec_write_at(spec_write_at(old, pos, spec_trailer()), 0, spec_header(data_end)),
            0x100,
            be32((data_end - 0x104) as u32) + le32(n as u32),
        );
        if m == n {
            (Ok(()), spec_write_at(front, 0x108, spec_table_entries(start, sizes)), spec_header_size(n as int))
        } else {
            (
                Err(Error::TableOffsetOverflow),
                spec_write_at(front, 0x108, spec_table_entries(start, sizes.take(m + 1))),
                0x108 + 8 * (m + 1),
            )
        }
    }
}

/// Finishing through a writer at the end of a fork that holds the blocks
/// after the header space gives the fork `spec_finish` describes, or the
/// same error, and leaves the writer after the block table.
pub proof fn lemma_finish_at_end(old: Seq<u8>, sizes: Seq<u32>)
    requires
        spec_header_size(sizes.len() as int) <= old.len(),
        sizes.len() <= u32::MAX ==> 4 + 8 * sizes.len() <= u32::MAX,
    ensures
        match spec_finish(old, sizes) {
            Ok(image) => spec_finish_at(old, old.len() as int, sizes) == (
                Ok::<(), Error>(()),
                image,
                spec_header_size(sizes.len() as int),
            ),
            Err(e) => spec_finish_at(old, old.len() as int, sizes).0 == Err::<(), Error>(e),
        },
{
    let n = sizes.len();
    if n <= u32::MAX && old.len() <= u32::MAX {
        let start: int = 4 + 8 * (n as int);
        lemma_fitting(start, sizes, n as int);
        assert(sizes.take(n as int) =~= sizes);
        if start + seq_sum(sizes) <= u32::MAX {
            let data_end = old.len() as u32;
            let pos = old.len() as int;
            let hs = spec_header_size(n as int);
            lemma_table_entries_len(start, sizes);
            let counts = be32((data_end - 0x104) as u32) + le32(n as u32);
            let front = spec_write_at(
                spec_write_at(spec_write_at(old, pos, spec_trailer()), 0, spec_header(data_end)),
                0x100,
                counts,
            );
            let image = spec_finish(old, sizes)->Ok_0;
            let got = spec_write_at(front, 0x108, spec_table_entries(start, sizes));
            assert(got =~= image);
        }
    }
}

/// A finished zlib resource fork whose data ends at `d` starts with the
/// 16-byte header that names, each as a big-endian 32-bit number, where the
/// data starts (0x100), where it ends (`d`), how long it is (`d - 0x100`,
/// so that start plus length is the end) and how long the resource map is
/// (0x32).  Right after the data stands the format's fixed 50-byte trailer:
/// 24 zeros, the map header 00 1C 00 32 00 00, the resource type "cmpf",
/// 00 00 00 0A, 00 01 FF FF, and 8 zeros.  This holds for a fork finished
/// in place and for one finished through a writer standing at the data end.
#[verifier::spinoff_prover]
pub proof fn lemma_finished_header_and_trailer(old: Seq<u8>, pos: int, sizes: Seq<u32>)
    ensures
        spec_header_size(sizes.len() as int) <= old.len() ==> (spec_finish(old, sizes) matches Ok(
            image,
        ) ==> {
            let d = old.len() as u32;
            &&& image.subrange(0, 16) == be32(0x100) + be32(d) + be32((d - 0x100) as u32) + be32(
                0x32,
            )
            &&& image.len() == old.len() + 50
            &&& image.subrange(old.len() as int, old.len() + 50int) == seq![
                0u8, 0u8, 0u8, 0u8, 0u8, 0u8, 0u8, 0u8, 0u8, 0u8, 0u8, 0u8,
                0u8, 0u8, 0u8, 0u8, 0u8, 0u8, 0u8, 0u8, 0u8, 0u8, 0u8, 0u8,
                0x00u8, 0x1Cu8, 0x00u8, 0x32u8, 0x00u8, 0x00u8,
                'c' as u8, 'm' as u8, 'p' as u8, 'f' as u8,
                0x00u8, 0x00u8, 0x00u8, 0x0Au8, 0x00u8, 0x01u8, 0xFFu8, 0xFFu8,
                0u8, 0u8, 0u8, 0u8, 0u8, 0u8, 0u8, 0u8,
            ]
        }),
        spec_finish_at(old, pos, sizes).0 is Ok ==> {
            let fork = spec_finish_at(old, pos, sizes).1;
            let d = pos as u32;
            &&& fork.subrange(0, 16) == be32(0x100) + be32(d) + be32((d - 0x100) as u32) + be32(0x32)
            &&& pos >= spec_header_size(sizes.len() as int) ==> fork.subrange(pos, pos + 50) == seq![
                0u8, 0u8, 0u8, 0u8, 0u8, 0u8, 0u8, 0u8, 0u8, 0u8, 0u8, 0u8,
                0u8, 0u8, 0u8, 0u8, 0u8, 0u8, 0u8, 0u8, 0u8, 0u8, 0u8, 0u8,
                0x00u8, 0x1Cu8, 0x00u8, 0x32u8, 0x00u8, 0x00u8,
                'c' as u8, 'm' as u8, 'p' as u8, 'f' as u8,
                0x00u8, 0x00u8, 0x00u8, 0x0Au8, 0x00u8, 0x01u8, 0xFFu8, 0xFFu8,
                0u8, 0u8, 0u8, 0u8, 0u8, 0u8, 0u8, 0u8,
            ]
        },
{
    let n = sizes.len();
    let t = seq![
                0u8, 0u8, 0u8, 0u8, 0u8, 0u8, 0u8, 0u8, 0u8, 0u8, 0u8, 0u8,
                0u8, 0u8, 0u8, 0u8, 0u8, 0u8, 0u8, 0u8, 0u8, 0u8, 0u8, 0u8,
                0x00u8, 0x1Cu8, 0x00u8, 0x32u8, 0x00u8, 0x00u8,
                'c' as u8, 'm' as u8, 'p' as u8, 'f' as u8,
                0x00u8, 0x00u8, 0x00u8, 0x0Au8, 0x00u8, 0x01u8, 0xFFu8, 0xFFu8,
                0u8, 0u8, 0u8, 0u8, 0u8, 0u8, 0u8, 0u8,
            ];
    assert(spec_trailer() =~= t);
    if spec_header_size(n as int) <= old.len() {
        if spec_finish(old, sizes) is Ok {
            let start: int = 4 + 8 * (n as int);
            lemma_table_entries_len(start, sizes);
            let d = old.len() as u32;
            let image = spec_finish(old, sizes)->Ok_0;
            assert(image.subrange(0, 16) =~= spec_header(d));
            assert(image.subrange(old.len() as int, old.len() + 50int) =~= spec_trailer());
        }
    }
    if spec_finish_at(old, pos, sizes).0 is Ok {
        let start: int = 4 + 8 * (n as int);
        lemma_table_entries_len(start, sizes);
        let d = pos as u32;
        let fork = spec_finish_at(old, pos, sizes).1;
        assert(fork.subrange(0, 16) =~= spec_header(d));
        if pos >= spec_header_size(n as int) {
            assert(fork.subrange(pos, pos + 50) =~= spec_trailer());
        }
    }
}

/// A zlib resource fork is read only if it has the format's header and
/// trailer: with its data ending 50 bytes before its end, at `d`, it starts
/// with the big-endian numbers 0x100, `d`, `d - 0x100` and 0x32, and ends
/// with the fixed trailer that names the resource type "cmpf".
pub proof fn lemma_read_requires_header_and_trailer(rf: Seq<u8>, n: nat)
    ensures
        spec_read_block_info(rf, n) is Ok ==> {
            let d = (rf.len() - 50) as u32;
            &&& rf.len() >= 0x104 + 50
            &&& rf.subrange(0, 16) == be32(0x100) + be32(d) + be32((d - 0x100) as u32) + be32(0x32)
            &&& rf.subrange(rf.len() - 50, rf.len() as int) == seq![
                0u8, 0u8, 0u8, 0u8, 0u8, 0u8, 0u8, 0u8, 0u8, 0u8, 0u8, 0u8,
                0u8, 0u8, 0u8, 0u8, 0u8, 0u8, 0u8, 0u8, 0u8, 0u8, 0u8, 0u8,
                0x00u8, 0x1Cu8, 0x00u8, 0x32u8, 0x00u8, 0x00u8,
                'c' as u8, 'm' as u8, 'p' as u8, 'f' as u8,
                0x00u8, 0x00u8, 0x00u8, 0x0Au8, 0x00u8, 0x01u8, 0xFFu8, 0xFFu8,
                0u8, 0u8, 0u8, 0u8, 0u8, 0u8, 0u8, 0u8,
            ]
        },
{
    assert(spec_trailer() =~= seq![
                0u8, 0u8, 0u8, 0u8, 0u8, 0u8, 0u8, 0u8, 0u8, 0u8, 0u8, 0u8,
                0u8, 0u8, 0u8, 0u8, 0u8, 0u8, 0u8, 0u8, 0u8, 0u8, 0u8, 0u8,
                0x00u8, 0x1Cu8, 0x00u8, 0x32u8, 0x00u8, 0x00u8,
                'c' as u8, 'm' as u8, 'p' as u8, 'f' as u8,
                0x00u8, 0x00u8, 0x00u8, 0x0Au8, 0x00u8, 0x01u8, 0xFFu8, 0xFFu8,
                0u8, 0u8, 0u8, 0u8, 0u8, 0u8, 0u8, 0u8,
            ]);
}

/// A block is stored as the encoder's zlib stream whenever that stream is
/// shorter than the block, and only a stream that is not shorter is replaced
/// by the block itself behind the marker byte 0xff.  So the stored form is
/// shorter than the block exactly when the encoder's stream is, and never
/// longer than the block and its marker.
pub proof fn lemma_compressed_block_choice(src: Seq<u8>, level: u32)
    ensures
        match zlib_stream(src, level) {
            None => spec_compressed_block(src, level) is None,
            Some(s) => {
                &&& s.len() < src.len() ==> spec_compressed_block(src, level) == Some(s)
                &&& s.len() >= src.len() ==> spec_compressed_block(src, level) == Some(
                    seq![0xffu8] + src,
                )
            },
        },
        spec_compressed_block(src, level) matches Some(out) ==> {
            &&& out.len() <= src.len() + 1
            &&& out.len() < src.len() <==> (zlib_stream(src, level) matches Some(s) && s.len()
                < src.len())
        },
{
}

/// The block table entries `0..i` of a zlib resource fork, or the first
/// reason one of them cannot be read.
pub open spec fn spec_entries(rf: Seq<u8>, i: nat) -> Result<Seq<BlockInfo>, Error>
    decreases i,
{
    if i == 0 {
        Ok(Seq::empty())
    } else {
        match spec_entries(rf, (i - 1) as nat) {
            Err(e) => Err(e),
            Ok(s) => {
                let at = 0x108 + 8 * (i - 1);
                if at + 8 > rf.len() {
                    Err(Error::UnexpectedEof)
                } else if read_le32(rf, at) + 0x104 > u32::MAX {
                    Err(Error::BlockOffsetOverflow)
                } else {
                    Ok(
                        s.push(
                            BlockInfo {
                                offset: (read_le32(rf, at) + 0x104) as u32,
                                compressed_size: read_le32(rf, at + 4),
                            },
                        ),
                    )
                }
            },
        }
    }
}

/// The blocks that a zlib resource fork describes for a file of `n` blocks,
/// offsets counted from the start of the fork; or why it is malformed.
pub open spec fn spec_read_block_info(rf: Seq<u8>, n: nat) -> Result<Seq<BlockInfo>, Error> {
    if rf.len() > u32::MAX {
        Err(Error::ResourceForkTooLarge)
    } else if rf.len() < 0x104 + 50 {
        Err(Error::ZlibHeaderMismatch)
    } else {
        let data_end = (rf.len() - 50) as u32;
        if rf.subrange(0, 16) != spec_header(data_end) {
            Err(Error::ZlibHeaderMismatch)
        } else if exists|k: int| 16 <= k < 0x100 && rf[k] != 0 {
            Err(Error::ZlibPaddingNotZero)
        } else if rf.subrange(0x100, 0x104) != be32((data_end - 0x104) as u32) {
            Err(Error::ZlibDataLengthMismatch)
        } else if rf.subrange(0x104, 0x108) != le32(n as u32) {
            Err(Error::BlockCountMismatch)
        } else {
            match spec_entries(rf, n) {
                Err(e) => Err(e),
                Ok(infos) => if rf.subrange(data_end as int, rf.len() as int) != spec_trailer() {
                    Err(Error::ZlibTrailerMismatch)
                } else {
                    Ok(infos)
                },
            }
        }
    }
}

/// The 16-byte header of a zlib resource fork whose data ends at `data_end`.
pub fn header(data_end: u32) -> (r: Vec<u8>)
    requires
        data_end >= 0x100,
    ensures
        r@ == spec_header(data_end),
{
    let mut r = Vec::new();
    push_be32(&mut r, 0x100);
    push_be32(&mut r, data_end);
    push_be32(&mut r, data_end - 0x100);
    push_be32(&mut r, 0x32);
    assert(r@ =~= spec_header(data_end));
    r
}

/// The fixed 50-byte trailer of a zlib resource fork.
pub fn trailer() -> (r: Vec<u8>)
    ensures
        r@ == spec_trailer(),
{
    let r = vec![
        0u8, 0u8, 0u8, 0u8, 0u8, 0u8, 0u8, 0u8, 0u8, 0u8, 0u8, 0u8,
        0u8, 0u8, 0u8, 0u8, 0u8, 0u8, 0u8, 0u8, 0u8, 0u8, 0u8, 0u8,
        0x00u8, 0x1Cu8, 0x00u8, 0x32u8, 0x00u8, 0x00u8, 0x63u8, 0x6du8, 0x70u8, 0x66u8,
        0x00u8, 0x00u8, 0x00u8, 0x0Au8, 0x00u8, 0x01u8, 0xFFu8, 0xFFu8, 0x00u8, 0x00u8,
        0x00u8, 0x00u8, 0x00u8, 0x00u8, 0x00u8, 0x00u8,
    ];
    assert(r@ =~= spec_trailer());
    r
}

/// Whether all running offsets of blocks of `sizes` starting at `start` fit in 32 bits.
pub(crate) fn offsets_fit(start: u32, sizes: &[u32]) -> (r: bool)
    ensures
        r == (start + seq_sum(sizes@) <= u32::MAX),
{
    let n = sizes.len();
    let mut total: u32 = start;
    let mut i: usize = 0;
    while i < n
        invariant
            i <= n,
            n == sizes@.len(),
            total == start + seq_sum(sizes@.take(i as int)),
        decreases n - i,
    {
        proof {
            lemma_seq_sum_step(sizes@, i as int);
        }
        match total.checked_add(sizes[i]) {
            Some(t) => total = t,
            None => {
                proof {
                    lemma_seq_sum_prefix(sizes@, i as int + 1);
                }
                return false;
            },
        }
        i = i + 1;
    }
    assert(sizes@.take(n as int) =~= sizes@);
    true
}

/// The table entries of blocks of `sizes` have eight bytes each.
pub proof fn lemma_table_entries_len(start: int, sizes: Seq<u32>)
    ensures
        spec_table_entries(start, sizes).len() == 8 * sizes.len(),
{
    let entries = Seq::new(sizes.len(), |k: int| spec_table_entry(start, sizes, k));
    lemma_flatten_uniform(entries, 8);
}

/// Appends the table entries of the first `count` blocks of `sizes`, the
/// first block starting at `start`.
fn append_table_prefix(table: &mut Vec<u8>, start: u32, sizes: &[u32], count: usize)
    requires
        count <= sizes@.len(),
        count > 0 ==> start + seq_sum(sizes@.take(count - 1)) <= u32::MAX,
    ensures
        final(table)@ == old(table)@ + spec_table_entries(start as int, sizes@.take(count as int)),
{
    let ghost prefix = table@;
    let ghost taken = sizes@.take(count as int);
    let ghost entries = Seq::new(count as nat, |k: int| spec_table_entry(start as int, taken, k));
    let mut current: u32 = start;
    let mut i: usize = 0;
    assert(sizes@.take(0) =~= Seq::<u32>::empty());
    while i < count
        invariant
            i <= count,
            count <= sizes@.len(),
            count > 0 ==> start + seq_sum(sizes@.take(count - 1)) <= u32::MAX,
            taken == sizes@.take(count as int),
            i < count ==> current == start + seq_sum(sizes@.take(i as int)),
            entries == Seq::new(count as nat, |k: int| spec_table_entry(start as int, taken, k)),
            table@ == prefix + flatten(entries.take(i as int)),
        decreases count - i,
    {
        proof {
            assert(taken.take(i as int) =~= sizes@.take(i as int));
            assert(taken[i as int] == sizes@[i as int]);
            assert(entries.take(i as int + 1) =~= entries.take(i as int).push(entries[i as int]));
            lemma_flatten_push(entries.take(i as int), entries[i as int]);
        }
        let entry = BlockInfo { offset: current, compressed_size: sizes[i] };
        let bytes = entry.to_bytes();
        table.extend_from_slice(&bytes);
        assert(table@ =~= prefix + flatten(entries.take(i as int + 1)));
        if i + 1 < count {
            proof {
                lemma_seq_sum_step(sizes@, i as int);
                assert(sizes@.take(count - 1).take(i + 1) =~= sizes@.take(i + 1));
                lemma_seq_sum_prefix(sizes@.take(count - 1), i + 1);
            }
            current = current + sizes[i];
        }
        i = i + 1;
    }
    assert(entries.take(count as int) =~= entries);
}

/// Appends the table entries of blocks of `sizes`, the first starting at `start`.
fn append_table_entries(table: &mut Vec<u8>, start: u32, sizes: &[u32])
    requires
        start + seq_sum(sizes@) <= u32::MAX,
    ensures
        final(table)@ == old(table)@ + spec_table_entries(start as int, sizes@),
{
    proof {
        if sizes@.len() > 0 {
            lemma_seq_sum_prefix(sizes@, sizes@.len() - 1);
        }
        assert(sizes@.take(sizes@.len() as int) =~= sizes@);
    }
    append_table_prefix(table, start, sizes, sizes.len());
}

/// Once reading the entries fails, reading more entries fails the same way.
pub proof fn lemma_entries_err_sticky(rf: Seq<u8>, i: nat, n: nat)
    requires
        i <= n,
        spec_entries(rf, i) is Err,
    ensures
        spec_entries(rf, n) == spec_entries(rf, i),
    decreases n - i,
{
    if i < n {
        lemma_entries_err_sticky(rf, i, (n - 1) as nat);
    }
}

/// Reads the first `n` entries of a zlib block table.
fn read_entries(rfork: &[u8], n: u32) -> (r: Result<Vec<BlockInfo>, Error>)
    ensures
        match spec_entries(rfork@, n as nat) {
            Ok(s) => r matches Ok(v) && v@ == s,
            Err(e) => r == Err::<Vec<BlockInfo>, Error>(e),
        },
{
    let mut result: Vec<BlockInfo> = Vec::new();
    let mut i: u32 = 0;
    while i < n
        invariant
            i <= n,
            spec_entries(rfork@, i as nat) == Ok::<Seq<BlockInfo>, Error>(result@),
        decreases n - i,
    {
        let at64: u64 = 0x108 + 8 * (i as u64);
        if at64 + 8 > rfork.len() as u64 {
            proof {
                lemma_entries_err_sticky(rfork@, (i + 1) as nat, n as nat);
            }
            return Err(Error::UnexpectedEof);
        }
        let at = at64 as usize;
        let offset = get_le32(rfork, at);
        let size = get_le32(rfork, at + 4);
        if offset > 0xffff_ffff - 0x104 {
            proof {
                lemma_entries_err_sticky(rfork@, (i + 1) as nat, n as nat);
            }
            return Err(Error::BlockOffsetOverflow);
        }
        result.push(BlockInfo { offset: offset + 0x104, compressed_size: size });
        i = i + 1;
    }
    Ok(result)
}

/// Whether the bytes from 16 to 0x100 are all zero.
fn padding_is_zero(rfork: &[u8]) -> (r: bool)
    requires
        0x100 <= rfork@.len(),
    ensures
        r == !(exists|k: int| 16 <= k < 0x100 && rfork@[k] != 0),
{
    let mut k: usize = 16;
    while k < 0x100
        invariant
            16 <= k <= 0x100,
            0x100 <= rfork@.len(),
            forall|j: int| 16 <= j < k ==> rfork@[j] == 0,
        decreases 0x100 - k,
    {
        if rfork[k] != 0 {
            assert(16 <= k < 0x100 && rfork@[k as int] != 0);
            return false;
        }
        k = k + 1;
    }
    true
}

/// The entries parsed from a finished resource fork are the blocks' entries.
proof fn lemma_entries_of_image(img: Seq<u8>, sizes: Seq<u32>, i: nat)
    requires
        i <= sizes.len(),
        0x108 + 8 * sizes.len() <= img.len(),
        spec_header_size(sizes.len() as int) + seq_sum(sizes) <= u32::MAX,
        forall|k: int|
            0 <= k < 8 * sizes.len() ==> #[trigger] img[0x108 + k] == spec_table_entries(
                (4 + 8 * sizes.len()) as int,
                sizes,
            )[k],
    ensures
        spec_entries(img, i) == Ok::<Seq<BlockInfo>, Error>(
            block_infos(spec_header_size(sizes.len() as int), sizes).take(i as int),
        ),
    decreases i,
{
    let n = sizes.len();
    let start: int = (4 + 8 * n) as int;
    let hs = spec_header_size(n as int);
    let infos = block_infos(hs, sizes);
    if i == 0 {
        assert(infos.take(0) =~= Seq::<BlockInfo>::empty());
    } else {
        let k = (i - 1) as int;
        lemma_entries_of_image(img, sizes, (i - 1) as nat);
        let entries = Seq::new(n, |m: int| spec_table_entry(start, sizes, m));
        lemma_flatten_uniform(entries, 8);
        let at = 0x108 + 8 * k;
        let e = spec_table_entry(start, sizes, k);
        assert(entries[k] == e);
        assert(8 * k + 8 <= 8 * n);
        assert forall|j: int| 0 <= j < 8 implies img[at + j] == e[j] by {
            assert(img[0x108 + (8 * k + j)] == flatten(entries)[8 * k + j]);
            assert(0x108 + (8 * k + j) == at + j);
        }
        lemma_seq_sum_prefix(sizes, k);
        lemma_seq_sum_nonneg(sizes.take(k));
        let off = (start + seq_sum(sizes.take(k))) as u32;
        crate::bytes::lemma_le32_roundtrip(off);
        crate::bytes::lemma_le32_roundtrip(sizes[k]);
        let lo = le32(off);
        let ls = le32(sizes[k]);
        assert(e == lo + ls);
        assert(img[at] == lo[0] && img[at + 1] == lo[1] && img[at + 2] == lo[2] && img[at + 3] == lo[3]) by {
            assert(img[at + 0] == e[0] && img[at + 1] == e[1] && img[at + 2] == e[2] && img[at + 3] == e[3]);
        }
        assert(img[at + 4] == ls[0] && img[at + 5] == ls[1] && img[at + 6] == ls[2] && img[at + 7] == ls[3]) by {
            assert(img[at + 4] == e[4] && img[at + 5] == e[5] && img[at + 6] == e[6] && img[at + 7] == e[7]);
        }
        assert(read_le32(img, at) == off);
        assert(read_le32(img, at + 4) == sizes[k]);
        assert(infos.take(i as int) =~= infos.take(k).push(infos[k]));
    }
}

/// Reading the block table of a resource fork just finished for blocks of
/// `sizes`, for a file of `sizes.len()` blocks, gives back one entry per
/// block, each starting where the previous one ends, the first at the header
/// size.
pub proof fn lemma_read_after_finish(old: Seq<u8>, sizes: Seq<u32>)
    requires
        spec_header_size(sizes.len() as int) <= old.len(),
        old.len() + 50 <= u32::MAX,
        spec_header_size(sizes.len() as int) + seq_sum(sizes) <= u32::MAX,
        forall|k: int| 16 <= k < 0x100 ==> old[k] == 0,
    ensures
        spec_finish(old, sizes) is Ok,
        spec_read_block_info(spec_finish(old, sizes)->Ok_0, sizes.len()) == Ok::<
            Seq<BlockInfo>,
            Error,
        >(block_infos(spec_header_size(sizes.len() as int), sizes)),
{
    let n = sizes.len();
    let start: int = (4 + 8 * n) as int;
    let hs = spec_header_size(n as int);
    let l = old.len();
    let data_end = l as u32;
    lemma_seq_sum_nonneg(sizes);
    lemma_table_entries_len(start, sizes);
    let table = spec_table_entries(start, sizes);
    let img = spec_finish(old, sizes)->Ok_0;
    let front = spec_header(data_end) + old.subrange(16, 0x100) + be32((data_end - 0x104) as u32)
        + le32(n as u32);
    assert(front.len() == 0x108);
    assert(img == front + table + old.subrange(hs, l as int) + spec_trailer());
    assert(img.len() == l + 50);
    assert(img.subrange(0, 16) =~= spec_header(data_end));
    assert forall|k: int| 16 <= k < 0x100 implies img[k] == 0 by {
        assert(img[k] == front[k]);
    }
    assert(img.subrange(0x100, 0x104) =~= be32((data_end - 0x104) as u32));
    assert(img.subrange(0x104, 0x108) =~= le32(n as u32));
    assert forall|k: int| 0 <= k < 8 * n implies #[trigger] img[0x108 + k] == table[k] by {
        assert(img[0x108 + k] == (front + table)[0x108 + k]);
    }
    lemma_entries_of_image(img, sizes, n);
    assert(block_infos(hs, sizes).take(n as int) =~= block_infos(hs, sizes));
    assert(img.subrange(l as int, l + 50 as int) =~= spec_trailer());
}

/// The complete zlib stream that flate2's encoder produces for `data` at
/// compression `level`, or `None` if the encoder reports an error.
pub uninterp spec fn zlib_stream(data: Seq<u8>, level: u32) -> Option<Seq<u8>>;

/// What flate2's zlib decoder yields from `src` when reading stops after
/// `limit` bytes, or `None` if it reports an error first.
pub uninterp spec fn zlib_decoded(src: Seq<u8>, limit: usize) -> Option<Seq<u8>>;

/// Compresses `src` into a zlib stream with `flate2::bufread::ZlibEncoder`
/// at `flate2::Compression::new(level)`, reading the encoder to its end.
///
/// Trusted: the result is the encoder's stream (a function of the input and
/// level), which starts with a zlib CMF byte whose compression method is 8.
/// flate2 asserts `level <= 10` in debug builds.
#[verifier::external_body]
fn deflate(src: &[u8], level: u32) -> (r: Option<Vec<u8>>)
    requires
        level <= 10,
    ensures
        match r {
            Some(v) => zlib_stream(src@, level) == Some(v@),
            None => zlib_stream(src@, level) is None,
        },
        r matches Some(v) ==> v@.len() >= 2 && v@[0] % 16 == 8,
{
    let mut encoder = flate2::bufread::ZlibEncoder::new(src, flate2::Compression::new(level));
    let mut out = Vec::new();
    match std::io::Read::read_to_end(&mut encoder, &mut out) {
        Ok(_) => Some(out),
        Err(_) => None,
    }
}

/// Decompresses the zlib stream `src` with `flate2::bufread::ZlibDecoder`,
/// reading at most `limit` bytes of output.
///
/// Trusted: the result is a function of `src` and `limit`; an incomplete
/// stream is reported as `UnexpectedEof` and a corrupt one as
/// `CorruptStream`; and decoding a stream that the encoder produced for
/// some data yields that data, cut at `limit` bytes.
#[verifier::external_body]
fn inflate(src: &[u8], limit: usize) -> (r: Result<Vec<u8>, Error>)
    ensures
        match r {
            Ok(v) => zlib_decoded(src@, limit) == Some(v@) && v@.len() <= limit,
            Err(e) => zlib_decoded(src@, limit) is None && (e == Error::UnexpectedEof || e
                == Error::CorruptStream),
        },
        r is Err ==> forall|data: Seq<u8>, level: u32| #[trigger] zlib_stream(data, level) != Some(src@),
        r matches Ok(v) ==> forall|data: Seq<u8>, level: u32|
            #[trigger] zlib_stream(data, level) == Some(src@) ==> v@ == data.take(
                if data.len() <= limit {
                    data.len() as int
                } else {
                    limit as int
                },
            ),
{
    let decoder = flate2::bufread::ZlibDecoder::new(src);
    let mut limited = std::io::Read::take(decoder, limit as u64);
    let mut out = Vec::new();
    match std::io::Read::read_to_end(&mut limited, &mut out) {
        Ok(_) => Ok(out),
        Err(e) => if e.kind() == std::io::ErrorKind::UnexpectedEof {
            Err(Error::UnexpectedEof)
        } else {
            Err(Error::CorruptStream)
        },
    }
}

/// The compressed form of one block: its zlib stream if that is shorter than
/// the block, else the block itself after the marker byte 0xff; or `None`
/// if the encoder reports an error.
pub open spec fn spec_compressed_block(src: Seq<u8>, level: u32) -> Option<Seq<u8>> {
    match zlib_stream(src, level) {
        None => None,
        Some(stream) => if stream.len() >= src.len() {
            Some(seq![0xffu8] + src)
        } else {
            Some(stream)
        },
    }
}

/// Whether the encoder's stream for `data` at `level`, if any, starts with a
/// zlib header (so that it cannot be mistaken for a stored block).
pub open spec fn stream_has_header(data: Seq<u8>, level: u32) -> bool {
    zlib_stream(data, level) matches Some(s) ==> s.len() >= 2 && s[0] % 16 == 8
}

/// Copies `src` into `dst` starting at `at`.
pub(crate) fn copy_into(dst: &mut [u8], at: usize, src: &[u8])
    requires
        at + src@.len() <= old(dst)@.len(),
    ensures
        final(dst)@ == old(dst)@.subrange(0, at as int) + src@ + old(dst)@.subrange(
            at + src@.len(),
            old(dst)@.len() as int,
        ),
{
    let ghost orig = dst@;
    let mut j: usize = 0;
    while j < src.len()
        invariant
            j <= src@.len(),
            at + src@.len() <= orig.len(),
            dst@.len() == orig.len(),
            at + src@.len() <= dst@.len(),
            at + src@.len() <= dst.len(),
            forall|k: int| 0 <= k < at ==> dst@[k] == orig[k],
            forall|k: int| 0 <= k < j ==> dst@[at + k] == src@[k],
            forall|k: int| at + j <= k < orig.len() ==> dst@[k] == orig[k],
        decreases src@.len() - j,
    {
        dst[at + j] = src[j];
        j = j + 1;
    }
    assert(dst@ =~= orig.subrange(0, at as int) + src@ + orig.subrange(
        at + src@.len(),
        orig.len() as int,
    ));
}

impl Zlib {
    /// The offset at which compressed data starts for `block_count` blocks.
    pub fn header_size(block_count: u64) -> (r: u64)
        requires
            spec_header_size(block_count as int) <= u64::MAX,
        ensures
            r == spec_header_size(block_count as int),
    {
        0x104 + 4 + block_count * 8
    }

    /// The size of the trailer after the compressed data.
    pub fn trailer_size() -> (r: u64)
        ensures
            r == 50,
    {
        50
    }

    /// The space other than the data itself needed to store `block_count` blocks.
    pub fn extra_size(block_count: u64) -> (r: u64)
        requires
            spec_header_size(block_count as int) + 50 <= u64::MAX,
        ensures
            r == spec_header_size(block_count as int) + 50,
    {
        Self::header_size(block_count) + Self::trailer_size()
    }

    /// Writes the trailer, header and block table of a zlib resource fork
    /// through a writer over `rfork` at `position`, where the compressed
    /// blocks end, as `spec_finish_at` describes; the writer is left after
    /// the block table.
    pub fn finish(rfork: &mut Vec<u8>, position: &mut u64, block_sizes: &[u32]) -> (r: Result<(), Error>)
        requires
            block_sizes@.len() <= u32::MAX ==> 4 + 8 * block_sizes@.len() <= u32::MAX,
            block_sizes@.len() <= u32::MAX && *old(position) <= u32::MAX ==> *old(position) >= 0x104,
            *old(position) <= u32::MAX ==> *old(position) + 50 <= usize::MAX,
            block_sizes@.len() <= u32::MAX ==> spec_header_size(block_sizes@.len() as int) <= usize::MAX,
        ensures
            (r, final(rfork)@, *final(position) as int) == spec_finish_at(
                old(rfork)@,
                *old(position) as int,
                block_sizes@,
            ),
    {
        let n = block_sizes.len();
        if n > 0xffff_ffff {
            return Err(Error::TooManyBlocks);
        }
        let pos = *position;
        if pos > 0xffff_ffff {
            return Err(Error::ResourceForkTooLarge);
        }
        let data_end = pos as u32;
        let t = trailer();
        write_at(rfork, pos as usize, t.as_slice());
        let head = header(data_end);
        write_at(rfork, 0, head.as_slice());
        let mut counts: Vec<u8> = Vec::new();
        push_be32(&mut counts, data_end - 0x104);
        push_le32(&mut counts, n as u32);
        write_at(rfork, 0x100, counts.as_slice());
        let start: u32 = (4 + 8 * n) as u32;
        let m = fitting_prefix(start, block_sizes);
        proof {
            lemma_fitting(start as int, block_sizes@, n as int);
            lemma_fitting(start as int, block_sizes@, m as int);
        }
        let mut table: Vec<u8> = Vec::new();
        if m == n {
            assert(block_sizes@.take(n as int) =~= block_sizes@);
            append_table_entries(&mut table, start, block_sizes);
            proof {
                lemma_table_entries_len(start as int, block_sizes@);
            }
            write_at(rfork, 0x108, table.as_slice());
            *position = 0x108 + 8 * (n as u64);
            Ok(())
        } else {
            append_table_prefix(&mut table, start, block_sizes, m + 1);
            proof {
                lemma_table_entries_len(start as int, block_sizes@.take(m + 1));
            }
            write_at(rfork, 0x108, table.as_slice());
            *position = 0x108 + 8 * ((m + 1) as u64);
            Err(Error::TableOffsetOverflow)
        }
    }

    /// The parts of a zlib resource fork that finishing writes around the
    /// `data` of its blocks, the fork being `fork_len` bytes long before the
    /// trailer: the header and block table before the data, the trailer
    /// after it.
    pub fn finish_parts(fork_len: u64, block_sizes: &[u32], Ghost(data): Ghost<Seq<u8>>) -> (r: Result<
        (Vec<u8>, Vec<u8>),
        Error,
    >)
        requires
            fork_len == spec_header_size(block_sizes@.len() as int) + data.len(),
            block_sizes@.len() <= u32::MAX ==> 4 + 8 * block_sizes@.len() <= u32::MAX,
        ensures
            match spec_finish(
                Seq::new(spec_header_size(block_sizes@.len() as int) as nat, |i: int| 0u8) + data,
                block_sizes@,
            ) {
                Ok(image) => r matches Ok((head, tail)) && head@.len() == spec_header_size(
                    block_sizes@.len() as int,
                ) && image == head@ + data + tail@,
                Err(e) => r == Err::<(Vec<u8>, Vec<u8>), Error>(e),
            },
    {
        let ghost hs = spec_header_size(block_sizes@.len() as int);
        let ghost old = Seq::new(hs as nat, |i: int| 0u8) + data;
        let n = block_sizes.len();
        if n > 0xffff_ffff {
            return Err(Error::TooManyBlocks);
        }
        if fork_len > 0xffff_ffff {
            return Err(Error::ResourceForkTooLarge);
        }
        let data_end = fork_len as u32;
        let start: u32 = (4 + 8 * n) as u32;
        if !offsets_fit(start, block_sizes) {
            return Err(Error::TableOffsetOverflow);
        }
        let mut head = header(data_end);
        let padding = zeros(0xf0);
        head.extend_from_slice(padding.as_slice());
        push_be32(&mut head, data_end - 0x104);
        push_le32(&mut head, n as u32);
        append_table_entries(&mut head, start, block_sizes);
        proof {
            lemma_table_entries_len(start as int, block_sizes@);
        }
        let tail = trailer();
        proof {
            assert(old.subrange(16, 0x100) =~= padding@);
            assert(old.subrange(hs, old.len() as int) =~= data);
            let image = spec_finish(old, block_sizes@)->Ok_0;
            assert(image =~= head@ + data + tail@);
        }
        Ok((head, tail))
    }

    /// Reads and checks the header, block table and trailer of a zlib
    /// resource fork for a file of `orig_file_size` bytes, and returns the
    /// blocks it describes, offsets counted from the start of the fork.
    pub fn read_block_info(rfork: &[u8], orig_file_size: u64) -> (r: Result<Vec<BlockInfo>, Error>)
        requires
            spec_num_blocks(orig_file_size) <= u32::MAX,
        ensures
            match spec_read_block_info(rfork@, spec_num_blocks(orig_file_size)) {
                Ok(s) => r matches Ok(v) && v@ == s,
                Err(e) => r == Err::<Vec<BlockInfo>, Error>(e),
            },
    {
        let block_count = num_blocks(orig_file_size) as u32;
        let total = rfork.len();
        if total > 0xffff_ffff {
            return Err(Error::ResourceForkTooLarge);
        }
        if total < 0x104 + 50 {
            return Err(Error::ZlibHeaderMismatch);
        }
        let data_end = (total - 50) as u32;
        let head = header(data_end);
        if !bytes_equal_at(rfork, 0, head.as_slice()) {
            return Err(Error::ZlibHeaderMismatch);
        }
        if !padding_is_zero(rfork) {
            return Err(Error::ZlibPaddingNotZero);
        }
        let mut expected: Vec<u8> = Vec::new();
        push_be32(&mut expected, data_end - 0x104);
        if !bytes_equal_at(rfork, 0x100, expected.as_slice()) {
            return Err(Error::ZlibDataLengthMismatch);
        }
        let mut expected: Vec<u8> = Vec::new();
        push_le32(&mut expected, block_count);
        if !bytes_equal_at(rfork, 0x104, expected.as_slice()) {
            return Err(Error::BlockCountMismatch);
        }
        let result = read_entries(rfork, block_count);
        match result {
            Err(e) => Err(e),
            Ok(infos) => {
                let t = trailer();
                if !bytes_equal_at(rfork, data_end as usize, t.as_slice()) {
                    Err(Error::ZlibTrailerMismatch)
                } else {
                    Ok(infos)
                }
            },
        }
    }

    /// Compresses one block into `dst`: as a zlib stream if that is shorter
    /// than the block, else stored after the marker byte 0xff.  Returns the
    /// length written.
    pub fn compress(&mut self, dst: &mut [u8], src: &[u8], level: u32) -> (r: Result<usize, Error>)
        requires
            old(dst)@.len() > src@.len(),
            level <= 10,
        ensures
            stream_has_header(src@, level),
            match spec_compressed_block(src@, level) {
                None => r == Err::<usize, Error>(Error::CorruptStream) && final(dst)@ == old(dst)@,
                Some(out) => r == Ok::<usize, Error>(out.len() as usize) && final(dst)@ == out + old(
                    dst,
                )@.subrange(out.len() as int, old(dst)@.len() as int),
            },
    {
        let stream = match deflate(src, level) {
            None => return Err(Error::CorruptStream),
            Some(stream) => stream,
        };
        if stream.len() >= src.len() {
            let ghost orig = dst@;
            dst[0] = 0xff;
            copy_into(dst, 1, src);
            assert(dst@ =~= seq![0xffu8] + src@ + orig.subrange(src@.len() + 1 as int, orig.len() as int));
            Ok(src.len() + 1)
        } else {
            let ghost orig = dst@;
            copy_into(dst, 0, stream.as_slice());
            assert(dst@ =~= stream@ + orig.subrange(stream@.len() as int, orig.len() as int));
            Ok(stream.len())
        }
    }

    /// Decompresses one block into `dst`, returning the decompressed length.
    ///
    /// A block stored after the marker 0xff is copied; any other block is
    /// decoded, and must not fill `dst`.  Decompressing what `compress`
    /// produced gives back the block it was made from.
    pub fn decompress(&mut self, dst: &mut [u8], src: &[u8]) -> (r: Result<usize, Error>)
        ensures
            src@.len() == 0 ==> r == Err::<usize, Error>(Error::UnexpectedEof) && final(dst)@
                == old(dst)@,
            src@.len() > 0 && src@[0] == 0xff ==> if old(dst)@.len() < src@.len() - 1 {
                r == Err::<usize, Error>(Error::WriteZero) && final(dst)@ == old(dst)@
            } else {
                r == Ok::<usize, Error>((src@.len() - 1) as usize) && final(dst)@ == src@.subrange(
                    1,
                    src@.len() as int,
                ) + old(dst)@.subrange(src@.len() - 1, old(dst)@.len() as int)
            },
            src@.len() > 0 && src@[0] != 0xff ==> match zlib_decoded(src@, old(dst)@.len() as usize) {
                None => (r == Err::<usize, Error>(Error::UnexpectedEof) || r == Err::<usize, Error>(
                    Error::CorruptStream,
                )) && final(dst)@ == old(dst)@,
                Some(out) => if out.len() == old(dst)@.len() {
                    r == Err::<usize, Error>(Error::WriteZero) && final(dst)@ == old(dst)@
                } else {
                    r == Ok::<usize, Error>(out.len() as usize) && final(dst)@ == out + old(dst)@.subrange(
                        out.len() as int,
                        old(dst)@.len() as int,
                    )
                },
            },
            forall|data: Seq<u8>, level: u32|
                #![trigger spec_compressed_block(data, level)]
                spec_compressed_block(data, level) == Some(src@) && data.len() < old(dst)@.len()
                    && stream_has_header(data, level) ==> r == Ok::<usize, Error>(data.len() as usize) && final(dst)@.subrange(
                    0,
                    data.len() as int,
                ) == data,
    {
        if src.len() == 0 {
            return Err(Error::UnexpectedEof);
        }
        if src[0] == 0xff {
            let rest = vstd::slice::slice_subrange(src, 1, src.len());
            if dst.len() < rest.len() {
                return Err(Error::WriteZero);
            }
            let ghost orig = dst@;
            copy_into(dst, 0, rest);
            assert(dst@ =~= src@.subrange(1, src@.len() as int) + orig.subrange(
                src@.len() - 1,
                orig.len() as int,
            ));
            proof {
                assert forall|data: Seq<u8>, level: u32|
                    #![trigger spec_compressed_block(data, level)]
                    spec_compressed_block(data, level) == Some(src@) && data.len() < orig.len()
                        && stream_has_header(data, level) implies dst@.subrange(0, data.len() as int) == data by {
                    if let Some(stream) = zlib_stream(data, level) {
                        if stream.len() < data.len() {
                            assert(src@ == stream);
                            assert(false);
                        } else {
                            assert(src@ == seq![0xffu8] + data);
                            assert(dst@.subrange(0, data.len() as int) =~= data);
                        }
                    }
                }
            }
            return Ok(rest.len());
        }
        let decoded = match inflate(src, dst.len()) {
            Err(e) => return Err(e),
            Ok(decoded) => decoded,
        };
        if decoded.len() == dst.len() {
            proof {
                assert forall|data: Seq<u8>, level: u32|
                    #![trigger spec_compressed_block(data, level)]
                    spec_compressed_block(data, level) == Some(src@) && data.len() < dst@.len()
                        && stream_has_header(data, level) implies false by {
                    if let Some(stream) = zlib_stream(data, level) {
                        if stream.len() >= data.len() {
                            assert(src@[0] == 0xff);
                        } else {
                            assert(src@ == stream);
                        }
                    }
                }
            }
            return Err(Error::WriteZero);
        }
        let ghost orig = dst@;
        copy_into(dst, 0, decoded.as_slice());
        assert(dst@ =~= decoded@ + orig.subrange(decoded@.len() as int, orig.len() as int));
        proof {
            assert forall|data: Seq<u8>, level: u32|
                #![trigger spec_compressed_block(data, level)]
                spec_compressed_block(data, level) == Some(src@) && data.len() < orig.len()
                    && stream_has_header(data, level) implies decoded@.len() == data.len() && dst@.subrange(0, data.len() as int)
                    == data by {
                if let Some(stream) = zlib_stream(data, level) {
                    if stream.len() >= data.len() {
                        assert(src@[0] == 0xff);
                    } else {
                        assert(src@ == stream);
                        assert(data.take(data.len() as int) =~= data);
                        assert(dst@.subrange(0, data.len() as int) =~= data);
                    }
                }
            }
        }
        Ok(decoded.len())
    }
}

} // verus!
