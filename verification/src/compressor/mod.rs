//! Compressor kinds and the resource-fork layouts they use.
pub mod lz;
pub mod zlib;

use crate::bytes::{flatten, lemma_flatten_part, lemma_seq_sum_nonneg, lemma_seq_sum_prefix, lemma_seq_sum_step, seq_sum};
use crate::decmpfs::BlockInfo;
use crate::error::Error;
use crate::spec_num_blocks;
use vstd::prelude::*;

verus! {

/// A compression algorithm.
#[derive(Debug, Copy, Clone, PartialEq, Eq, Structural, Hash)]
pub enum Kind {
    Zlib,
    Lzvn,
    Lzfse,
}

/// The table entries of consecutive blocks of `sizes`, the first starting at `start`.
pub open spec fn block_infos(start: int, sizes: Seq<u32>) -> Seq<BlockInfo> {
    Seq::new(
        sizes.len(),
        |i: int|
            BlockInfo {
                offset: (start + seq_sum(sizes.take(i))) as u32,
                compressed_size: sizes[i],
            },
    )
}

/// The sizes of a sequence of blocks.
pub open spec fn spec_block_sizes(blocks: Seq<Seq<u8>>) -> Seq<u32> {
    Seq::new(blocks.len(), |i: int| blocks[i].len() as u32)
}

impl Kind {
    /// The name of the algorithm.
    pub open spec fn spec_name(self) -> Seq<char> {
        match self {
            Kind::Zlib => "ZLIB"@,
            Kind::Lzvn => "LZVN"@,
            Kind::Lzfse => "LZFSE"@,
        }
    }

    /// The offset at which compressed data starts in a resource fork of `n` blocks.
    pub open spec fn spec_header_size(self, n: int) -> int {
        match self {
            Kind::Zlib => zlib::spec_header_size(n),
            _ => lz::spec_header_size(n),
        }
    }

    /// Whether a block table for `n` blocks can be read without overflowing
    /// the 32-bit quantities of the layout.
    pub open spec fn read_supported(self, n: nat) -> bool {
        match self {
            Kind::Zlib => n <= u32::MAX,
            _ => lz::spec_header_size(n as int) <= u32::MAX,
        }
    }

    /// Whether a block table for `n` blocks can be written without
    /// overflowing the 32-bit quantities of the layout.
    pub open spec fn finish_supported(self, n: nat) -> bool {
        match self {
            Kind::Zlib => n <= u32::MAX ==> 4 + 8 * n <= u32::MAX,
            _ => lz::spec_header_size(n as int) <= u32::MAX,
        }
    }

    /// Finishing a resource fork through a writer over the bytes `old` at
    /// position `pos`: the result, the bytes afterwards and the position
    /// afterwards.
    pub open spec fn spec_finish_at(self, old: Seq<u8>, pos: int, sizes: Seq<u32>) -> (
        Result<(), Error>,
        Seq<u8>,
        int,
    ) {
        match self {
            Kind::Zlib => zlib::spec_finish_at(old, pos, sizes),
            _ => lz::spec_finish_at(old, sizes),
        }
    }

    /// Whether a writer at `pos` can finish a resource fork of `n` blocks:
    /// a zlib fork whose data ends within 32 bits must end at least at 0x104,
    /// and its trailer and block table must fit in memory.
    pub open spec fn finish_position_ok(self, pos: u64, n: nat) -> bool {
        match self {
            Kind::Zlib => (n <= u32::MAX && pos <= u32::MAX ==> pos >= 0x104) && (pos <= u32::MAX
                ==> pos + 50 <= usize::MAX) && (n <= u32::MAX ==> zlib::spec_header_size(n as int)
                <= usize::MAX),
            _ => true,
        }
    }

    /// The blocks a resource fork describes for a file of `n` blocks, or why
    /// it is malformed.
    pub open spec fn spec_read_block_info(self, rf: Seq<u8>, n: nat) -> Result<Seq<BlockInfo>, Error> {
        match self {
            Kind::Zlib => zlib::spec_read_block_info(rf, n),
            _ => lz::spec_read_block_info(rf, n),
        }
    }

    /// The resource fork `old` with its header (and trailer) written for
    /// blocks of `sizes`, or why they cannot be written.
    pub open spec fn spec_finish(self, old: Seq<u8>, sizes: Seq<u32>) -> Result<Seq<u8>, Error> {
        match self {
            Kind::Zlib => zlib::spec_finish(old, sizes),
            _ => lz::spec_finish(old, sizes),
        }
    }

    /// The name of the algorithm.
    pub fn name(self) -> (s: &'static str)
        ensures
            s@ == self.spec_name(),
    {
        match self {
            Kind::Zlib => "ZLIB",
            Kind::Lzvn => "LZVN",
            Kind::Lzfse => "LZFSE",
        }
    }

    /// Whether the algorithm is available; every algorithm is.
    pub fn supported(self) -> (b: bool)
        ensures
            b,
    {
        true
    }

    /// A small number identifying the algorithm, for indexing.
    pub fn index(self) -> (i: usize)
        ensures
            i < 3,
            i == match self {
                Kind::Zlib => 0usize,
                Kind::Lzvn => 1usize,
                Kind::Lzfse => 2usize,
            },
    {
        match self {
            Kind::Zlib => 0,
            Kind::Lzvn => 1,
            Kind::Lzfse => 2,
        }
    }

    /// The offset at which compressed data starts for `block_count` blocks.
    pub fn header_size(self, block_count: u64) -> (r: u64)
        requires
            self.spec_header_size(block_count as int) <= u64::MAX,
        ensures
            r == self.spec_header_size(block_count as int),
    {
        match self {
            Kind::Zlib => zlib::Zlib::header_size(block_count),
            _ => lz::header_size(block_count),
        }
    }

    /// The offset at which compressed data starts for `block_count` blocks.
    pub fn blocks_start(self, block_count: u64) -> (r: u64)
        requires
            self.spec_header_size(block_count as int) <= u64::MAX,
        ensures
            r == self.spec_header_size(block_count as int),
    {
        self.header_size(block_count)
    }

    /// Reads and checks the block table of a resource fork for a file of
    /// `orig_file_size` bytes, and returns the blocks it describes.
    pub fn read_block_info(self, rfork: &[u8], orig_file_size: u64) -> (r: Result<Vec<BlockInfo>, Error>)
        requires
            self.read_supported(spec_num_blocks(orig_file_size)),
        ensures
            match self.spec_read_block_info(rfork@, spec_num_blocks(orig_file_size)) {
                Ok(s) => r matches Ok(v) && v@ == s,
                Err(e) => r == Err::<Vec<BlockInfo>, Error>(e),
            },
    {
        match self {
            Kind::Zlib => zlib::Zlib::read_block_info(rfork, orig_file_size),
            _ => lz::read_block_info(rfork, orig_file_size),
        }
    }

    /// Writes the header (and trailer) of a resource fork through a writer
    /// over `rfork` at `position`, where the compressed blocks of sizes
    /// `block_sizes` end; the writer is left after the header.
    pub fn finish(self, rfork: &mut Vec<u8>, position: &mut u64, block_sizes: &[u32]) -> (r: Result<(), Error>)
        requires
            self.finish_supported(block_sizes@.len()),
            self.finish_position_ok(*old(position), block_sizes@.len()),
        ensures
            (r, final(rfork)@, *final(position) as int) == self.spec_finish_at(
                old(rfork)@,
                *old(position) as int,
                block_sizes@,
            ),
    {
        match self {
            Kind::Zlib => zlib::Zlib::finish(rfork, position, block_sizes),
            _ => lz::finish(rfork, position, block_sizes),
        }
    }

    /// The parts that finishing writes around the `data` of the blocks, of
    /// sizes `block_sizes`, of a resource fork `fork_len` bytes long: what
    /// goes before the data (header and table), and what goes after it.
    pub fn finish_parts(self, fork_len: u64, block_sizes: &[u32], Ghost(data): Ghost<Seq<u8>>) -> (r:
        Result<(Vec<u8>, Vec<u8>), Error>)
        requires
            self.finish_supported(block_sizes@.len()),
            fork_len == self.spec_header_size(block_sizes@.len() as int) + data.len(),
        ensures
            match self.spec_finish(
                Seq::new(self.spec_header_size(block_sizes@.len() as int) as nat, |i: int| 0u8) + data,
                block_sizes@,
            ) {
                Ok(image) => r matches Ok((head, tail)) && head@.len() == self.spec_header_size(
                    block_sizes@.len() as int,
                ) && image == head@ + data + tail@,
                Err(e) => r == Err::<(Vec<u8>, Vec<u8>), Error>(e),
            },
    {
        match self {
            Kind::Zlib => zlib::Zlib::finish_parts(fork_len, block_sizes, Ghost(data)),
            _ => lz::finish_parts(fork_len, block_sizes, Ghost(data)),
        }
    }
}

/// Finishing through a writer at the end of a fork that holds its blocks
/// after the header space gives the fork `Kind::spec_finish` describes, or
/// the same error; on success the writer is left at the header size, and
/// the blocks stay where they were written.
pub proof fn lemma_finish_at_end(kind: Kind, old: Seq<u8>, sizes: Seq<u32>)
    requires
        kind.finish_supported(sizes.len()),
        kind.spec_header_size(sizes.len() as int) <= old.len(),
    ensures
        match kind.spec_finish(old, sizes) {
            Ok(image) => kind.spec_finish_at(old, old.len() as int, sizes) == (
                Ok::<(), Error>(()),
                image,
                kind.spec_header_size(sizes.len() as int),
            ) && image.subrange(kind.spec_header_size(sizes.len() as int), old.len() as int)
                == old.subrange(kind.spec_header_size(sizes.len() as int), old.len() as int),
            Err(e) => kind.spec_finish_at(old, old.len() as int, sizes).0 == Err::<(), Error>(e),
        },
{
    let n = sizes.len();
    let hs = kind.spec_header_size(n as int);
    match kind {
        Kind::Zlib => {
            zlib::lemma_finish_at_end(old, sizes);
            if kind.spec_finish(old, sizes) is Ok {
                let start: int = 4 + 8 * (n as int);
                zlib::lemma_table_entries_len(start, sizes);
                let image = kind.spec_finish(old, sizes)->Ok_0;
                assert(image.subrange(hs, old.len() as int) =~= old.subrange(hs, old.len() as int));
            }
        },
        _ => {
            lz::lemma_finish_at_end(old, sizes);
            if kind.spec_finish(old, sizes) is Ok {
                lz::lemma_offsets_len(hs, sizes);
                let image = kind.spec_finish(old, sizes)->Ok_0;
                assert(image.subrange(hs, old.len() as int) =~= old.subrange(hs, old.len() as int));
            }
        },
    }
}

/// Each algorithm is reported by its own name, and distinct algorithms by
/// distinct names.
pub proof fn lemma_kind_names(a: Kind, b: Kind)
    ensures
        a.spec_name() == b.spec_name() <==> a == b,
        a == Kind::Zlib ==> a.spec_name() == seq!['Z', 'L', 'I', 'B'],
        a == Kind::Lzvn ==> a.spec_name() == seq!['L', 'Z', 'V', 'N'],
        a == Kind::Lzfse ==> a.spec_name() == seq!['L', 'Z', 'F', 'S', 'E'],
{
    reveal_strlit("ZLIB");
    reveal_strlit("LZVN");
    reveal_strlit("LZFSE");
    assert("ZLIB"@ =~= seq!['Z', 'L', 'I', 'B']);
    assert("LZVN"@ =~= seq!['L', 'Z', 'V', 'N']);
    assert("LZFSE"@ =~= seq!['L', 'Z', 'F', 'S', 'E']);
    if a != b {
        assert(seq!['Z', 'L', 'I', 'B'][1] != seq!['L', 'Z', 'V', 'N'][1]);
        assert(seq!['Z', 'L', 'I', 'B'][1] != seq!['L', 'Z', 'F', 'S', 'E'][1]);
        assert(seq!['L', 'Z', 'V', 'N'].len() != seq!['L', 'Z', 'F', 'S', 'E'].len());
    }
}

impl Default for Kind {
    /// LZFSE, the preferred algorithm.
    fn default() -> (k: Self)
        ensures
            k == Kind::Lzfse,
    {
        Kind::Lzfse
    }
}

/// The concatenation of blocks is as long as the sum of their sizes, and
/// block `i` starts at the sum of the sizes before it.
pub proof fn lemma_block_positions(blocks: Seq<Seq<u8>>, i: int)
    requires
        0 <= i <= blocks.len(),
        forall|k: int| 0 <= k < blocks.len() ==> #[trigger] blocks[k].len() <= u32::MAX,
    ensures
        flatten(blocks.take(i)).len() == seq_sum(spec_block_sizes(blocks).take(i)),
        flatten(blocks).len() == seq_sum(spec_block_sizes(blocks)),
    decreases blocks.len(),
{
    let sizes = spec_block_sizes(blocks);
    if blocks.len() > 0 {
        let init = blocks.drop_last();
        assert(spec_block_sizes(init) =~= sizes.drop_last());
        if i < blocks.len() {
            lemma_block_positions(init, i);
            assert(init.take(i) =~= blocks.take(i));
            assert(sizes.drop_last().take(i) =~= sizes.take(i));
        } else {
            lemma_block_positions(init, i - 1);
            assert(blocks.take(i) =~= blocks);
            assert(sizes.take(i) =~= sizes);
        }
        lemma_block_positions(init, init.len() as int);
        assert(init.take(init.len() as int) =~= init);
        assert(sizes.drop_last().take(init.len() as int) =~= sizes.drop_last());
    } else {
        assert(blocks.take(i) =~= blocks);
        assert(sizes.take(i) =~= sizes);
    }
}

/// The resource fork of blocks before its header is written: zeros up to the
/// header size, then the blocks one after another.
pub open spec fn spec_unfinished_fork(kind: Kind, blocks: Seq<Seq<u8>>) -> Seq<u8> {
    Seq::new(kind.spec_header_size(blocks.len() as int) as nat, |i: int| 0u8) + flatten(blocks)
}

/// Blocks written to a resource fork are read back: finishing the resource
/// fork of a file of `blocks.len()` blocks succeeds, reading its block table
/// gives one entry per block, and the bytes each entry designates are that block.
pub proof fn lemma_blocks_read_back(kind: Kind, blocks: Seq<Seq<u8>>)
    requires
        forall|k: int| 0 <= k < blocks.len() ==> #[trigger] blocks[k].len() <= u32::MAX,
        kind.spec_header_size(blocks.len() as int) + flatten(blocks).len() + 50 <= u32::MAX,
    ensures
        kind.spec_finish(spec_unfinished_fork(kind, blocks), spec_block_sizes(blocks)) is Ok,
        ({
            let image = kind.spec_finish(spec_unfinished_fork(kind, blocks), spec_block_sizes(blocks))->Ok_0;
            let infos = block_infos(kind.spec_header_size(blocks.len() as int), spec_block_sizes(blocks));
            &&& kind.spec_read_block_info(image, blocks.len()) == Ok::<Seq<BlockInfo>, Error>(infos)
            &&& forall|i: int| 0 <= i < blocks.len() ==> image.subrange(
                #[trigger] infos[i].offset as int,
                infos[i].offset + infos[i].compressed_size,
            ) == blocks[i]
        }),
{
    let n = blocks.len();
    let sizes = spec_block_sizes(blocks);
    let hs = kind.spec_header_size(n as int);
    let old = spec_unfinished_fork(kind, blocks);
    lemma_block_positions(blocks, n as int);
    assert(old.len() == hs + seq_sum(sizes));
    match kind {
        Kind::Zlib => {
            zlib::lemma_read_after_finish(old, sizes);
        },
        _ => {
            lemma_seq_sum_nonneg(sizes);
            lz::lemma_read_after_finish(old, sizes);
        },
    }
    assert forall|i: int| 0 <= i < blocks.len() implies kind.spec_finish(old, sizes)->Ok_0.subrange(
        #[trigger] block_infos(hs, sizes)[i].offset as int,
        block_infos(hs, sizes)[i].offset + block_infos(hs, sizes)[i].compressed_size,
    ) == blocks[i] by {
        lemma_block_bytes(kind, blocks, i);
    }
}

/// Finishing a resource fork keeps the bytes from the header size on.
proof fn lemma_finish_keeps_data(kind: Kind, old: Seq<u8>, sizes: Seq<u32>, x: int)
    requires
        kind.spec_finish(old, sizes) is Ok,
        kind.spec_header_size(sizes.len() as int) <= x < old.len(),
    ensures
        kind.spec_finish(old, sizes)->Ok_0[x] == old[x],
        kind.spec_finish(old, sizes)->Ok_0.len() >= old.len(),
{
    let n = sizes.len();
    match kind {
        Kind::Zlib => {
            zlib::lemma_table_entries_len((4 + 8 * n) as int, sizes);
        },
        _ => {
            lz::lemma_offsets_len(kind.spec_header_size(n as int), sizes);
        },
    }
}

/// Finishing a resource fork does not make it shorter.
proof fn lemma_finish_len(kind: Kind, old: Seq<u8>, sizes: Seq<u32>)
    requires
        kind.spec_finish(old, sizes) is Ok,
        kind.spec_header_size(sizes.len() as int) <= old.len(),
    ensures
        kind.spec_finish(old, sizes)->Ok_0.len() >= old.len(),
{
    let n = sizes.len();
    match kind {
        Kind::Zlib => {
            zlib::lemma_table_entries_len((4 + 8 * n) as int, sizes);
        },
        _ => {
            lz::lemma_offsets_len(kind.spec_header_size(n as int), sizes);
        },
    }
}

/// Block `i` is where its table entry designates, in the finished resource fork.
proof fn lemma_block_bytes(kind: Kind, blocks: Seq<Seq<u8>>, i: int)
    requires
        0 <= i < blocks.len(),
        forall|k: int| 0 <= k < blocks.len() ==> #[trigger] blocks[k].len() <= u32::MAX,
        kind.spec_header_size(blocks.len() as int) + flatten(blocks).len() + 50 <= u32::MAX,
        kind.spec_finish(spec_unfinished_fork(kind, blocks), spec_block_sizes(blocks)) is Ok,
    ensures
        ({
            let image = kind.spec_finish(spec_unfinished_fork(kind, blocks), spec_block_sizes(blocks))->Ok_0;
            let infos = block_infos(kind.spec_header_size(blocks.len() as int), spec_block_sizes(blocks));
            image.subrange(infos[i].offset as int, infos[i].offset + infos[i].compressed_size)
                == blocks[i]
        }),
{
    let n = blocks.len();
    let sizes = spec_block_sizes(blocks);
    let hs = kind.spec_header_size(n as int);
    let old = spec_unfinished_fork(kind, blocks);
    let image = kind.spec_finish(old, sizes)->Ok_0;
    let infos = block_infos(hs, sizes);
    lemma_block_positions(blocks, i);
    lemma_block_positions(blocks, n as int);
    lemma_flatten_part(blocks, i);
    lemma_seq_sum_prefix(sizes, i);
    lemma_seq_sum_nonneg(sizes.take(i));
    let p = seq_sum(sizes.take(i));
    assert(infos[i].offset == hs + p);
    assert(infos[i].compressed_size == blocks[i].len());
    assert forall|j: int| 0 <= j < blocks[i].len() implies image[hs + p + j] == blocks[i][j] by {
        assert(flatten(blocks).subrange(p, p + blocks[i].len())[j] == blocks[i][j]);
        assert(old[hs + p + j] == flatten(blocks)[p + j]);
        lemma_finish_keeps_data(kind, old, sizes, hs + p + j);
    }
    lemma_finish_len(kind, old, sizes);
    assert(old.len() == hs + flatten(blocks).len());
    assert(p + blocks[i].len() <= flatten(blocks).len());
    assert(image.subrange(hs + p, hs + p + blocks[i].len()) =~= blocks[i]);
}

} // verus!
