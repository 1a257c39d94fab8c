//! Reads the compressed blocks of a file back from its decmpfs xattr and
//! resource fork.
use crate::compressor::{block_infos, spec_block_sizes, spec_unfinished_fork, Kind};
use crate::decmpfs::{
    lemma_decode_encode, spec_decode, spec_encode, spec_kind_storage, spec_type_number, BlockInfo,
    DecodeError, Storage, Value, MAX_XATTR_DATA_SIZE,
};
use crate::error::Error;
use crate::writer::{lemma_storage_decision, spec_added};
use crate::bytes::{flatten, lemma_seq_sum_step, seq_sum};
use crate::{checked_add_signed, spec_checked_add_signed, spec_num_blocks};
use vstd::prelude::*;

verus! {

/// Reading the next block of the resource fork `fork` whose unread table
/// entries are `pending`, from `position`, the previous block having ended
/// at `last_offset`: the result, the bytes read, and the position and end of
/// the last block read afterwards.  The reader moves by the distance between
/// the block's offset and `last_offset`, and reads as much of the block as
/// the fork holds; it fails if the move leaves the range of positions, the
/// fork ends early, or the block's end does not fit in 32 bits.
pub open spec fn spec_read_fork_step(
    fork: Seq<u8>,
    pending: Seq<BlockInfo>,
    position: u64,
    last_offset: u32,
) -> (Result<bool, Error>, Seq<u8>, u64, u32) {
    if pending.len() == 0 {
        (Ok(false), Seq::empty(), position, last_offset)
    } else {
        let b = pending[0];
        match spec_checked_add_signed(position, (b.offset - last_offset) as i64) {
            None => (Err(Error::InvalidSeek), Seq::empty(), position, last_offset),
            Some(t) => {
                let avail = if t >= fork.len() {
                    0
                } else if fork.len() - t < b.compressed_size {
                    fork.len() - t
                } else {
                    b.compressed_size as int
                };
                let bytes = if avail == 0 {
                    Seq::<u8>::empty()
                } else {
                    fork.subrange(t as int, t + avail)
                };
                let after = (t + avail) as u64;
                if avail < b.compressed_size {
                    (Err(Error::UnexpectedEof), bytes, after, last_offset)
                } else if b.offset + b.compressed_size > u32::MAX {
                    (Err(Error::BlockOffsetOverflow), bytes, after, last_offset)
                } else {
                    (Ok(true), bytes, after, (b.offset + b.compressed_size) as u32)
                }
            },
        }
    }
}

/// The blocks read one after another from the resource fork `fork` until
/// its table entries `pending` are all read, starting at `position` with
/// the previous block ending at `last_offset`; or the error that stops the
/// reading, after the bytes read until then.
pub open spec fn spec_read_all(
    fork: Seq<u8>,
    pending: Seq<BlockInfo>,
    position: u64,
    last_offset: u32,
) -> (Result<(), Error>, Seq<Seq<u8>>)
    decreases pending.len(),
{
    if pending.len() == 0 {
        (Ok(()), Seq::empty())
    } else {
        let s = spec_read_fork_step(fork, pending, position, last_offset);
        match s.0 {
            Ok(_) => {
                let rest = spec_read_all(fork, pending.drop_first(), s.2, s.3);
                (rest.0, seq![s.1] + rest.1)
            },
            Err(e) => (Err(e), seq![s.1]),
        }
    }
}

#[derive(Debug)]
enum ReaderState {
    /// The single block stored in the xattr, after the header.
    Xattr { data: Vec<u8>, cursor: usize },
    /// Blocks of the resource fork, the next one last.
    ResourceFork { block_infos: Vec<BlockInfo>, last_offset: u32, position: u64, resource_fork: Vec<u8> },
}

impl ReaderState {
    /// Whether the file's single block is stored in the xattr.
    spec fn is_inline(&self) -> bool {
        *self is Xattr
    }

    /// The part of the xattr's data not read yet.
    spec fn inline_rest(&self) -> Seq<u8> {
        match *self {
            ReaderState::Xattr { data, cursor } => data@.subrange(cursor as int, data@.len() as int),
            _ => Seq::empty(),
        }
    }

    /// The block table entries not read yet, in reading order.
    spec fn pending(&self) -> Seq<BlockInfo> {
        match *self {
            ReaderState::ResourceFork { block_infos, .. } => block_infos@.reverse(),
            _ => Seq::empty(),
        }
    }

    /// The resource fork.
    spec fn fork(&self) -> Seq<u8> {
        match *self {
            ReaderState::ResourceFork { resource_fork, .. } => resource_fork@,
            _ => Seq::empty(),
        }
    }

    /// The current position in the resource fork.
    spec fn position(&self) -> u64 {
        match *self {
            ReaderState::ResourceFork { position, .. } => position,
            _ => 0,
        }
    }

    /// The end of the last block read from the resource fork.
    spec fn last_offset(&self) -> u32 {
        match *self {
            ReaderState::ResourceFork { last_offset, .. } => last_offset,
            _ => 0,
        }
    }

    /// An xattr cursor within the xattr's data.
    spec fn cursor_in_range(&self) -> bool {
        match *self {
            ReaderState::Xattr { data, cursor } => cursor <= data@.len(),
            _ => true,
        }
    }

    /// Appends the next block to `dst`, returning whether there was one.
    ///
    /// An xattr block is everything after the header; a resource fork block
    /// is read from where its table entry designates, found by moving from
    /// the current position by the distance between its offset and the end
    /// of the previous block.
    fn read_next(&mut self, dst: &mut Vec<u8>) -> (r: Result<bool, Error>)
        requires
            old(self).cursor_in_range(),
        ensures
            final(self).cursor_in_range(),
            final(self).is_inline() == old(self).is_inline(),
            final(self).fork() == old(self).fork(),
            old(self).is_inline() ==> r == Ok::<bool, Error>(old(self).inline_rest().len() > 0)
                && final(dst)@ == old(dst)@ + old(self).inline_rest()
                && final(self).inline_rest() == Seq::<u8>::empty(),
            !old(self).is_inline() ==> ({
                let s = spec_read_fork_step(
                    old(self).fork(),
                    old(self).pending(),
                    old(self).position(),
                    old(self).last_offset(),
                );
                &&& r == s.0
                &&& final(dst)@ == old(dst)@ + s.1
                &&& final(self).position() == s.2
                &&& final(self).last_offset() == s.3
                &&& final(self).pending() == if old(self).pending().len() == 0 {
                    old(self).pending()
                } else {
                    old(self).pending().drop_first()
                }
            }),
    {
        match self {
            ReaderState::Xattr { data, cursor } => {
                let start = *cursor;
                let len = data.len() - start;
                append_range(dst, data.as_slice(), start, len);
                *cursor = data.len();
                Ok(len > 0)
            },
            ReaderState::ResourceFork { block_infos, last_offset, position, resource_fork } => {
                let ghost pending = block_infos@.reverse();
                let block = match block_infos.pop() {
                    Some(block) => block,
                    None => return Ok(false),
                };
                assert(block_infos@.reverse() =~= pending.drop_first());
                let diff = (block.offset as i64) - (*last_offset as i64);
                let target = match checked_add_signed(*position, diff) {
                    Some(t) => t,
                    None => return Err(Error::InvalidSeek),
                };
                let fork_len = resource_fork.len() as u64;
                let avail: u64 = if target >= fork_len {
                    0
                } else if fork_len - target < block.compressed_size as u64 {
                    fork_len - target
                } else {
                    block.compressed_size as u64
                };
                if avail > 0 {
                    append_range(dst, resource_fork.as_slice(), target as usize, avail as usize);
                } else {
                    assert(dst@ =~= dst@ + Seq::<u8>::empty());
                }
                *position = target + avail;
                if avail < block.compressed_size as u64 {
                    return Err(Error::UnexpectedEof);
                }
                match block.offset.checked_add(block.compressed_size) {
                    None => Err(Error::BlockOffsetOverflow),
                    Some(end) => {
                        *last_offset = end;
                        Ok(true)
                    },
                }
            },
        }
    }
}

/// Yields the compressed blocks of one file in order.
#[derive(Debug)]
pub struct Reader {
    kind: Kind,
    state: ReaderState,
}

/// Appends `src[start..start + len]` to `dst`.
fn append_range(dst: &mut Vec<u8>, src: &[u8], start: usize, len: usize)
    requires
        start + len <= src@.len(),
    ensures
        final(dst)@ == old(dst)@ + src@.subrange(start as int, start + len),
{
    let ghost orig = dst@;
    let mut j: usize = 0;
    while j < len
        invariant
            j <= len,
            start + len <= src@.len(),
            start + len <= src.len(),
            dst@ == orig + src@.subrange(start as int, start + j),
        decreases len - j,
    {
        dst.push(src[start + j]);
        j = j + 1;
        assert(dst@ =~= orig + src@.subrange(start as int, start + j));
    }
}

impl Reader {
    /// The compression algorithm of the file.
    pub closed spec fn kind(&self) -> Kind {
        self.kind
    }

    /// Whether the file's single block is stored in the xattr.
    pub closed spec fn is_inline(&self) -> bool {
        self.state.is_inline()
    }

    /// The part of the xattr's data not read yet.
    pub closed spec fn inline_rest(&self) -> Seq<u8> {
        self.state.inline_rest()
    }

    /// The block table entries not read yet, in reading order.
    pub closed spec fn pending(&self) -> Seq<BlockInfo> {
        self.state.pending()
    }

    /// The resource fork.
    pub closed spec fn fork(&self) -> Seq<u8> {
        self.state.fork()
    }

    /// The current position in the resource fork.
    pub closed spec fn position(&self) -> u64 {
        self.state.position()
    }

    /// The end of the last block read from the resource fork.
    pub closed spec fn last_offset(&self) -> u32 {
        self.state.last_offset()
    }

    /// The reader's internal consistency: an xattr cursor stays within the
    /// xattr's data.
    #[verifier::type_invariant]
    spec fn wf(&self) -> bool {
        self.state.cursor_in_range()
    }

    /// Whether a reader of the file whose decmpfs xattr is `decmpfs_data`
    /// needs its resource fork: the xattr decodes, and names a supported
    /// compressor with its blocks in the resource fork.
    pub fn needs_resource_fork(decmpfs_data: &[u8]) -> (b: bool)
        ensures
            b == (spec_decode(decmpfs_data@) matches Ok((t, _, _)) && spec_kind_storage(t) matches Some(
                (_, Storage::ResourceFork),
            )),
    {
        match Value::from_data(decmpfs_data) {
            Err(_) => false,
            Ok(value) => match value.compression_type.compression_storage() {
                Some((_, Storage::ResourceFork)) => true,
                _ => false,
            },
        }
    }

    /// A reader of the file whose decmpfs xattr is `decmpfs_data`; the
    /// resource fork is only consulted when the xattr says the blocks are
    /// stored there.
    pub fn new(decmpfs_data: Vec<u8>, resource_fork: Vec<u8>) -> (r: Result<Self, Error>)
        ensures
            match spec_decode(decmpfs_data@) {
                Err(e) => r == Err::<Self, Error>(Error::Decode(e)),
                Ok((t, size, extra)) => match spec_kind_storage(t) {
                    None => r == Err::<Self, Error>(Error::Unsupported),
                    Some((k, Storage::Xattr)) => r matches Ok(reader) && reader.kind()
                        == k && reader.is_inline() && reader.inline_rest() == extra,
                    Some((k, Storage::ResourceFork)) => if !k.read_supported(spec_num_blocks(size)) {
                        r == Err::<Self, Error>(Error::TooManyBlocks)
                    } else {
                        match k.spec_read_block_info(resource_fork@, spec_num_blocks(size)) {
                            Err(e) => r == Err::<Self, Error>(e),
                            Ok(infos) => r matches Ok(reader) && reader.kind() == k
                                && !reader.is_inline() && reader.pending() == infos
                                && reader.fork() == resource_fork@ && reader.position() == 0
                                && reader.last_offset() == 0,
                        }
                    },
                },
            },
    {
        let (kind, storage, uncompressed_size) = match Value::from_data(decmpfs_data.as_slice()) {
            Err(e) => return Err(Error::Decode(e)),
            Ok(value) => match value.compression_type.compression_storage() {
                None => return Err(Error::Unsupported),
                Some((kind, storage)) => (kind, storage, value.uncompressed_size),
            },
        };
        match storage {
            Storage::Xattr => {
                Ok(Reader { kind, state: ReaderState::Xattr { data: decmpfs_data, cursor: 16 } })
            },
            Storage::ResourceFork => {
                if !read_supported(kind, uncompressed_size) {
                    return Err(Error::TooManyBlocks);
                }
                let in_order = kind.read_block_info(resource_fork.as_slice(), uncompressed_size)?;
                let infos = reversed(in_order);
                Ok(
                    Reader {
                        kind,
                        state: ReaderState::ResourceFork {
                            block_infos: infos,
                            last_offset: 0,
                            position: 0,
                            resource_fork,
                        },
                    },
                )
            },
        }
    }

    /// Appends the next block to `dst`, returning whether there was one.
    ///
    /// An xattr block is everything after the header; a resource fork block
    /// is read from where its table entry designates, found by moving from
    /// the current position by the distance between its offset and the end
    /// of the previous block.
    pub fn read_block_into(&mut self, dst: &mut Vec<u8>) -> (r: Result<bool, Error>)
        ensures
            final(self).kind() == old(self).kind(),
            final(self).is_inline() == old(self).is_inline(),
            final(self).fork() == old(self).fork(),
            old(self).is_inline() ==> r == Ok::<bool, Error>(old(self).inline_rest().len() > 0)
                && final(dst)@ == old(dst)@ + old(self).inline_rest()
                && final(self).inline_rest() == Seq::<u8>::empty(),
            !old(self).is_inline() ==> ({
                let s = spec_read_fork_step(
                    old(self).fork(),
                    old(self).pending(),
                    old(self).position(),
                    old(self).last_offset(),
                );
                &&& r == s.0
                &&& final(dst)@ == old(dst)@ + s.1
                &&& final(self).position() == s.2
                &&& final(self).last_offset() == s.3
                &&& final(self).pending() == if old(self).pending().len() == 0 {
                    old(self).pending()
                } else {
                    old(self).pending().drop_first()
                }
            }),
    {
        proof {
            use_type_invariant(&*self);
        }
        let mut state = ReaderState::Xattr { data: Vec::new(), cursor: 0 };
        std::mem::swap(&mut self.state, &mut state);
        let r = state.read_next(dst);
        self.state = state;
        r
    }

    /// The compression algorithm of the file.
    pub fn compression_kind(&self) -> (k: Kind)
        ensures
            k == self.kind(),
    {
        self.kind
    }

    /// How many blocks are left to read.
    pub fn remaining_blocks(&self) -> (n: usize)
        ensures
            self.is_inline() ==> n == if self.inline_rest().len() > 0 { 1usize } else { 0usize },
            !self.is_inline() ==> n == self.pending().len(),
    {
        proof {
            use_type_invariant(self);
        }
        match &self.state {
            ReaderState::Xattr { data, cursor } => {
                if *cursor < data.len() {
                    1
                } else {
                    0
                }
            },
            ReaderState::ResourceFork { block_infos, .. } => block_infos.len(),
        }
    }
}

/// The entries of `v` in reverse order.
fn reversed(v: Vec<BlockInfo>) -> (r: Vec<BlockInfo>)
    ensures
        r@.reverse() == v@,
{
    let ghost orig = v@;
    let mut v = v;
    let mut r: Vec<BlockInfo> = Vec::new();
    while v.len() > 0
        invariant
            orig == v@ + r@.reverse(),
        decreases v@.len(),
    {
        let x = v.pop().unwrap();
        let ghost before = r@;
        r.push(x);
        assert(r@.reverse() =~= seq![x] + before.reverse());
        assert(orig =~= v@ + r@.reverse());
    }
    assert(v@ =~= Seq::<BlockInfo>::empty());
    assert(orig =~= r@.reverse());
    r
}

/// Whether the block table of a file of `size` bytes can be read with `kind`.
fn read_supported(kind: Kind, size: u64) -> (b: bool)
    ensures
        b == kind.read_supported(spec_num_blocks(size)),
{
    let n = crate::num_blocks(size);
    match kind {
        Kind::Zlib => n <= 0xffff_ffff,
        _ => n < 0x3fff_ffff,
    }
}

/// What a writer stores in the resource fork is what a reader reads back:
/// the xattr it writes names the compressor and the resource fork, the block
/// table of the finished resource fork lists one entry per block, each entry
/// starts where the previous one ends and designates exactly that block, so
/// that reading the blocks in order yields the blocks written.
pub proof fn lemma_resource_fork_round_trip(kind: Kind, size: u64, blocks: Seq<Seq<u8>>)
    requires
        blocks.len() == spec_num_blocks(size),
        forall|k: int| 0 <= k < blocks.len() ==> #[trigger] blocks[k].len() <= u32::MAX,
        kind.spec_header_size(blocks.len() as int) + flatten(blocks).len() + 50 <= u32::MAX,
    ensures
        kind.spec_finish(spec_unfinished_fork(kind, blocks), spec_block_sizes(blocks)) is Ok,
        spec_decode(spec_encode(spec_type_number(kind, Storage::ResourceFork), size, Seq::empty()))
            == Ok::<(u32, u64, Seq<u8>), DecodeError>(
            (spec_type_number(kind, Storage::ResourceFork), size, Seq::empty()),
        ),
        spec_kind_storage(spec_type_number(kind, Storage::ResourceFork)) == Some(
            (kind, Storage::ResourceFork),
        ),
        kind.read_supported(spec_num_blocks(size)),
        ({
            let fork = kind.spec_finish(spec_unfinished_fork(kind, blocks), spec_block_sizes(blocks))->Ok_0;
            let infos = block_infos(kind.spec_header_size(blocks.len() as int), spec_block_sizes(blocks));
            &&& kind.spec_read_block_info(fork, spec_num_blocks(size)) == Ok::<Seq<BlockInfo>, Error>(infos)
            &&& forall|i: int| 0 <= i < blocks.len() ==> fork.subrange(
                #[trigger] infos[i].offset as int,
                infos[i].offset + infos[i].compressed_size,
            ) == blocks[i]
            &&& forall|i: int| 0 <= i < blocks.len() ==> #[trigger] infos[i].offset + infos[i].compressed_size
                <= u32::MAX
            &&& forall|i: int| 0 <= i < blocks.len() - 1 ==> #[trigger] infos[i + 1].offset
                == infos[i].offset + infos[i].compressed_size
        }),
{
    let n = blocks.len();
    let sizes = spec_block_sizes(blocks);
    let hs = kind.spec_header_size(n as int);
    crate::compressor::lemma_blocks_read_back(kind, blocks);
    lemma_decode_encode(spec_type_number(kind, Storage::ResourceFork), size, Seq::empty());
    crate::compressor::lemma_block_positions(blocks, n as int);
    let infos = block_infos(hs, sizes);
    assert forall|i: int| 0 <= i < blocks.len() implies #[trigger] infos[i].offset
        + infos[i].compressed_size <= u32::MAX by {
        crate::bytes::lemma_seq_sum_prefix(sizes, i + 1);
        crate::bytes::lemma_seq_sum_prefix(sizes, i);
        crate::bytes::lemma_seq_sum_nonneg(sizes.take(i));
        lemma_seq_sum_step(sizes, i);
    }
    assert forall|i: int| 0 <= i < blocks.len() - 1 implies #[trigger] infos[i + 1].offset
        == infos[i].offset + infos[i].compressed_size by {
        crate::bytes::lemma_seq_sum_prefix(sizes, i + 1);
        crate::bytes::lemma_seq_sum_prefix(sizes, i);
        crate::bytes::lemma_seq_sum_nonneg(sizes.take(i));
        lemma_seq_sum_step(sizes, i);
    }
}

/// Reading on from block `i` of a table whose blocks lie one after another
/// in `fork`, from any position up to the start of block `i` that is also
/// the end of the block before, gives back the blocks from `i` on.
proof fn lemma_read_rest(fork: Seq<u8>, infos: Seq<BlockInfo>, blocks: Seq<Seq<u8>>, i: int, q: u64)
    requires
        0 <= i <= blocks.len(),
        infos.len() == blocks.len(),
        forall|k: int| 0 <= k < blocks.len() ==> #[trigger] infos[k].compressed_size == blocks[k].len(),
        forall|k: int|
            0 <= k < blocks.len() ==> #[trigger] infos[k].offset + infos[k].compressed_size
                <= fork.len(),
        forall|k: int|
            0 <= k < blocks.len() ==> #[trigger] infos[k].offset + infos[k].compressed_size
                <= u32::MAX,
        forall|k: int|
            0 <= k < blocks.len() - 1 ==> #[trigger] infos[k + 1].offset == infos[k].offset
                + infos[k].compressed_size,
        forall|k: int|
            0 <= k < blocks.len() ==> fork.subrange(
                #[trigger] infos[k].offset as int,
                infos[k].offset + infos[k].compressed_size,
            ) == blocks[k],
        i < blocks.len() ==> q <= infos[i].offset,
        q <= u32::MAX,
    ensures
        spec_read_all(fork, infos.skip(i), q, q as u32) == (Ok::<(), Error>(()), blocks.skip(i)),
    decreases blocks.len() - i,
{
    let n = blocks.len();
    if i == n {
        assert(infos.skip(i) =~= Seq::<BlockInfo>::empty());
        assert(blocks.skip(i) =~= Seq::<Seq<u8>>::empty());
    } else {
        let pending = infos.skip(i);
        let b = infos[i];
        assert(pending[0] == b);
        let off = b.offset;
        let size = b.compressed_size;
        assert(fork.subrange(off as int, off + size) == blocks[i]);
        let end = (off + size) as u64;
        let s = spec_read_fork_step(fork, pending, q, q as u32);
        assert(spec_checked_add_signed(q, (off - (q as u32)) as i64) == Some(off as u64));
        if size == 0 {
            assert(blocks[i] =~= Seq::<u8>::empty());
        }
        assert(s == (Ok::<bool, Error>(true), blocks[i], end, end as u32));
        lemma_read_rest(fork, infos, blocks, i + 1, end);
        assert(pending.drop_first() =~= infos.skip(i + 1));
        assert(blocks.skip(i) =~= seq![blocks[i]] + blocks.skip(i + 1));
    }
}

/// Reading a finished resource fork block by block, from its start, gives
/// back the blocks the writer stored there, in order, and then no more.
#[verifier::spinoff_prover]
pub proof fn lemma_read_back_blocks(kind: Kind, size: u64, blocks: Seq<Seq<u8>>)
    requires
        blocks.len() == spec_num_blocks(size),
        forall|k: int| 0 <= k < blocks.len() ==> #[trigger] blocks[k].len() <= u32::MAX,
        kind.spec_header_size(blocks.len() as int) + flatten(blocks).len() + 50 <= u32::MAX,
    ensures
        kind.spec_finish(spec_unfinished_fork(kind, blocks), spec_block_sizes(blocks)) is Ok,
        spec_read_all(
            kind.spec_finish(spec_unfinished_fork(kind, blocks), spec_block_sizes(blocks))->Ok_0,
            block_infos(kind.spec_header_size(blocks.len() as int), spec_block_sizes(blocks)),
            0,
            0,
        ) == (Ok::<(), Error>(()), blocks),
{
    let n = blocks.len();
    let sizes = spec_block_sizes(blocks);
    let hs = kind.spec_header_size(n as int);
    lemma_resource_fork_round_trip(kind, size, blocks);
    let old = spec_unfinished_fork(kind, blocks);
    let fork = kind.spec_finish(old, sizes)->Ok_0;
    let infos = block_infos(hs, sizes);
    crate::compressor::lemma_block_positions(blocks, n as int);
    assert(blocks.take(n as int) =~= blocks);
    assert(sizes.take(n as int) =~= sizes);
    match kind {
        Kind::Zlib => {
            crate::compressor::zlib::lemma_table_entries_len((4 + 8 * n) as int, sizes);
        },
        _ => {
            crate::compressor::lz::lemma_offsets_len(hs, sizes);
        },
    }
    assert(fork.len() >= hs + seq_sum(sizes));
    assert forall|k: int| 0 <= k < n implies #[trigger] infos[k].offset + infos[k].compressed_size
        <= fork.len() by {
        lemma_seq_sum_step(sizes, k);
        crate::bytes::lemma_seq_sum_prefix(sizes, k + 1);
        crate::bytes::lemma_seq_sum_prefix(sizes, k);
    }
    if n > 0 {
        assert(sizes.take(0) =~= Seq::<u32>::empty());
    }
    lemma_read_rest(fork, infos, blocks, 0, 0);
    assert(infos.skip(0) =~= infos);
    assert(blocks.skip(0) =~= blocks);
}

/// What a writer stores in the xattr is what a reader reads back: the xattr
/// names the compressor and the xattr, and its data is the stored block.
pub proof fn lemma_xattr_round_trip(kind: Kind, size: u64, block: Seq<u8>)
    ensures
        spec_decode(spec_encode(spec_type_number(kind, Storage::Xattr), size, block)) == Ok::<
            (u32, u64, Seq<u8>),
            DecodeError,
        >((spec_type_number(kind, Storage::Xattr), size, block)),
        spec_kind_storage(spec_type_number(kind, Storage::Xattr)) == Some((kind, Storage::Xattr)),
{
    lemma_decode_encode(spec_type_number(kind, Storage::Xattr), size, block);
}

/// What a writer makes of the blocks of a file, added one after another, a
/// reader gives back.  The writer keeps the blocks for the xattr exactly
/// when the file has at most one block of at most `MAX_XATTR_DATA_SIZE`
/// bytes; the xattr it writes decodes to the compressor, the storage, the
/// file size and, for the xattr, the block itself.  For the resource fork,
/// the finished fork's block table lists the blocks, and reading the blocks
/// one after another from its start gives them all back in order.
pub proof fn lemma_write_then_read(kind: Kind, size: u64, blocks: Seq<Seq<u8>>)
    requires
        blocks.len() == spec_num_blocks(size),
        forall|k: int| 0 <= k < blocks.len() ==> #[trigger] blocks[k].len() <= u32::MAX,
        kind.spec_header_size(blocks.len() as int) + flatten(blocks).len() + 50 <= u32::MAX,
    ensures
        ({
            let in_fork = spec_added(size, blocks).0;
            let stored = spec_added(size, blocks).1;
            let storage = if in_fork {
                Storage::ResourceFork
            } else {
                Storage::Xattr
            };
            let t = spec_type_number(kind, storage);
            let extra = if in_fork {
                Seq::<u8>::empty()
            } else {
                flatten(stored)
            };
            let hs = kind.spec_header_size(blocks.len() as int);
            let image = kind.spec_finish(spec_unfinished_fork(kind, stored), spec_block_sizes(stored));
            &&& !in_fork <==> (blocks.len() <= 1 && forall|i: int|
                0 <= i < blocks.len() ==> #[trigger] blocks[i].len() <= MAX_XATTR_DATA_SIZE)
            &&& spec_decode(spec_encode(t, size, extra)) == Ok::<(u32, u64, Seq<u8>), DecodeError>(
                (t, size, extra),
            )
            &&& spec_kind_storage(t) == Some((kind, storage))
            &&& !in_fork ==> extra == flatten(blocks)
            &&& in_fork ==> {
                &&& stored == blocks
                &&& kind.read_supported(spec_num_blocks(size))
                &&& image is Ok
                &&& kind.spec_read_block_info(image->Ok_0, spec_num_blocks(size)) == Ok::<
                    Seq<BlockInfo>,
                    Error,
                >(block_infos(hs, spec_block_sizes(blocks)))
                &&& spec_read_all(image->Ok_0, block_infos(hs, spec_block_sizes(blocks)), 0, 0) == (
                    Ok::<(), Error>(()),
                    blocks,
                )
            }
        }),
{
    lemma_storage_decision(size, blocks);
    let in_fork = spec_added(size, blocks).0;
    let stored = spec_added(size, blocks).1;
    if in_fork {
        lemma_resource_fork_round_trip(kind, size, blocks);
        lemma_read_back_blocks(kind, size, blocks);
    } else {
        lemma_xattr_round_trip(kind, size, flatten(stored));
    }
}

} // verus!
