//! Builds the decmpfs xattr and, when needed, the resource fork of a
//! compressed file from its compressed blocks.
//!
//! A file of at most one block whose compressed block fits in the xattr is
//! stored inline; any other file keeps its blocks in the resource fork, after
//! a header that is written when the writer finishes.  The writer does not
//! hold the resource fork: it says where each block goes, and, when it
//! finishes, what goes before and after the blocks.
use crate::bytes::{flatten, lemma_flatten_push};
use crate::compressor::{spec_block_sizes, spec_unfinished_fork, Kind};
use crate::decmpfs::{spec_encode, spec_type_number, CompressionType, Storage, Value, MAX_XATTR_DATA_SIZE};
use crate::error::Error;
use crate::{num_blocks, spec_num_blocks};
use vstd::prelude::*;

verus! {

enum WriterState {
    /// At most one block, kept to be stored in the xattr.
    SingleBlock { block: Vec<u8> },
    /// Blocks written to the resource fork after space for its header; the
    /// fork is `fork_len` bytes long so far.
    MultipleBlocks { block_sizes: Vec<u32>, fork_len: u64 },
}

/// Where an added block goes.
#[derive(Debug, PartialEq, Eq)]
pub enum BlockDest {
    /// The block is kept, to be stored in the xattr.
    Xattr,
    /// The block is to be written to the resource fork at `offset`.
    ResourceFork { offset: u64, block: Vec<u8> },
}

/// What goes around the blocks of a finished resource fork: `head` at its
/// start (header and block table), `tail` at `data_end`, where the blocks end.
#[derive(Debug, PartialEq, Eq)]
pub struct ForkParts {
    pub head: Vec<u8>,
    pub tail: Vec<u8>,
    pub data_end: u64,
}

/// Collects the compressed blocks of one file.
pub struct Writer {
    kind: Kind,
    uncompressed_size: u64,
    state: WriterState,
    stored: Ghost<Seq<Seq<u8>>>,
}

/// Whether `n` blocks is the number of blocks of a file of `size` bytes.
fn block_count_matches(n: usize, size: u64) -> (r: bool)
    ensures
        r == (n == spec_num_blocks(size)),
{
    n as u64 == num_blocks(size)
}

/// Where a writer keeps its blocks, and which it stores, after a block
/// `b` is added to a writer in state (`in_resource_fork`, `stored`): once in
/// the resource fork, every block is stored there; otherwise a block too
/// large for the xattr moves the file to the resource fork, and a smaller
/// one is kept for the xattr (an empty one stores nothing).
pub open spec fn spec_add_step(in_resource_fork: bool, stored: Seq<Seq<u8>>, b: Seq<u8>) -> (
    bool,
    Seq<Seq<u8>>,
) {
    if in_resource_fork {
        (true, stored.push(b))
    } else if b.len() > MAX_XATTR_DATA_SIZE {
        (true, seq![b])
    } else if b.len() == 0 {
        (false, Seq::empty())
    } else {
        (false, seq![b])
    }
}

/// Where a writer for a file of `size` bytes keeps its blocks, and which it
/// stores, after `blocks` are added in order.
pub open spec fn spec_added(size: u64, blocks: Seq<Seq<u8>>) -> (bool, Seq<Seq<u8>>)
    decreases blocks.len(),
{
    if blocks.len() == 0 {
        (spec_num_blocks(size) > 1, Seq::empty())
    } else {
        let prev = spec_added(size, blocks.drop_last());
        spec_add_step(prev.0, prev.1, blocks.last())
    }
}

/// A writer given the blocks of a file, as many as the file has, keeps them
/// for the xattr exactly when the file has at most one block and it is at
/// most `MAX_XATTR_DATA_SIZE` bytes, and then stores that block; otherwise
/// it stores all of them, in order, in the resource fork.
pub proof fn lemma_storage_decision(size: u64, blocks: Seq<Seq<u8>>)
    requires
        blocks.len() == spec_num_blocks(size),
    ensures
        !spec_added(size, blocks).0 <==> (blocks.len() <= 1 && forall|i: int|
            0 <= i < blocks.len() ==> #[trigger] blocks[i].len() <= MAX_XATTR_DATA_SIZE),
        spec_added(size, blocks).0 ==> spec_added(size, blocks).1 == blocks,
        !spec_added(size, blocks).0 ==> flatten(spec_added(size, blocks).1) == flatten(blocks),
{
    if blocks.len() <= 1 {
        if blocks.len() == 1 {
            assert(blocks.drop_last() =~= Seq::<Seq<u8>>::empty());
            assert(spec_added(size, blocks.drop_last()) == (false, Seq::<Seq<u8>>::empty()));
            assert(blocks.last() == blocks[0]);
            assert(blocks =~= seq![blocks[0]]);
            lemma_flatten_push(Seq::<Seq<u8>>::empty(), blocks[0]);
            assert(Seq::<Seq<u8>>::empty().push(blocks[0]) =~= seq![blocks[0]]);
        }
    } else {
        lemma_all_in_resource_fork(size, blocks);
    }
}

/// A writer for a file of more than one block stores every block added, in
/// order, in the resource fork.
proof fn lemma_all_in_resource_fork(size: u64, blocks: Seq<Seq<u8>>)
    requires
        spec_num_blocks(size) > 1,
    ensures
        spec_added(size, blocks) == (true, blocks),
    decreases blocks.len(),
{
    if blocks.len() == 0 {
    } else {
        lemma_all_in_resource_fork(size, blocks.drop_last());
        assert(blocks.drop_last().push(blocks.last()) =~= blocks);
    }
}

/// The unfinished resource fork is header space of zeros, then the blocks.
proof fn lemma_unfinished_fork_split(kind: Kind, blocks: Seq<Seq<u8>>)
    ensures
        spec_unfinished_fork(kind, blocks) == Seq::new(
            kind.spec_header_size(spec_block_sizes(blocks).len() as int) as nat,
            |i: int| 0u8,
        ) + flatten(blocks),
{
}

impl Writer {
    /// The compression algorithm.
    pub closed spec fn kind(&self) -> Kind {
        self.kind
    }

    /// The size of the file before compression.
    pub closed spec fn uncompressed_size(&self) -> u64 {
        self.uncompressed_size
    }

    /// Whether the blocks go to the resource fork.
    pub closed spec fn in_resource_fork(&self) -> bool {
        self.state is MultipleBlocks
    }

    /// The blocks that will be stored: in the resource fork, all blocks added
    /// since it was chosen; in the xattr, the block added unless it is empty.
    pub closed spec fn stored_blocks(&self) -> Seq<Seq<u8>> {
        self.stored@
    }

    /// The offset at which blocks start in the resource fork.
    pub open spec fn header_size(&self) -> int {
        self.kind().spec_header_size(spec_num_blocks(self.uncompressed_size()) as int)
    }

    /// The length of the resource fork so far (its header space if the blocks
    /// are still kept for the xattr).
    pub open spec fn fork_len(&self) -> int {
        if self.in_resource_fork() {
            self.header_size() + flatten(self.stored_blocks()).len()
        } else {
            self.header_size()
        }
    }

    /// The writer's internal consistency: the header fits in 32 bits, every
    /// stored block does too, and the state holds exactly the stored blocks.
    #[verifier::type_invariant]
    spec fn wf(&self) -> bool {
        &&& self.header_size() <= u32::MAX
        &&& forall|i: int|
            0 <= i < self.stored@.len() ==> #[trigger] self.stored@[i].len() <= u32::MAX
        &&& match self.state {
            WriterState::SingleBlock { block } => {
                &&& self.stored@ == if block@.len() == 0 {
                    Seq::<Seq<u8>>::empty()
                } else {
                    seq![block@]
                }
                &&& block@.len() <= u32::MAX
            },
            WriterState::MultipleBlocks { block_sizes, fork_len } => {
                &&& block_sizes@ == spec_block_sizes(self.stored@)
                &&& fork_len == self.header_size() + flatten(self.stored@).len()
            },
        }
    }

    /// Whether a block of `len` bytes may be added: it fits in 32 bits, a
    /// file kept for the xattr has no block yet, and the length of the
    /// resource fork stays within 64 bits.
    pub open spec fn accepts_block(&self, len: int) -> bool {
        &&& len <= u32::MAX
        &&& !self.in_resource_fork() ==> self.stored_blocks().len() == 0
        &&& self.fork_len() + len <= u64::MAX
    }

    /// Whether a writer can be made for a file of `uncompressed_size` bytes
    /// compressed with `kind`: its resource fork header must fit in 32 bits.
    pub fn supports(kind: Kind, uncompressed_size: u64) -> (b: bool)
        ensures
            b == (kind.spec_header_size(spec_num_blocks(uncompressed_size) as int) <= u32::MAX),
    {
        let n = num_blocks(uncompressed_size);
        if n > 0xffff_ffff {
            return false;
        }
        kind.header_size(n) <= 0xffff_ffff
    }

    /// Whether a block of `len` bytes may be added (see `accepts_block`).
    pub fn can_add_block(&self, len: usize) -> (b: bool)
        ensures
            b == self.accepts_block(len as int),
    {
        proof {
            use_type_invariant(self);
        }
        if len > 0xffff_ffff {
            return false;
        }
        match &self.state {
            WriterState::SingleBlock { block } => {
                if block.len() != 0 {
                    return false;
                }
                let header_size = self.kind.header_size(num_blocks(self.uncompressed_size));
                header_size <= u64::MAX - len as u64
            },
            WriterState::MultipleBlocks { fork_len, .. } => *fork_len <= u64::MAX - len as u64,
        }
    }

    /// A writer for a file of `uncompressed_size` bytes compressed with `kind`.
    pub fn new(kind: Kind, uncompressed_size: u64) -> (w: Self)
        requires
            kind.spec_header_size(spec_num_blocks(uncompressed_size) as int) <= u32::MAX,
        ensures
            w.kind() == kind,
            w.uncompressed_size() == uncompressed_size,
            w.stored_blocks() == Seq::<Seq<u8>>::empty(),
            w.in_resource_fork() == (spec_num_blocks(uncompressed_size) > 1),
            (w.in_resource_fork(), w.stored_blocks()) == spec_added(uncompressed_size, Seq::empty()),
    {
        let block_count = num_blocks(uncompressed_size);
        let state = if block_count > 1 {
            let header_size = kind.header_size(block_count);
            assert(flatten(Seq::<Seq<u8>>::empty()).len() == 0);
            WriterState::MultipleBlocks { block_sizes: Vec::new(), fork_len: header_size }
        } else {
            WriterState::SingleBlock { block: Vec::new() }
        };
        assert(spec_block_sizes(Seq::<Seq<u8>>::empty()) =~= Seq::<u32>::empty());
        Writer { kind, uncompressed_size, state, stored: Ghost(Seq::empty()) }
    }

    /// Adds the next compressed block, and says where it goes: kept for the
    /// xattr, or to be written to the resource fork at the end of what the
    /// fork holds so far.
    ///
    /// A block too large for the xattr moves the file to the resource fork.
    pub fn add_block(&mut self, new_block: Vec<u8>) -> (r: Result<BlockDest, Error>)
        requires
            old(self).accepts_block(new_block@.len() as int),
        ensures
            r is Ok,
            r == Ok::<BlockDest, Error>(BlockDest::Xattr) <==> (!old(self).in_resource_fork()
                && new_block@.len() <= MAX_XATTR_DATA_SIZE),
            r matches Ok(BlockDest::ResourceFork { offset, block }) ==> offset == old(self).fork_len()
                && block@ == new_block@,
            final(self).kind() == old(self).kind(),
            final(self).uncompressed_size() == old(self).uncompressed_size(),
            (final(self).in_resource_fork(), final(self).stored_blocks()) == spec_add_step(
                old(self).in_resource_fork(),
                old(self).stored_blocks(),
                new_block@,
            ),
            old(self).in_resource_fork() ==> final(self).in_resource_fork()
                && final(self).stored_blocks() == old(self).stored_blocks().push(new_block@),
            !old(self).in_resource_fork() && new_block@.len() > MAX_XATTR_DATA_SIZE
                ==> final(self).in_resource_fork() && final(self).stored_blocks() == seq![
                new_block@,
            ],
            !old(self).in_resource_fork() && new_block@.len() <= MAX_XATTR_DATA_SIZE
                ==> !final(self).in_resource_fork() && final(self).stored_blocks() == if new_block@.len()
                == 0 {
                Seq::<Seq<u8>>::empty()
            } else {
                seq![new_block@]
            },
    {
        proof {
            use_type_invariant(&*self);
        }
        let mut taken = Writer {
            kind: self.kind,
            uncompressed_size: self.uncompressed_size,
            state: WriterState::SingleBlock { block: Vec::new() },
            stored: Ghost(Seq::empty()),
        };
        std::mem::swap(self, &mut taken);
        proof {
            use_type_invariant(&taken);
        }
        let Writer { kind, uncompressed_size, state, stored } = taken;
        let ghost old_stored = stored@;
        let header_size = kind.header_size(num_blocks(uncompressed_size));
        match state {
            WriterState::SingleBlock { block: _ } => {
                if new_block.len() > MAX_XATTR_DATA_SIZE {
                    let len = new_block.len() as u64;
                    let mut block_sizes: Vec<u32> = Vec::new();
                    block_sizes.push(new_block.len() as u32);
                    let ghost one = seq![new_block@];
                    proof {
                        lemma_flatten_push(Seq::<Seq<u8>>::empty(), new_block@);
                        assert(Seq::<Seq<u8>>::empty().push(new_block@) =~= seq![new_block@]);
                        assert(spec_block_sizes(seq![new_block@]) =~= block_sizes@);
                    }
                    *self = Writer {
                        kind,
                        uncompressed_size,
                        state: WriterState::MultipleBlocks {
                            block_sizes,
                            fork_len: header_size + len,
                        },
                        stored: Ghost(one),
                    };
                    return Ok(BlockDest::ResourceFork { offset: header_size, block: new_block });
                } else {
                    let ghost now = if new_block@.len() == 0 {
                        Seq::<Seq<u8>>::empty()
                    } else {
                        seq![new_block@]
                    };
                    *self = Writer {
                        kind,
                        uncompressed_size,
                        state: WriterState::SingleBlock { block: new_block },
                        stored: Ghost(now),
                    };
                    return Ok(BlockDest::Xattr);
                }
            },
            WriterState::MultipleBlocks { mut block_sizes, fork_len } => {
                block_sizes.push(new_block.len() as u32);
                let ghost now = old_stored.push(new_block@);
                proof {
                    lemma_flatten_push(old_stored, new_block@);
                    assert(spec_block_sizes(old_stored.push(new_block@)) =~= block_sizes@);
                    assert forall|k: int| 0 <= k < now.len() implies #[trigger] now[k].len()
                        <= u32::MAX by {
                        if k < old_stored.len() {
                            assert(now[k] == old_stored[k]);
                        }
                    }
                }
                let new_len = fork_len + new_block.len() as u64;
                *self = Writer {
                    kind,
                    uncompressed_size,
                    state: WriterState::MultipleBlocks { block_sizes, fork_len: new_len },
                    stored: Ghost(now),
                };
                Ok(BlockDest::ResourceFork { offset: fork_len, block: new_block })
            },
        }
    }

    /// Finishes the file: appends its decmpfs xattr to `dst`, and, if the
    /// blocks are stored in the resource fork, returns what goes around them
    /// there: the finished fork is `head`, the blocks in order, then `tail`.
    pub fn finish_decmpfs_data(self, dst: &mut Vec<u8>) -> (r: Result<Option<ForkParts>, Error>)
        ensures
            !self.in_resource_fork() ==> r == Ok::<Option<ForkParts>, Error>(None) && final(dst)@
                == old(dst)@ + spec_encode(
                spec_type_number(self.kind(), Storage::Xattr),
                self.uncompressed_size(),
                flatten(self.stored_blocks()),
            ),
            self.in_resource_fork() && self.stored_blocks().len() != spec_num_blocks(
                self.uncompressed_size(),
            ) ==> r == Err::<Option<ForkParts>, Error>(Error::WrongBlockCount) && final(dst)@
                == old(dst)@,
            self.in_resource_fork() && self.stored_blocks().len() == spec_num_blocks(
                self.uncompressed_size(),
            ) ==> match self.kind().spec_finish(
                spec_unfinished_fork(self.kind(), self.stored_blocks()),
                spec_block_sizes(self.stored_blocks()),
            ) {
                Ok(image) => r matches Ok(Some(parts)) && parts.head@ + flatten(self.stored_blocks())
                    + parts.tail@ == image && parts.head@.len() == self.header_size()
                    && parts.data_end == self.fork_len() && final(dst)@ == old(dst)@ + spec_encode(
                    spec_type_number(self.kind(), Storage::ResourceFork),
                    self.uncompressed_size(),
                    Seq::empty(),
                ),
                Err(e) => r == Err::<Option<ForkParts>, Error>(e) && final(dst)@ == old(dst)@,
            },
    {
        proof {
            use_type_invariant(&self);
        }
        let kind = self.kind;
        let uncompressed_size = self.uncompressed_size;
        let ghost stored = self.stored@;
        match self.state {
            WriterState::SingleBlock { block } => {
                assert(flatten(stored) =~= block@) by {
                    if block@.len() != 0 {
                        lemma_flatten_push(Seq::<Seq<u8>>::empty(), block@);
                        assert(Seq::<Seq<u8>>::empty().push(block@) =~= stored);
                    }
                }
                let value = Value {
                    compression_type: CompressionType::new(kind, Storage::Xattr),
                    uncompressed_size,
                    extra_data: block.as_slice(),
                };
                value.write_to(dst);
                Ok(None)
            },
            WriterState::MultipleBlocks { block_sizes, fork_len } => {
                if !block_count_matches(block_sizes.len(), uncompressed_size) {
                    return Err(Error::WrongBlockCount);
                }
                proof {
                    lemma_unfinished_fork_split(kind, stored);
                }
                match kind.finish_parts(fork_len, block_sizes.as_slice(), Ghost(flatten(stored))) {
                    Err(e) => Err(e),
                    Ok((head, tail)) => {
                        let empty: Vec<u8> = Vec::new();
                        let value = Value {
                            compression_type: CompressionType::new(kind, Storage::ResourceFork),
                            uncompressed_size,
                            extra_data: empty.as_slice(),
                        };
                        value.write_to(dst);
                        Ok(Some(ForkParts { head, tail, data_end: fork_len }))
                    },
                }
            },
        }
    }
}

} // verus!
