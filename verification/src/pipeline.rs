//! Decisions of the compression pipeline: which scanned files go on to be
//! rewritten, how a file is cut into blocks while it is read, the budget that
//! the compressed blocks of a file must stay within, and the comparison of a
//! rewritten file with its original.
use crate::info::{FileCompressionState, FileInfo};
use crate::stats::Stats;
use crate::BLOCK_SIZE;
use vstd::prelude::*;

verus! {

/// One block of a file on its way to the writer: the bytes to store and the
/// number of bytes of the original file it stands for.
pub struct Chunk {
    pub block: Vec<u8>,
    pub orig_size: u64,
}

/// Whether a scanned file in state `state` is rewritten: compressed files
/// when decompressing, compressible files when compressing.
pub open spec fn spec_should_send<E>(state: FileCompressionState<E>, compressing: bool) -> bool {
    match state {
        FileCompressionState::Compressed => !compressing,
        FileCompressionState::Compressible => compressing,
        FileCompressionState::Incompressible(_) => false,
    }
}

/// Accounts for a scanned regular file of `len` bytes and decides whether it
/// is sent on to be rewritten.
///
/// The file is always counted as found.  A file that is sent is counted as
/// finished once it has been rewritten; a file that is not sent is counted
/// as finished at once, unless it cannot be compressed at all, in which case
/// it is not counted as finished.
pub fn scan_file<E>(stats: &mut Stats, compressing: bool, len: u64, file_info: &FileInfo<E>) -> (send: bool)
    ensures
        send == spec_should_send(file_info.compression_state, compressing),
        final(stats).files == old(stats).files.wrapping_add(1),
        final(stats).total_file_sizes == old(stats).total_file_sizes.wrapping_add(len),
        final(stats).compressed_size_start == old(stats).compressed_size_start.wrapping_add(
            file_info.on_disk_size,
        ),
        final(stats).compressed_file_count_start == if file_info.compression_state is Compressed {
            old(stats).compressed_file_count_start.wrapping_add(1)
        } else {
            old(stats).compressed_file_count_start
        },
        final(stats).incompressible_file_count == if file_info.compression_state is Incompressible {
            old(stats).incompressible_file_count.wrapping_add(1)
        } else {
            old(stats).incompressible_file_count
        },
        (send || file_info.compression_state is Incompressible) ==> {
            &&& final(stats).compressed_size_final == old(stats).compressed_size_final
            &&& final(stats).compressed_file_count_final == old(stats).compressed_file_count_final
        },
        (!send && !(file_info.compression_state is Incompressible)) ==> {
            &&& final(stats).compressed_size_final == old(stats).compressed_size_final.wrapping_add(
                file_info.on_disk_size,
            )
            &&& final(stats).compressed_file_count_final == if file_info.compression_state is Compressed {
                old(stats).compressed_file_count_final.wrapping_add(1)
            } else {
                old(stats).compressed_file_count_final
            }
        },
{
    stats.add_start_file(len, file_info);
    let send = match file_info.compression_state {
        FileCompressionState::Compressed => !compressing,
        FileCompressionState::Compressible => compressing,
        FileCompressionState::Incompressible(_) => {
            return false;
        },
    };
    if !send {
        stats.add_end_file(file_info);
    }
    send
}

/// What a read of a file gave, as judged by a `ChunkReader`.
#[derive(Debug, Clone, Copy, PartialEq, Eq, Structural)]
pub enum ReadOutcome {
    /// The bytes read form the next block; read again afterwards.
    Chunk,
    /// The whole file was read, and it had the expected length.
    Finished,
    /// The file is not as long as it was expected to be.
    SizeChanged,
}

/// What a `ChunkReader` expecting `expected` bytes, having read `total`,
/// makes of a read that gave `n` bytes: the outcome, and the new total.
pub open spec fn spec_record_read(expected: u64, total: u64, n: int) -> (ReadOutcome, u64) {
    if total == expected {
        if n == 0 {
            (ReadOutcome::Finished, total)
        } else {
            (ReadOutcome::SizeChanged, total)
        }
    } else if n == 0 || total + n > expected {
        (ReadOutcome::SizeChanged, total)
    } else {
        (ReadOutcome::Chunk, (total + n) as u64)
    }
}

/// Cuts a file of a known length into blocks of `BLOCK_SIZE` bytes while it
/// is read, and notices when the file turns out longer or shorter.
///
/// Once all the expected bytes have been read, one more read of a single
/// byte must find the end of the file.
pub struct ChunkReader {
    expected_len: u64,
    total_read: u64,
}

impl ChunkReader {
    #[verifier::type_invariant]
    spec fn never_past_expected(self) -> bool {
        self.total_read <= self.expected_len
    }

    /// The number of bytes the file is expected to hold.
    pub closed spec fn expected_len(self) -> u64 {
        self.expected_len
    }

    /// The number of bytes read so far.
    pub closed spec fn total_read(self) -> u64 {
        self.total_read
    }

    /// The number of bytes the next read asks for.
    pub open spec fn spec_next_read_len(self) -> usize {
        if self.total_read() == self.expected_len() {
            1
        } else {
            BLOCK_SIZE
        }
    }

    /// A reader for a file of `expected_len` bytes, with nothing read yet.
    pub fn new(expected_len: u64) -> (r: Self)
        ensures
            r.expected_len() == expected_len,
            r.total_read() == 0,
    {
        ChunkReader { expected_len, total_read: 0 }
    }

    /// The number of bytes the next read asks for: a whole block, or one
    /// byte once the expected length has been reached.
    pub fn next_read_len(&self) -> (n: usize)
        ensures
            n == self.spec_next_read_len(),
    {
        if self.total_read == self.expected_len {
            1
        } else {
            BLOCK_SIZE
        }
    }

    /// Records a read that gave `n` bytes, and says what to do next.
    ///
    /// A read past the expected length, or an empty read before it, means
    /// the file changed size; an empty read at the expected length means the
    /// file was read in full.
    pub fn record_read(&mut self, n: usize) -> (outcome: ReadOutcome)
        requires
            n <= old(self).spec_next_read_len(),
        ensures
            final(self).expected_len() == old(self).expected_len(),
            (outcome, final(self).total_read()) == spec_record_read(
                old(self).expected_len(),
                old(self).total_read(),
                n as int,
            ),
            final(self).total_read() <= final(self).expected_len(),
    {
        proof {
            use_type_invariant(&*self);
        }
        if self.total_read == self.expected_len {
            if n == 0 {
                ReadOutcome::Finished
            } else {
                ReadOutcome::SizeChanged
            }
        } else if n == 0 {
            ReadOutcome::SizeChanged
        } else {
            let room = self.expected_len - self.total_read;
            if (n as u64) > room {
                ReadOutcome::SizeChanged
            } else {
                self.total_read = self.total_read + n as u64;
                ReadOutcome::Chunk
            }
        }
    }
}

/// The outcomes that a `ChunkReader` expecting `expected` bytes, having read
/// `total` of them, meets while it reads the rest of a file that holds
/// `actual` bytes, each read giving as many bytes as were asked for or as
/// are left; the reading stops at the first outcome that is not `Chunk`.
pub open spec fn spec_read_outcomes(expected: u64, actual: nat, total: u64) -> Seq<ReadOutcome>
    decreases actual - total,
{
    let ask: int = if total == expected {
        1
    } else {
        BLOCK_SIZE as int
    };
    let left: int = if actual >= total {
        actual - total
    } else {
        0
    };
    let n: int = if ask < left {
        ask
    } else {
        left
    };
    let step = spec_record_read(expected, total, n);
    if step.0 is Chunk && total < step.1 <= actual {
        seq![step.0] + spec_read_outcomes(expected, actual, step.1)
    } else {
        seq![step.0]
    }
}

/// `n` blocks followed by the end of the file.
pub open spec fn chunks_then_finished(n: nat) -> Seq<ReadOutcome> {
    Seq::new(n, |i: int| ReadOutcome::Chunk).push(ReadOutcome::Finished)
}

proof fn lemma_read_unchanged_from(expected: u64, total: u64)
    requires
        total <= expected,
    ensures
        spec_read_outcomes(expected, expected as nat, total) == chunks_then_finished(
            ((expected - total + 0xffff) / 0x10000) as nat,
        ),
    decreases expected - total,
{
    let left = expected - total;
    if left == 0 {
        assert(spec_read_outcomes(expected, expected as nat, total) =~= chunks_then_finished(0));
    } else {
        let n: int = if (BLOCK_SIZE as int) < left {
            BLOCK_SIZE as int
        } else {
            left
        };
        let next = (total + n) as u64;
        lemma_read_unchanged_from(expected, next);
        let k = ((expected - next + 0xffff) / 0x10000) as nat;
        assert(((expected - total + 0xffff) / 0x10000) as nat == k + 1);
        assert(spec_read_outcomes(expected, expected as nat, total) =~= seq![ReadOutcome::Chunk]
            + chunks_then_finished(k));
        assert(seq![ReadOutcome::Chunk] + chunks_then_finished(k) =~= chunks_then_finished(k + 1));
    }
}

/// A file that still holds the expected number of bytes is read as
/// `num_blocks` blocks, after which its end is found.
pub proof fn lemma_read_unchanged_file(expected: u64)
    ensures
        spec_read_outcomes(expected, expected as nat, 0) == chunks_then_finished(
            crate::spec_num_blocks(expected),
        ),
{
    lemma_read_unchanged_from(expected, 0);
}

proof fn lemma_read_changed_from(expected: u64, actual: nat, total: u64)
    requires
        total <= expected,
        total <= actual,
    ensures
        spec_read_outcomes(expected, actual, total).len() > 0,
        spec_read_outcomes(expected, actual, total).last() is Finished <==> actual == expected,
        spec_read_outcomes(expected, actual, total).last() is Finished
            || spec_read_outcomes(expected, actual, total).last() is SizeChanged,
    decreases actual - total,
{
    let ask: int = if total == expected {
        1
    } else {
        BLOCK_SIZE as int
    };
    let left: int = actual - total;
    let n: int = if ask < left {
        ask
    } else {
        left
    };
    let step = spec_record_read(expected, total, n);
    if step.0 is Chunk && total < step.1 <= actual {
        lemma_read_changed_from(expected, actual, step.1);
        let rest = spec_read_outcomes(expected, actual, step.1);
        assert((seq![step.0] + rest).last() == rest.last());
    }
}

/// Reading ends in `Finished` exactly when the file still holds the
/// expected number of bytes, and in `SizeChanged` otherwise.
pub proof fn lemma_read_detects_size_change(expected: u64, actual: nat)
    ensures
        spec_read_outcomes(expected, actual, 0).len() > 0,
        spec_read_outcomes(expected, actual, 0).last() is Finished <==> actual == expected,
        spec_read_outcomes(expected, actual, 0).last() is SizeChanged <==> actual != expected,
{
    lemma_read_changed_from(expected, actual, 0);
}

/// The compressed size that a file may reach before it is judged not worth
/// compressing, and how much of it the blocks written so far have used.
pub struct CompressionBudget {
    max: u64,
    used: u64,
}

impl CompressionBudget {
    #[verifier::type_invariant]
    spec fn never_over_budget(self) -> bool {
        self.used <= self.max
    }

    /// The largest total size of compressed blocks allowed.
    pub closed spec fn max(self) -> u64 {
        self.max
    }

    /// The total size of the compressed blocks charged so far.
    pub closed spec fn used(self) -> u64 {
        self.used
    }

    /// A budget of `max` bytes, none of it used.
    pub fn new(max: u64) -> (b: Self)
        ensures
            b.max() == max,
            b.used() == 0,
    {
        CompressionBudget { max, used: 0 }
    }

    /// Charges a compressed block of `len` bytes; returns false, and charges
    /// nothing, when the total would exceed the budget.
    pub fn charge(&mut self, len: usize) -> (within: bool)
        ensures
            final(self).max() == old(self).max(),
            within <==> old(self).used() + len <= old(self).max(),
            within ==> final(self).used() == old(self).used() + len,
            !within ==> final(self).used() == old(self).used(),
            final(self).used() <= final(self).max(),
    {
        proof {
            use_type_invariant(&*self);
        }
        let room = self.max - self.used;
        if (len as u64) <= room {
            self.used = self.used + len as u64;
            true
        } else {
            false
        }
    }
}

/// The outcome of comparing the next buffered bytes of two files.
#[derive(Debug, Clone, Copy, PartialEq, Eq, Structural)]
pub enum CompareStep {
    /// Both files ended together: they are identical.
    Identical,
    /// The first `n` bytes of both buffers agree; consume them and go on.
    Consume(usize),
    /// One file ended before the other.
    SizeMismatch,
    /// The files hold different bytes.
    ContentMismatch,
}

/// What comparing buffers `l` and `r` of two files gives: an empty buffer
/// stands for the end of that file.
pub open spec fn spec_compare_step(l: Seq<u8>, r: Seq<u8>) -> CompareStep {
    if l.len() == 0 && r.len() == 0 {
        CompareStep::Identical
    } else if l.len() == 0 || r.len() == 0 {
        CompareStep::SizeMismatch
    } else {
        let n = if l.len() < r.len() { l.len() } else { r.len() };
        if l.take(n as int) == r.take(n as int) {
            CompareStep::Consume(n as usize)
        } else {
            CompareStep::ContentMismatch
        }
    }
}

/// Compares the next buffered bytes of two files over the length of the
/// shorter buffer.
pub fn compare_step(l: &[u8], r: &[u8]) -> (step: CompareStep)
    ensures
        step == spec_compare_step(l@, r@),
{
    if l.len() == 0 && r.len() == 0 {
        return CompareStep::Identical;
    }
    if l.len() == 0 || r.len() == 0 {
        return CompareStep::SizeMismatch;
    }
    let n = if l.len() < r.len() {
        l.len()
    } else {
        r.len()
    };
    let mut i: usize = 0;
    while i < n
        invariant
            n <= l@.len(),
            n <= r@.len(),
            i <= n,
            forall|k: int| 0 <= k < i ==> l@[k] == r@[k],
        decreases n - i,
    {
        if l[i] != r[i] {
            assert(l@.take(n as int)[i as int] != r@.take(n as int)[i as int]);
            return CompareStep::ContentMismatch;
        }
        i = i + 1;
    }
    assert(l@.take(n as int) =~= r@.take(n as int));
    CompareStep::Consume(n)
}


/// Whether `buf` is what a reader can hand out from the remaining bytes
/// `rest` of a file: a prefix of them, empty only at the end of the file.
/// (Buffers live in memory, so they are at most `usize::MAX` bytes long.)
pub open spec fn buffered_from(buf: Seq<u8>, rest: Seq<u8>) -> bool {
    &&& buf.len() <= rest.len()
    &&& buf == rest.take(buf.len() as int)
    &&& (buf.len() == 0 <==> rest.len() == 0)
}

/// One step of comparing two files whose remaining bytes are `a` and `b`,
/// through buffers filled from them: the files are judged identical exactly
/// when both have ended, only a part that both files start with is consumed,
/// and a mismatch is reported only when the files differ.
pub proof fn lemma_compare_step_judges_files(a: Seq<u8>, b: Seq<u8>, l: Seq<u8>, r: Seq<u8>)
    requires
        buffered_from(l, a),
        buffered_from(r, b),
        l.len() <= usize::MAX,
        r.len() <= usize::MAX,
    ensures
        spec_compare_step(l, r) is Identical <==> (a.len() == 0 && b.len() == 0),
        spec_compare_step(l, r) matches CompareStep::Consume(n) ==> 0 < n && n <= a.len() && n
            <= b.len() && a.take(n as int) == b.take(n as int),
        spec_compare_step(l, r) is SizeMismatch ==> a.len() != b.len(),
        spec_compare_step(l, r) is ContentMismatch ==> a != b,
        a == b ==> spec_compare_step(l, r) is Identical || spec_compare_step(l, r) is Consume,
{
    if l.len() > 0 && r.len() > 0 {
        let n: int = if l.len() < r.len() {
            l.len() as int
        } else {
            r.len() as int
        };
        assert(l.take(n) =~= a.take(n));
        assert(r.take(n) =~= b.take(n));
        assert((n as usize) as int == n);
        if a == b {
            assert(l.take(n) =~= r.take(n));
        }
    }
}

} // verus!
