//! A file that is kept in memory until it grows past a capacity, and is then
//! rolled over into a real file.  The library keeps the bytes in memory and
//! makes every decision; writing to the real file is left to the caller.
use crate::bytes::{flatten, lemma_flatten_push};
use crate::rfork::SeekFrom;
use crate::{checked_add_signed, spec_checked_add_signed};
use vstd::prelude::*;

verus! {

/// The bytes of `data` after writing `buf` at position `pos`, as a cursor
/// over a vector writes: a gap before `pos` is filled with zeros, bytes
/// under `buf` are overwritten, and the vector grows as needed.
pub open spec fn spec_cursor_write(data: Seq<u8>, pos: int, buf: Seq<u8>) -> Seq<u8> {
    let padded = if pos <= data.len() {
        data
    } else {
        data + Seq::new((pos - data.len()) as nat, |i: int| 0u8)
    };
    let end = pos + buf.len();
    padded.take(pos) + buf + if end < padded.len() {
        padded.skip(end)
    } else {
        Seq::empty()
    }
}

/// What a cursor write leaves: the bytes written at `pos`, the bytes
/// before `pos` as they were (zeros where there were none), and the bytes
/// after the write as they were.
pub proof fn lemma_cursor_write_reads_back(data: Seq<u8>, pos: nat, buf: Seq<u8>)
    ensures
        spec_cursor_write(data, pos as int, buf).len() == if pos + buf.len() > data.len() {
            (pos + buf.len()) as int
        } else {
            data.len() as int
        },
        spec_cursor_write(data, pos as int, buf).subrange(pos as int, (pos + buf.len()) as int) == buf,
        forall|k: int|
            0 <= k < pos ==> #[trigger] spec_cursor_write(data, pos as int, buf)[k] == if k
                < data.len() {
                data[k]
            } else {
                0u8
            },
        forall|k: int|
            pos + buf.len() <= k < data.len() ==> #[trigger] spec_cursor_write(data, pos as int, buf)[k]
                == data[k],
{
    let w = spec_cursor_write(data, pos as int, buf);
    assert(w.subrange(pos as int, (pos + buf.len()) as int) =~= buf);
}

/// The bytes and position of a cursor over `data` at `pos` after `bufs`
/// are written in order.
pub open spec fn spec_write_all(data: Seq<u8>, pos: int, bufs: Seq<Seq<u8>>) -> (Seq<u8>, int)
    decreases bufs.len(),
{
    if bufs.len() == 0 {
        (data, pos)
    } else {
        let prev = spec_write_all(data, pos, bufs.drop_last());
        (spec_cursor_write(prev.0, prev.1, bufs.last()), prev.1 + bufs.last().len())
    }
}

/// Writes one after another into an empty cursor, from its start, leave
/// exactly their concatenation, with the cursor at its end; and no write
/// ends past the total length, so that writes whose total fits in a spooled
/// file's capacity all stay in memory.
pub proof fn lemma_consecutive_writes(bufs: Seq<Seq<u8>>)
    ensures
        spec_write_all(Seq::empty(), 0, bufs) == (flatten(bufs), flatten(bufs).len() as int),
        forall|i: int|
            0 <= i < bufs.len() ==> spec_write_all(Seq::empty(), 0, bufs.take(i)).1
                + (#[trigger] bufs[i]).len() <= flatten(bufs).len(),
    decreases bufs.len(),
{
    if bufs.len() > 0 {
        let init = bufs.drop_last();
        lemma_consecutive_writes(init);
        let prev = flatten(init);
        assert(spec_cursor_write(prev, prev.len() as int, bufs.last()) =~= prev + bufs.last());
        assert forall|i: int|
            0 <= i < bufs.len() implies spec_write_all(Seq::empty(), 0, bufs.take(i)).1
            + (#[trigger] bufs[i]).len() <= flatten(bufs).len() by {
            if i < bufs.len() - 1 {
                assert(init.take(i) =~= bufs.take(i));
                assert(init[i] == bufs[i]);
            } else {
                assert(bufs.take(i) =~= init);
            }
        }
    }
}

/// Writing `a` then `b` is writing `a + b`.
proof fn lemma_write_all_split(data: Seq<u8>, pos: int, a: Seq<Seq<u8>>, b: Seq<Seq<u8>>)
    ensures
        spec_write_all(data, pos, a + b) == spec_write_all(
            spec_write_all(data, pos, a).0,
            spec_write_all(data, pos, a).1,
            b,
        ),
    decreases b.len(),
{
    if b.len() == 0 {
        assert(a + b =~= a);
    } else {
        lemma_write_all_split(data, pos, a, b.drop_last());
        assert((a + b).drop_last() =~= a + b.drop_last());
        assert((a + b).last() == b.last());
    }
}

/// Where writes made one after another from the start of a spooled file
/// that keeps `capacity` bytes in memory roll it over into the real file:
/// `None` if every write ends within the capacity, else the first write
/// that would end past it.
pub open spec fn spec_roll_point(capacity: int, writes: Seq<Seq<u8>>) -> Option<int>
    decreases writes.len(),
{
    if writes.len() == 0 {
        None
    } else {
        match spec_roll_point(capacity, writes.drop_last()) {
            Some(i) => Some(i),
            None => if flatten(writes).len() > capacity {
                Some(writes.len() - 1)
            } else {
                None
            },
        }
    }
}

/// The bytes written before write `j` end where write `j` starts.
proof fn lemma_prefix_step(writes: Seq<Seq<u8>>, j: int)
    requires
        0 <= j < writes.len(),
    ensures
        flatten(writes.take(j)).len() + writes[j].len() == flatten(writes.take(j + 1)).len(),
{
    assert(writes.take(j + 1) =~= writes.take(j).push(writes[j]));
    lemma_flatten_push(writes.take(j), writes[j]);
}

/// Handing over what writes `0..i` left, and making the rest from there,
/// leaves what making all of them does.
proof fn lemma_handover(writes: Seq<Seq<u8>>, i: int)
    requires
        0 <= i <= writes.len(),
    ensures
        spec_write_all(Seq::empty(), 0, writes.take(i)) == (
            flatten(writes.take(i)),
            flatten(writes.take(i)).len() as int,
        ),
        spec_write_all(flatten(writes.take(i)), flatten(writes.take(i)).len() as int, writes.skip(i))
            == spec_write_all(Seq::empty(), 0, writes),
{
    lemma_consecutive_writes(writes.take(i));
    lemma_write_all_split(Seq::empty(), 0, writes.take(i), writes.skip(i));
    assert(writes.take(i) + writes.skip(i) =~= writes);
}

/// Writes made one after another into a spooled file from its start stay
/// in memory while each ends within the capacity, and then hold exactly
/// their concatenation.  The first write that would end past the capacity
/// rolls the file over: the bytes handed over are exactly those written
/// before, with the position at their end, and the writes from there on,
/// made in the real file at that position, leave the same bytes as if all
/// had been made in memory.
pub proof fn lemma_spool_roll(capacity: int, writes: Seq<Seq<u8>>)
    ensures
        match spec_roll_point(capacity, writes) {
            None => forall|j: int|
                0 <= j < writes.len() ==> flatten(writes.take(j)).len() + (#[trigger] writes[j]).len()
                    <= capacity,
            Some(i) => {
                &&& 0 <= i < writes.len()
                &&& forall|j: int|
                    0 <= j < i ==> flatten(writes.take(j)).len() + (#[trigger] writes[j]).len()
                        <= capacity
                &&& flatten(writes.take(i)).len() + writes[i].len() > capacity
                &&& spec_write_all(Seq::empty(), 0, writes.take(i)) == (
                    flatten(writes.take(i)),
                    flatten(writes.take(i)).len() as int,
                )
                &&& spec_write_all(
                    flatten(writes.take(i)),
                    flatten(writes.take(i)).len() as int,
                    writes.skip(i),
                ) == spec_write_all(Seq::empty(), 0, writes)
            },
        },
        spec_write_all(Seq::empty(), 0, writes) == (flatten(writes), flatten(writes).len() as int),
    decreases writes.len(),
{
    lemma_consecutive_writes(writes);
    if writes.len() > 0 {
        let n = writes.len();
        let init = writes.drop_last();
        lemma_spool_roll(capacity, init);
        let m = if spec_roll_point(capacity, init) is Some {
            spec_roll_point(capacity, init)->Some_0
        } else {
            n - 1
        };
        assert forall|j: int| 0 <= j < m implies flatten(writes.take(j)).len() + (
        #[trigger] writes[j]).len() <= capacity by {
            assert(writes.take(j) =~= init.take(j));
            assert(init[j] == writes[j]);
        }
        if spec_roll_point(capacity, init) is Some {
            let i = m;
            assert(writes.take(i) =~= init.take(i));
            assert(init[i] == writes[i]);
            lemma_handover(writes, i);
        } else {
            assert(writes.take(n - 1) =~= init);
            lemma_prefix_step(writes, n - 1);
            assert(writes.take(n as int) =~= writes);
            if flatten(writes).len() > capacity {
                lemma_handover(writes, n - 1);
            }
        }
    }
}

/// Bytes in memory with a position, as `std::io::Cursor<Vec<u8>>` holds them.
#[derive(Debug)]
pub struct MemoryCursor {
    data: Vec<u8>,
    position: u64,
}

impl MemoryCursor {
    /// The bytes held.
    pub closed spec fn data(&self) -> Seq<u8> {
        self.data@
    }

    /// The position of the next write.
    pub closed spec fn pos(&self) -> u64 {
        self.position
    }

    /// A cursor at the start of `data`.
    pub fn new(data: Vec<u8>) -> (c: Self)
        ensures
            c.data() == data@,
            c.pos() == 0,
    {
        MemoryCursor { data, position: 0 }
    }

    /// The position of the next write.
    pub fn position(&self) -> (p: u64)
        ensures
            p == self.pos(),
    {
        self.position
    }

    /// Moves to position `pos`, which may lie past the end.
    pub fn set_position(&mut self, pos: u64)
        ensures
            final(self).pos() == pos,
            final(self).data() == old(self).data(),
    {
        self.position = pos;
    }

    /// The bytes held.
    pub fn get_ref(&self) -> (d: &Vec<u8>)
        ensures
            d@ == self.data(),
    {
        &self.data
    }

    /// The bytes held, giving up the cursor.
    pub fn into_inner(self) -> (d: Vec<u8>)
        ensures
            d@ == self.data(),
    {
        self.data
    }

    /// Writes all of `buf` at the position, and moves past it.
    pub fn write(&mut self, buf: &[u8]) -> (n: usize)
        requires
            old(self).pos() + buf@.len() <= usize::MAX,
        ensures
            n == buf@.len(),
            final(self).data() == spec_cursor_write(old(self).data(), old(self).pos() as int, buf@),
            final(self).pos() == old(self).pos() + buf@.len(),
    {
        let pos = self.position as usize;
        let ghost orig = self.data@;
        let ghost padded = if pos <= orig.len() {
            orig
        } else {
            orig + Seq::new((pos - orig.len()) as nat, |i: int| 0u8)
        };
        while self.data.len() < pos
            invariant
                pos == old(self).pos(),
                self.position == old(self).pos(),
                orig == old(self).data(),
                pos > orig.len() ==> self.data@.len() <= pos,
                pos <= orig.len() ==> self.data@ == orig,
                orig.len() <= self.data@.len(),
                self.data@.take(orig.len() as int) == orig,
                forall|k: int| orig.len() <= k < self.data@.len() ==> self.data@[k] == 0u8,
            decreases pos - self.data@.len(),
        {
            self.data.push(0u8);
        }
        proof {
            assert(self.data@ =~= padded);
        }
        let mut j: usize = 0;
        while j < buf.len()
            invariant
                pos + buf@.len() <= usize::MAX,
                pos == old(self).pos(),
                self.position == old(self).pos(),
                j <= buf@.len(),
                padded.len() >= pos,
                self.data@.len() == if pos + j > padded.len() {
                    (pos + j) as int
                } else {
                    padded.len() as int
                },
                forall|k: int| 0 <= k < pos ==> self.data@[k] == padded[k],
                forall|k: int| 0 <= k < j ==> self.data@[pos + k] == buf@[k],
                forall|k: int| pos + j <= k < self.data@.len() ==> self.data@[k] == padded[k],
            decreases buf@.len() - j,
        {
            if pos + j < self.data.len() {
                self.data.set(pos + j, buf[j]);
            } else {
                self.data.push(buf[j]);
            }
            j = j + 1;
        }
        proof {
            assert(self.data@ =~= spec_cursor_write(orig, pos as int, buf@));
        }
        self.position = self.position + buf.len() as u64;
        buf.len()
    }
}

/// Where the data of a spooled file is: in memory, or in a real file.
#[derive(Debug)]
pub enum SpooledData<W> {
    Memory(MemoryCursor),
    File(W),
}

/// What a seek of a spooled file comes to.
#[derive(Debug, Clone, Copy, PartialEq, Eq, Structural)]
pub enum SpoolSeek {
    /// The seek was done in memory; the new position.
    Done(u64),
    /// The position asked for is out of range.
    InvalidInput,
    /// The position lies past the capacity: roll over, then seek the file.
    NeedsRoll,
    /// The data is in a real file: seek it there.
    InFile,
}

/// A file kept in memory, up to `capacity` bytes, until it is rolled over
/// into the real file that `create` makes.
pub struct SpooledFile<W, F> {
    data: SpooledData<W>,
    create: Option<F>,
    capacity: usize,
}

impl<W, F: FnOnce() -> W> SpooledFile<W, F> {
    /// Whether the data is still in memory.
    pub closed spec fn in_memory(&self) -> bool {
        self.data is Memory
    }

    /// The bytes held in memory.
    pub closed spec fn memory(&self) -> Seq<u8> {
        self.data->Memory_0.data()
    }

    /// The position in memory.
    pub closed spec fn memory_pos(&self) -> u64 {
        self.data->Memory_0.pos()
    }

    /// The most bytes held in memory.
    pub closed spec fn capacity(&self) -> usize {
        self.capacity
    }

    /// The file the data was rolled over into.
    pub closed spec fn file(&self) -> W {
        self.data->File_0
    }

    /// Whether the real file is still to be made.
    pub closed spec fn can_create(&self) -> bool {
        self.create is Some
    }

    /// What makes the real file.
    pub closed spec fn creator(&self) -> F {
        self.create->Some_0
    }

    /// Where the data is.
    pub closed spec fn spec_data(&self) -> SpooledData<W> {
        self.data
    }

    /// The data is in memory exactly while the real file is still to be made.
    pub open spec fn wf(&self) -> bool {
        self.in_memory() <==> self.can_create()
    }

    /// A spooled file with nothing written, that keeps up to `capacity`
    /// bytes in memory and calls `create` to make the real file.
    pub fn new(capacity: usize, create: F) -> (s: Self)
        ensures
            s.wf(),
            s.in_memory(),
            s.memory() == Seq::<u8>::empty(),
            s.memory_pos() == 0,
            s.capacity() == capacity,
    {
        SpooledFile {
            data: SpooledData::Memory(MemoryCursor::new(Vec::new())),
            create: Some(create),
            capacity,
        }
    }

    /// Whether a write of `len` bytes must first roll the data over: it
    /// would reach past the capacity while the data is in memory (the end
    /// of the write is counted in `usize`, saturating).
    pub fn write_needs_roll(&self, len: usize) -> (b: bool)
        ensures
            b == (self.in_memory() && (if self.memory_pos() + len > usize::MAX {
                usize::MAX as int
            } else {
                self.memory_pos() + len
            }) > self.capacity()),
    {
        match &self.data {
            SpooledData::Memory(m) => {
                let end: u128 = m.position() as u128 + len as u128;
                let end = if end > usize::MAX as u128 {
                    usize::MAX
                } else {
                    end as usize
                };
                end > self.capacity
            },
            SpooledData::File(_) => false,
        }
    }

    /// Writes `buf` in memory, where it fits there; `None` when the data is
    /// in the real file, which the caller then writes to.
    pub fn write_memory(&mut self, buf: &[u8]) -> (r: Option<usize>)
        requires
            old(self).in_memory() ==> old(self).memory_pos() + buf@.len() <= old(self).capacity(),
        ensures
            r is None <==> !old(self).in_memory(),
            r is None ==> *final(self) == *old(self),
            r is Some ==> {
                &&& r == Some(buf@.len() as usize)
                &&& final(self).in_memory()
                &&& final(self).wf() == old(self).wf()
                &&& final(self).capacity() == old(self).capacity()
                &&& final(self).memory() == spec_cursor_write(
                    old(self).memory(),
                    old(self).memory_pos() as int,
                    buf@,
                )
                &&& final(self).memory_pos() == old(self).memory_pos() + buf@.len()
            },
    {
        match &mut self.data {
            SpooledData::Memory(m) => Some(m.write(buf)),
            SpooledData::File(_) => None,
        }
    }

    /// Seeks in memory (see `SpoolSeek`): the target is the offset from the
    /// start, from the end of the bytes held, or from the position.
    pub fn seek_memory(&mut self, pos: SeekFrom) -> (r: SpoolSeek)
        ensures
            !old(self).in_memory() ==> r == SpoolSeek::InFile && *final(self) == *old(self),
            old(self).in_memory() ==> {
                let target = match pos {
                    SeekFrom::Start(i) => Some(i),
                    SeekFrom::End(i) => spec_checked_add_signed(old(self).memory().len() as u64, i),
                    SeekFrom::Current(i) => spec_checked_add_signed(old(self).memory_pos(), i),
                };
                match target {
                    None => r == SpoolSeek::InvalidInput && *final(self) == *old(self),
                    Some(t) => if t > old(self).capacity() {
                        r == SpoolSeek::NeedsRoll && *final(self) == *old(self)
                    } else {
                        &&& r == SpoolSeek::Done(t)
                        &&& final(self).in_memory()
                        &&& final(self).wf() == old(self).wf()
                        &&& final(self).capacity() == old(self).capacity()
                        &&& final(self).memory() == old(self).memory()
                        &&& final(self).memory_pos() == t
                    },
                }
            },
    {
        let capacity = self.capacity;
        match &mut self.data {
            SpooledData::Memory(m) => {
                let target = match pos {
                    SeekFrom::Start(i) => Some(i),
                    SeekFrom::End(i) => {
                        let len = crate::bytes::len_u64(m.get_ref().as_slice());
                        checked_add_signed(len, i)
                    },
                    SeekFrom::Current(i) => checked_add_signed(m.position(), i),
                };
                match target {
                    None => SpoolSeek::InvalidInput,
                    Some(t) => if t > capacity as u64 {
                        SpoolSeek::NeedsRoll
                    } else {
                        m.set_position(t);
                        SpoolSeek::Done(t)
                    },
                }
            },
            SpooledData::File(_) => SpoolSeek::InFile,
        }
    }

    /// Starts rolling over: makes the real file and takes the bytes held in
    /// memory, with the position, for the caller to write to the file and
    /// seek it to.  Does nothing once the data is in a file.
    pub fn take_for_roll(&mut self) -> (r: Option<(W, Vec<u8>, u64)>)
        requires
            old(self).wf(),
            old(self).in_memory() ==> call_requires(old(self).creator(), ()),
        ensures
            r is None <==> !old(self).in_memory(),
            r is None ==> *final(self) == *old(self),
            r matches Some((file, data, offset)) ==> {
                &&& call_ensures(old(self).creator(), (), file)
                &&& data@ == old(self).memory()
                &&& offset == old(self).memory_pos()
                &&& final(self).in_memory()
                &&& final(self).memory() == Seq::<u8>::empty()
                &&& final(self).memory_pos() == 0
                &&& !final(self).can_create()
                &&& final(self).capacity() == old(self).capacity()
            },
    {
        if let SpooledData::File(_) = &self.data {
            return None;
        }
        let create = self.create.take();
        let file = match create {
            Some(create) => create(),
            None => {
                return None;
            },
        };
        let mut taken = SpooledData::Memory(MemoryCursor::new(Vec::new()));
        std::mem::swap(&mut taken, &mut self.data);
        match taken {
            SpooledData::Memory(m) => {
                let offset = m.position();
                Some((file, m.into_inner(), offset))
            },
            SpooledData::File(_) => None,
        }
    }

    /// Completes rolling over once the bytes are in `file`: from now on the
    /// data is in the file.
    pub fn finish_roll(&mut self, file: W)
        ensures
            !final(self).in_memory(),
            final(self).file() == file,
            final(self).can_create() == old(self).can_create(),
            final(self).capacity() == old(self).capacity(),
    {
        self.data = SpooledData::File(file);
    }

    /// Whether the data is still in memory.
    pub fn is_in_memory(&self) -> (b: bool)
        ensures
            b == self.in_memory(),
    {
        match &self.data {
            SpooledData::Memory(_) => true,
            SpooledData::File(_) => false,
        }
    }

    /// The data, in memory or in the real file.
    pub fn finish(self) -> (d: SpooledData<W>)
        ensures
            d == self.spec_data(),
    {
        self.data
    }
}

} // verus!
