//! The position arithmetic of a resource fork stored in the
//! `com.apple.ResourceFork` extended attribute, whose offsets are 32 bits.
use crate::{checked_add_signed, spec_checked_add_signed};
use vstd::prelude::*;

verus! {

/// A position to seek to, as `std::io::SeekFrom` gives it.
#[derive(Debug, Clone, Copy, PartialEq, Eq, Structural)]
pub enum SeekFrom {
    /// An offset from the start.
    Start(u64),
    /// A signed offset from the end.
    End(i64),
    /// A signed offset from the current position.
    Current(i64),
}

/// Why a read, write or seek in a resource fork cannot be done.
#[derive(Debug, Clone, Copy, PartialEq, Eq, Structural)]
pub enum ForkError {
    /// The position or length asked for is out of range.
    InvalidInput,
    /// The data would reach past the 32-bit offsets of a resource fork.
    TooLarge,
}

impl ForkError {
    /// A description of the error.
    pub fn message(self) -> (s: &'static str)
        ensures
            self is InvalidInput ==> s == "invalid input",
            self is TooLarge ==> s == "unable to fit resource fork in 32 bits",
    {
        match self {
            ForkError::InvalidInput => "invalid input",
            ForkError::TooLarge => "unable to fit resource fork in 32 bits",
        }
    }
}

/// The target of a seek from `offset` in a resource fork of `len` bytes.
pub open spec fn spec_seek_target(offset: u32, len: u64, pos: SeekFrom) -> Result<u32, ForkError> {
    let target = match pos {
        SeekFrom::Start(i) => Some(i),
        SeekFrom::End(i) => spec_checked_add_signed(len, i),
        SeekFrom::Current(i) => spec_checked_add_signed(offset as u64, i),
    };
    match target {
        Some(t) => if t <= u32::MAX {
            Ok(t as u32)
        } else {
            Err(ForkError::InvalidInput)
        },
        None => Err(ForkError::InvalidInput),
    }
}

/// The current offset into a resource fork.
pub struct ResourceForkCursor {
    offset: u32,
}

impl ResourceForkCursor {
    /// The current offset.
    pub closed spec fn offset(self) -> u32 {
        self.offset
    }

    /// A cursor at the start of the resource fork.
    pub fn new() -> (c: Self)
        ensures
            c.offset() == 0,
    {
        ResourceForkCursor { offset: 0 }
    }

    /// The current offset.
    pub fn position(&self) -> (p: u32)
        ensures
            p == self.offset(),
    {
        self.offset
    }

    /// Where a write of `len` bytes at the current offset ends, or why it
    /// cannot be made.
    pub fn write_end(&self, len: usize) -> (r: Result<u32, ForkError>)
        ensures
            len > u32::MAX ==> r == Err::<u32, ForkError>(ForkError::InvalidInput),
            len <= u32::MAX && self.offset() + len > u32::MAX ==> r == Err::<u32, ForkError>(
                ForkError::TooLarge,
            ),
            self.offset() + len <= u32::MAX ==> r == Ok::<u32, ForkError>(
                (self.offset() + len) as u32,
            ),
    {
        if len > 0xffff_ffff {
            return Err(ForkError::InvalidInput);
        }
        let len32 = len as u32;
        match self.offset.checked_add(len32) {
            Some(end) => Ok(end),
            None => Err(ForkError::TooLarge),
        }
    }

    /// Records a write of `len` bytes at the current offset, once the bytes
    /// are stored; a write that cannot be made changes nothing.
    pub fn wrote(&mut self, len: usize) -> (r: Result<usize, ForkError>)
        ensures
            r is Ok <==> old(self).offset() + len <= u32::MAX,
            r is Ok ==> r == Ok::<usize, ForkError>(len) && final(self).offset() == old(
                self,
            ).offset() + len,
            r is Err ==> final(self).offset() == old(self).offset(),
            len > u32::MAX ==> r == Err::<usize, ForkError>(ForkError::InvalidInput),
            len <= u32::MAX && old(self).offset() + len > u32::MAX ==> r == Err::<usize, ForkError>(
                ForkError::TooLarge,
            ),
    {
        match self.write_end(len) {
            Ok(end) => {
                self.offset = end;
                Ok(len)
            },
            Err(e) => Err(e),
        }
    }

    /// Seeks to `pos` in a resource fork that holds `len` bytes, and returns
    /// the new offset; the offset must fit in 32 bits.  A failed seek leaves
    /// the offset unchanged.
    pub fn seek(&mut self, pos: SeekFrom, len: u64) -> (r: Result<u64, ForkError>)
        ensures
            r == match spec_seek_target(old(self).offset(), len, pos) {
                Ok(t) => Ok::<u64, ForkError>(t as u64),
                Err(e) => Err(e),
            },
            final(self).offset() == match spec_seek_target(old(self).offset(), len, pos) {
                Ok(t) => t,
                Err(_) => old(self).offset(),
            },
    {
        let target = match pos {
            SeekFrom::Start(i) => Some(i),
            SeekFrom::End(i) => checked_add_signed(len, i),
            SeekFrom::Current(i) => checked_add_signed(self.offset as u64, i),
        };
        match target {
            Some(t) => if t <= 0xffff_ffff {
                self.offset = t as u32;
                Ok(t)
            } else {
                Err(ForkError::InvalidInput)
            },
            None => Err(ForkError::InvalidInput),
        }
    }

    /// The number of bytes a read into a buffer of `buf_len` bytes gives,
    /// when the fork reports `remaining` bytes from the current offset.
    /// Reading does not move the offset.
    pub fn read_len(&self, remaining: usize, buf_len: usize) -> (n: usize)
        ensures
            n == if remaining < buf_len {
                remaining
            } else {
                buf_len
            },
    {
        if remaining < buf_len {
            remaining
        } else {
            buf_len
        }
    }

    /// The number of bytes from the current offset to the end of a fork of
    /// `len` bytes; none when the offset is past the end.
    pub fn remaining(&self, len: usize) -> (n: usize)
        ensures
            n == if len >= self.offset() {
                len - self.offset()
            } else {
                0
            },
    {
        let offset = self.offset as usize;
        if len >= offset {
            len - offset
        } else {
            0
        }
    }
}

} // verus!
