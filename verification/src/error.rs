//! Errors of the library's parsers, writers and compressors.
use crate::decmpfs::DecodeError;
use vstd::prelude::*;

verus! {

/// The broad class of an [`Error`], as an I/O layer would report it.
#[derive(Debug, Copy, Clone, PartialEq, Eq, Structural)]
pub enum ErrorKind {
    InvalidInput,
    InvalidData,
    UnexpectedEof,
    WriteZero,
    Other,
}

/// A failure of one of the library's operations.
#[derive(Debug, Copy, Clone, PartialEq, Eq, Structural)]
pub enum Error {
    /// The decmpfs attribute could not be decoded.
    Decode(DecodeError),
    /// The compression type names no supported compressor and storage.
    Unsupported,
    /// The input ended before a complete value could be read.
    UnexpectedEof,
    /// The output buffer cannot hold the result.
    WriteZero,
    /// A compressed zlib stream could not be decoded.
    CorruptStream,
    /// The resource fork is larger than a 32-bit offset can address.
    ResourceForkTooLarge,
    /// More blocks than the block table can describe.
    TooManyBlocks,
    /// A position computed while seeking is negative or overflows.
    InvalidSeek,
    /// The zlib resource fork header is not the expected one.
    ZlibHeaderMismatch,
    /// The bytes between the zlib header and offset 0x100 are not zero.
    ZlibPaddingNotZero,
    /// The data length stored at offset 0x100 is not the expected one.
    ZlibDataLengthMismatch,
    /// The stored block count is not the one the file size implies.
    BlockCountMismatch,
    /// The zlib resource fork trailer is not the expected one.
    ZlibTrailerMismatch,
    /// A block offset cannot be represented in 32 bits.
    BlockOffsetOverflow,
    /// The first LZ block offset is not the end of the offset table.
    UnexpectedFirstOffset,
    /// An LZ block offset is smaller than the previous one.
    BlockOverlap,
    /// The last LZ block offset is not the end of the resource fork.
    LastBlockNotAtEnd,
    /// A running LZ block offset cannot be represented in 32 bits.
    OffsetOverflow,
    /// A running zlib block table offset cannot be represented in 32 bits.
    TableOffsetOverflow,
    /// The number of blocks written does not match the file size.
    WrongBlockCount,
}

impl Error {
    /// The class of the error.
    pub open spec fn spec_kind(self) -> ErrorKind {
        match self {
            Error::Decode(DecodeError::TooSmall) => ErrorKind::UnexpectedEof,
            Error::Decode(DecodeError::BadMagic) => ErrorKind::InvalidData,
            Error::Unsupported => ErrorKind::Other,
            Error::UnexpectedEof => ErrorKind::UnexpectedEof,
            Error::WriteZero => ErrorKind::WriteZero,
            Error::CorruptStream => ErrorKind::InvalidInput,
            Error::ResourceForkTooLarge => ErrorKind::InvalidInput,
            Error::TooManyBlocks => ErrorKind::InvalidInput,
            Error::InvalidSeek => ErrorKind::InvalidInput,
            Error::ZlibHeaderMismatch => ErrorKind::InvalidData,
            Error::ZlibPaddingNotZero => ErrorKind::InvalidData,
            Error::ZlibDataLengthMismatch => ErrorKind::InvalidData,
            Error::BlockCountMismatch => ErrorKind::InvalidData,
            Error::ZlibTrailerMismatch => ErrorKind::InvalidData,
            Error::BlockOffsetOverflow => ErrorKind::InvalidData,
            Error::UnexpectedFirstOffset => ErrorKind::Other,
            Error::BlockOverlap => ErrorKind::Other,
            Error::LastBlockNotAtEnd => ErrorKind::Other,
            Error::OffsetOverflow => ErrorKind::Other,
            Error::TableOffsetOverflow => ErrorKind::Other,
            Error::WrongBlockCount => ErrorKind::InvalidInput,
        }
    }

    /// The class of the error.
    pub fn kind(self) -> (k: ErrorKind)
        ensures
            k == self.spec_kind(),
    {
        match self {
            Error::Decode(DecodeError::TooSmall) => ErrorKind::UnexpectedEof,
            Error::Decode(DecodeError::BadMagic) => ErrorKind::InvalidData,
            Error::Unsupported => ErrorKind::Other,
            Error::UnexpectedEof => ErrorKind::UnexpectedEof,
            Error::WriteZero => ErrorKind::WriteZero,
            Error::CorruptStream => ErrorKind::InvalidInput,
            Error::ResourceForkTooLarge => ErrorKind::InvalidInput,
            Error::TooManyBlocks => ErrorKind::InvalidInput,
            Error::InvalidSeek => ErrorKind::InvalidInput,
            Error::ZlibHeaderMismatch => ErrorKind::InvalidData,
            Error::ZlibPaddingNotZero => ErrorKind::InvalidData,
            Error::ZlibDataLengthMismatch => ErrorKind::InvalidData,
            Error::BlockCountMismatch => ErrorKind::InvalidData,
            Error::ZlibTrailerMismatch => ErrorKind::InvalidData,
            Error::BlockOffsetOverflow => ErrorKind::InvalidData,
            Error::UnexpectedFirstOffset => ErrorKind::Other,
            Error::BlockOverlap => ErrorKind::Other,
            Error::LastBlockNotAtEnd => ErrorKind::Other,
            Error::OffsetOverflow => ErrorKind::Other,
            Error::TableOffsetOverflow => ErrorKind::Other,
            Error::WrongBlockCount => ErrorKind::InvalidInput,
        }
    }

    /// The description of each error.
    pub open spec fn spec_message(self) -> &'static str {
        match self {
            Error::Decode(DecodeError::TooSmall) => "decmpfs xattr too small to hold compression header",
            Error::Decode(DecodeError::BadMagic) => "decmpfs xattr magic field has incorrect value",
            Error::Unsupported => "unsupported compression kind or storage",
            Error::UnexpectedEof => "failed to fill whole buffer",
            Error::WriteZero => "failed to write whole buffer",
            Error::CorruptStream => "corrupt deflate stream",
            Error::ResourceForkTooLarge => "resource fork exceeds u32 range",
            Error::TooManyBlocks => "too many blocks for a 32-bit block table",
            Error::InvalidSeek => "invalid seek to a negative or overflowing position",
            Error::ZlibHeaderMismatch => "zlib header does not match expectation",
            Error::ZlibPaddingNotZero => "expected zeros between header and 0x100",
            Error::ZlibDataLengthMismatch => "unexpected data at 0x100",
            Error::BlockCountMismatch => "block count does not match computed value",
            Error::ZlibTrailerMismatch => "trailer does not match",
            Error::BlockOffsetOverflow => "block offset too large for 32 bits",
            Error::UnexpectedFirstOffset => "unexpected first block offset",
            Error::BlockOverlap => "compressed block overlap",
            Error::LastBlockNotAtEnd => "last block does not end resource fork",
            Error::OffsetOverflow => "Unable to represent offset in 32 bits",
            Error::TableOffsetOverflow => "offset too large for 32 bytes",
            Error::WrongBlockCount => "Wrong number of blocks",
        }
    }

    /// A human-readable description of the error.
    pub fn message(self) -> (m: &'static str)
        ensures
            m == self.spec_message(),
    {
        match self {
            Error::Decode(DecodeError::TooSmall) => "decmpfs xattr too small to hold compression header",
            Error::Decode(DecodeError::BadMagic) => "decmpfs xattr magic field has incorrect value",
            Error::Unsupported => "unsupported compression kind or storage",
            Error::UnexpectedEof => "failed to fill whole buffer",
            Error::WriteZero => "failed to write whole buffer",
            Error::CorruptStream => "corrupt deflate stream",
            Error::ResourceForkTooLarge => "resource fork exceeds u32 range",
            Error::TooManyBlocks => "too many blocks for a 32-bit block table",
            Error::InvalidSeek => "invalid seek to a negative or overflowing position",
            Error::ZlibHeaderMismatch => "zlib header does not match expectation",
            Error::ZlibPaddingNotZero => "expected zeros between header and 0x100",
            Error::ZlibDataLengthMismatch => "unexpected data at 0x100",
            Error::BlockCountMismatch => "block count does not match computed value",
            Error::ZlibTrailerMismatch => "trailer does not match",
            Error::BlockOffsetOverflow => "block offset too large for 32 bits",
            Error::UnexpectedFirstOffset => "unexpected first block offset",
            Error::BlockOverlap => "compressed block overlap",
            Error::LastBlockNotAtEnd => "last block does not end resource fork",
            Error::OffsetOverflow => "Unable to represent offset in 32 bits",
            Error::TableOffsetOverflow => "offset too large for 32 bytes",
            Error::WrongBlockCount => "Wrong number of blocks",
        }
    }
}

} // verus!
