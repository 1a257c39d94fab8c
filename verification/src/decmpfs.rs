//! The `com.apple.decmpfs` extended attribute: a 16-byte header
//! (magic, compression type, uncompressed size) followed by optional inline
//! compressed data, plus the block table entries of compressed resource forks.
use crate::bytes::{from_le32, from_le64, le32, le64, push_le32, push_le64, read_le32};
use crate::compressor::Kind;
use crate::text::{push_decimal, spec_decimal};
use vstd::string::StringExecFns;
use vstd::prelude::*;

verus! {

/// The length of the decmpfs xattr header.
pub const HEADER_LEN: usize = 16;

/// The maximum size of a decmpfs xattr.
pub const MAX_XATTR_SIZE: usize = 3802;

/// The maximum size of the data in a decmpfs xattr (following the header).
pub const MAX_XATTR_DATA_SIZE: usize = 3786;

/// The offset in a zlib resource fork at which block offsets are counted.
pub const ZLIB_BLOCK_TABLE_START: u64 = 0x104;

/// The magic bytes `fpmc` that open every decmpfs xattr.
pub open spec fn spec_magic() -> Seq<u8> {
    seq![0x66u8, 0x70u8, 0x6du8, 0x63u8]
}

/// The magic bytes `fpmc` that open every decmpfs xattr.
pub fn magic() -> (m: Vec<u8>)
    ensures
        m@ == spec_magic(),
{
    let m = vec![0x66u8, 0x70u8, 0x6du8, 0x63u8];
    assert(m@ =~= spec_magic());
    m
}

/// Where the compressed data of a file is stored.
#[derive(Debug, Copy, Clone, PartialEq, Eq, Structural)]
pub enum Storage {
    /// The decmpfs header is followed by a single compressed block.
    Xattr,
    /// The compressed data is stored separately, in the resource fork.
    ResourceFork,
}

impl Storage {
    /// How the storage location is described to users.
    pub fn description(self) -> (s: &'static str)
        ensures
            s@ == self.spec_description(),
            self is Xattr ==> s == "decmpfs xattr",
            self is ResourceFork ==> s == "resource fork",
    {
        match self {
            Storage::Xattr => "decmpfs xattr",
            Storage::ResourceFork => "resource fork",
        }
    }
}

impl Storage {
    /// How the location is shown to users.
    pub open spec fn spec_description(self) -> Seq<char> {
        match self {
            Storage::Xattr => "decmpfs xattr"@,
            Storage::ResourceFork => "resource fork"@,
        }
    }
}

/// The raw decmpfs compression type of a compressor kind and storage location.
pub open spec fn spec_type_number(kind: Kind, storage: Storage) -> u32 {
    match (kind, storage) {
        (Kind::Zlib, Storage::Xattr) => 3,
        (Kind::Zlib, Storage::ResourceFork) => 4,
        (Kind::Lzvn, Storage::Xattr) => 7,
        (Kind::Lzvn, Storage::ResourceFork) => 8,
        (Kind::Lzfse, Storage::Xattr) => 11,
        (Kind::Lzfse, Storage::ResourceFork) => 12,
    }
}

/// The compressor kind and storage location that a raw type number names, if any.
pub open spec fn spec_kind_storage(n: u32) -> Option<(Kind, Storage)> {
    if n == 3 {
        Some((Kind::Zlib, Storage::Xattr))
    } else if n == 4 {
        Some((Kind::Zlib, Storage::ResourceFork))
    } else if n == 7 {
        Some((Kind::Lzvn, Storage::Xattr))
    } else if n == 8 {
        Some((Kind::Lzvn, Storage::ResourceFork))
    } else if n == 11 {
        Some((Kind::Lzfse, Storage::Xattr))
    } else if n == 12 {
        Some((Kind::Lzfse, Storage::ResourceFork))
    } else {
        None
    }
}

/// A combination of the compressor kind and where the compressed data is stored.
#[derive(Debug, Copy, Clone, PartialEq, Eq, Structural)]
pub struct CompressionType(u32);

impl CompressionType {
    /// The raw type number.
    pub closed spec fn raw(self) -> u32 {
        self.0
    }

    /// A compression type is its raw number: two with the same number are
    /// the same, so `from_raw_type(t.raw_type())` gives `t` back.
    pub proof fn lemma_raw_determines(self, other: Self)
        requires
            self.raw() == other.raw(),
        ensures
            self == other,
    {
    }

    /// The compression type for a compressor stored in a location.
    pub fn new(compressor: Kind, storage: Storage) -> (t: Self)
        ensures
            t.raw() == spec_type_number(compressor, storage),
    {
        let val = match (compressor, storage) {
            (Kind::Zlib, Storage::Xattr) => 3,
            (Kind::Zlib, Storage::ResourceFork) => 4,
            (Kind::Lzvn, Storage::Xattr) => 7,
            (Kind::Lzvn, Storage::ResourceFork) => 8,
            (Kind::Lzfse, Storage::Xattr) => 11,
            (Kind::Lzfse, Storage::ResourceFork) => 12,
        };
        CompressionType(val)
    }

    /// The compressor kind and storage location this type names, if it names one.
    pub fn compression_storage(self) -> (r: Option<(Kind, Storage)>)
        ensures
            r == spec_kind_storage(self.raw()),
    {
        match self.0 {
            3 => Some((Kind::Zlib, Storage::Xattr)),
            4 => Some((Kind::Zlib, Storage::ResourceFork)),
            7 => Some((Kind::Lzvn, Storage::Xattr)),
            8 => Some((Kind::Lzvn, Storage::ResourceFork)),
            11 => Some((Kind::Lzfse, Storage::Xattr)),
            12 => Some((Kind::Lzfse, Storage::ResourceFork)),
            _ => None,
        }
    }

    /// The compression type with the given raw number.
    pub fn from_raw_type(n: u32) -> (t: Self)
        ensures
            t.raw() == n,
    {
        CompressionType(n)
    }

    /// The raw type number.
    pub fn raw_type(self) -> (n: u32)
        ensures
            n == self.raw(),
    {
        self.0
    }

    /// How the compression type is shown to users: its compressor and
    /// storage location, or its number if it names none.
    pub open spec fn spec_text(self) -> Seq<char> {
        match spec_kind_storage(self.raw()) {
            Some((kind, storage)) => kind.spec_name() + " in "@ + storage.spec_description(),
            None => "unknown compression type: "@ + spec_decimal(self.raw() as nat),
        }
    }

    /// How the compression type is shown to users.
    pub fn to_text(self) -> (s: String)
        ensures
            s@ == self.spec_text(),
    {
        let mut s = String::new();
        match self.compression_storage() {
            Some((kind, storage)) => {
                s.append(kind.name());
                s.append(" in ");
                s.append(storage.description());
            },
            None => {
                s.append("unknown compression type: ");
                push_decimal(&mut s, self.0 as u64);
            },
        }
        s
    }
}

/// Every compressor kind and storage location has a compression type, which
/// names that kind and location again.
pub proof fn lemma_compression_type_roundtrip(kind: Kind, storage: Storage)
    ensures
        spec_kind_storage(spec_type_number(kind, storage)) == Some((kind, storage)),
{
}

/// Every type number that names a kind and storage is the number of that pair.
pub proof fn lemma_compression_type_numbers(n: u32)
    ensures
        spec_kind_storage(n) matches Some((k, s)) ==> spec_type_number(k, s) == n,
{
}

/// Why a decmpfs xattr could not be decoded.
#[derive(Debug, Copy, Clone, PartialEq, Eq, Structural)]
pub enum DecodeError {
    /// Fewer than `HEADER_LEN` bytes.
    TooSmall,
    /// The magic field is not `fpmc`.
    BadMagic,
}

impl DecodeError {
    /// A human-readable description of the error.
    pub fn message(self) -> (s: &'static str)
        ensures
            self is TooSmall ==> s == "decmpfs xattr too small to hold compression header",
            self is BadMagic ==> s == "decmpfs xattr magic field has incorrect value",
    {
        match self {
            DecodeError::TooSmall => "decmpfs xattr too small to hold compression header",
            DecodeError::BadMagic => "decmpfs xattr magic field has incorrect value",
        }
    }
}

/// The bytes of a decmpfs xattr with the given fields.
pub open spec fn spec_encode(compression_type: u32, uncompressed_size: u64, extra: Seq<u8>) -> Seq<u8> {
    spec_magic() + le32(compression_type) + le64(uncompressed_size) + extra
}

/// The fields of a decmpfs xattr: compression type, uncompressed size and the
/// data after the header; or why it cannot be decoded.
pub open spec fn spec_decode(data: Seq<u8>) -> Result<(u32, u64, Seq<u8>), DecodeError> {
    if data.len() < 16 {
        Err(DecodeError::TooSmall)
    } else if data.subrange(0, 4) != spec_magic() {
        Err(DecodeError::BadMagic)
    } else {
        Ok((read_le32(data, 4), from_le64(data.subrange(8, 16)), data.subrange(16, data.len() as int)))
    }
}

/// A decoded decmpfs xattr.
#[derive(Debug, Copy, Clone)]
pub struct Value<'a> {
    pub compression_type: CompressionType,
    pub uncompressed_size: u64,
    pub extra_data: &'a [u8],
}

impl<'a> Value<'a> {
    /// Decodes a decmpfs xattr.
    pub fn from_data(data: &'a [u8]) -> (r: Result<Self, DecodeError>)
        ensures
            match (r, spec_decode(data@)) {
                (Ok(v), Ok((t, size, extra))) => v.compression_type.raw() == t
                    && v.uncompressed_size == size && v.extra_data@ == extra,
                (Err(e), Err(f)) => e == f,
                _ => false,
            },
    {
        if data.len() < HEADER_LEN {
            return Err(DecodeError::TooSmall);
        }
        let (header, extra_data) = data.split_at(HEADER_LEN);
        let m = magic();
        if header[0] != m[0] || header[1] != m[1] || header[2] != m[2] || header[3] != m[3] {
            proof {
                if data@.subrange(0, 4) == spec_magic() {
                    assert(data@.subrange(0, 4)[0] == header@[0]);
                    assert(data@.subrange(0, 4)[1] == header@[1]);
                    assert(data@.subrange(0, 4)[2] == header@[2]);
                    assert(data@.subrange(0, 4)[3] == header@[3]);
                }
            }
            return Err(DecodeError::BadMagic);
        }
        assert(data@.subrange(0, 4) =~= spec_magic());
        let compression_type = (header[4] as u32) | (header[5] as u32) << 8 | (header[6] as u32)
            << 16 | (header[7] as u32) << 24;
        let uncompressed_size = (header[8] as u64) | (header[9] as u64) << 8 | (header[10] as u64)
            << 16 | (header[11] as u64) << 24 | (header[12] as u64) << 32 | (header[13] as u64)
            << 40 | (header[14] as u64) << 48 | (header[15] as u64) << 56;
        assert(data@.subrange(8, 16)[0] == header@[8]);
        assert(data@.subrange(8, 16)[1] == header@[9]);
        assert(data@.subrange(8, 16)[2] == header@[10]);
        assert(data@.subrange(8, 16)[3] == header@[11]);
        assert(data@.subrange(8, 16)[4] == header@[12]);
        assert(data@.subrange(8, 16)[5] == header@[13]);
        assert(data@.subrange(8, 16)[6] == header@[14]);
        assert(data@.subrange(8, 16)[7] == header@[15]);
        assert(extra_data@ =~= data@.subrange(16, data@.len() as int));
        Ok(Value {
            compression_type: CompressionType::from_raw_type(compression_type),
            uncompressed_size,
            extra_data,
        })
    }

    /// The 16 header bytes of this value.
    fn header_bytes(self) -> (r: Vec<u8>)
        ensures
            r@ == spec_magic() + le32(self.compression_type.raw()) + le64(self.uncompressed_size),
    {
        let mut result = magic();
        push_le32(&mut result, self.compression_type.raw_type());
        push_le64(&mut result, self.uncompressed_size);
        result
    }

    /// Appends the encoded xattr (header, then extra data) to `dst`.
    pub fn write_to(self, dst: &mut Vec<u8>)
        ensures
            final(dst)@ == old(dst)@ + spec_encode(
                self.compression_type.raw(),
                self.uncompressed_size,
                self.extra_data@,
            ),
    {
        let header = self.header_bytes();
        dst.extend_from_slice(header.as_slice());
        dst.extend_from_slice(self.extra_data);
        assert(final(dst)@ =~= old(dst)@ + spec_encode(
            self.compression_type.raw(),
            self.uncompressed_size,
            self.extra_data@,
        ));
    }

    /// The length of the encoded xattr.
    pub fn len(self) -> (n: usize)
        requires
            self.extra_data@.len() + 16 <= usize::MAX,
        ensures
            n == 16 + self.extra_data@.len(),
    {
        HEADER_LEN + self.extra_data.len()
    }
}

/// Decoding the bytes of a decmpfs xattr gives back its fields.
pub proof fn lemma_decode_encode(compression_type: u32, uncompressed_size: u64, extra: Seq<u8>)
    ensures
        spec_decode(spec_encode(compression_type, uncompressed_size, extra)) == Ok::<
            (u32, u64, Seq<u8>),
            DecodeError,
        >((compression_type, uncompressed_size, extra)),
{
    let d = spec_encode(compression_type, uncompressed_size, extra);
    crate::bytes::lemma_le32_roundtrip(compression_type);
    crate::bytes::lemma_le64_roundtrip(uncompressed_size);
    assert(d.subrange(0, 4) =~= spec_magic());
    assert(d.subrange(8, 16) =~= le64(uncompressed_size));
    assert(d.subrange(16, d.len() as int) =~= extra);
    let l = le32(compression_type);
    assert(d[4] == l[0] && d[5] == l[1] && d[6] == l[2] && d[7] == l[3]);
}

/// A decmpfs xattr that decodes is exactly the encoding of its fields.
pub proof fn lemma_encode_decode(data: Seq<u8>)
    ensures
        spec_decode(data) matches Ok((t, size, extra)) ==> spec_encode(t, size, extra) == data,
{
    if let Ok((t, size, extra)) = spec_decode(data) {
        let h = data.subrange(8, 16);
        crate::bytes::lemma_le64_to_from(h);
        crate::bytes::lemma_le32_to_from(data[4], data[5], data[6], data[7]);
        assert(spec_encode(t, size, extra) =~= data);
    }
}

/// The entry of a zlib block table: where a compressed block starts and how long it is.
#[derive(Debug, Copy, Clone, PartialEq, Eq, Structural)]
pub struct BlockInfo {
    pub offset: u32,
    pub compressed_size: u32,
}

impl BlockInfo {
    /// The size of an encoded entry.
    pub const SIZE: usize = 8;

    /// Decodes an entry from its eight little-endian bytes.
    pub fn from_bytes(data: [u8; 8]) -> (r: Self)
        ensures
            r.offset == from_le32(data@[0], data@[1], data@[2], data@[3]),
            r.compressed_size == from_le32(data@[4], data@[5], data@[6], data@[7]),
    {
        let offset = (data[0] as u32) | (data[1] as u32) << 8 | (data[2] as u32) << 16 | (data[3]
            as u32) << 24;
        let compressed_size = (data[4] as u32) | (data[5] as u32) << 8 | (data[6] as u32) << 16
            | (data[7] as u32) << 24;
        BlockInfo { offset, compressed_size }
    }

    /// Encodes the entry as eight little-endian bytes.
    pub fn to_bytes(self) -> (r: [u8; 8])
        ensures
            r@ == le32(self.offset) + le32(self.compressed_size),
    {
        let o = self.offset;
        let s = self.compressed_size;
        let r = [
            (o & 0xff) as u8,
            ((o >> 8) & 0xff) as u8,
            ((o >> 16) & 0xff) as u8,
            ((o >> 24) & 0xff) as u8,
            (s & 0xff) as u8,
            ((s >> 8) & 0xff) as u8,
            ((s >> 16) & 0xff) as u8,
            ((s >> 24) & 0xff) as u8,
        ];
        assert(r@ =~= le32(self.offset) + le32(self.compressed_size));
        r
    }
}

/// Decoding the bytes of a block table entry gives back the entry.
pub proof fn lemma_block_info_roundtrip(b: BlockInfo)
    ensures
        ({
            let s = le32(b.offset) + le32(b.compressed_size);
            from_le32(s[0], s[1], s[2], s[3]) == b.offset && from_le32(s[4], s[5], s[6], s[7])
                == b.compressed_size
        }),
{
    crate::bytes::lemma_le32_roundtrip(b.offset);
    crate::bytes::lemma_le32_roundtrip(b.compressed_size);
}

/// The 16-byte header of a decmpfs xattr, with the compression type as a raw number.
#[derive(Debug, Copy, Clone)]
pub struct DiskHeader {
    pub compression_type: u32,
    pub uncompressed_size: u64,
}

impl DiskHeader {
    /// The size of an encoded header.
    pub const SIZE: usize = 16;

    /// Appends the encoded header to `w`.
    pub fn write_into(&self, w: &mut Vec<u8>)
        ensures
            final(w)@ == old(w)@ + spec_encode(
                self.compression_type,
                self.uncompressed_size,
                Seq::empty(),
            ),
    {
        let m = magic();
        w.extend_from_slice(m.as_slice());
        push_le32(w, self.compression_type);
        push_le64(w, self.uncompressed_size);
        assert(final(w)@ =~= old(w)@ + spec_encode(
            self.compression_type,
            self.uncompressed_size,
            Seq::empty(),
        ));
    }
}

/// An entry of a zlib block table, offset relative to `ZLIB_BLOCK_TABLE_START`.
#[derive(Debug, Copy, Clone)]
pub struct ZlibBlockInfo {
    pub offset: u32,
    pub compressed_size: u32,
}

impl ZlibBlockInfo {
    /// The size of an encoded entry.
    pub const SIZE: u64 = 8;

    /// Appends the encoded entry to `w`.
    pub fn write_into(self, w: &mut Vec<u8>)
        ensures
            final(w)@ == old(w)@ + le32(self.offset) + le32(self.compressed_size),
    {
        push_le32(w, self.offset);
        push_le32(w, self.compressed_size);
        assert(final(w)@ =~= old(w)@ + le32(self.offset) + le32(self.compressed_size));
    }
}

} // verus!
