//! What is known about the compression of files and folders, and how it is
//! decided from what the file system reports.
use crate::decmpfs::{spec_decode, CompressionType, DecodeError, Value};
use crate::{round_to_block_size, spec_round_to_block_size};
use crate::text::{push_decimal, spec_decimal};
use vstd::string::StringExecFns;
use vstd::prelude::*;

verus! {

/// The contents of a file's decmpfs xattr.
#[derive(Debug, Copy, Clone)]
pub struct DecmpfsInfo {
    pub compression_type: CompressionType,
    pub attribute_size: u64,
    pub orig_file_size: u64,
}

/// Decodes the decmpfs xattr `data` of a file.
pub fn decmpfs_info_from_bytes(data: &[u8]) -> (r: Result<DecmpfsInfo, DecodeError>)
    ensures
        match (r, spec_decode(data@)) {
            (Ok(info), Ok((t, size, _))) => info.compression_type.raw() == t && info.orig_file_size
                == size && info.attribute_size == data@.len(),
            (Err(e), Err(f)) => e == f,
            _ => false,
        },
{
    let value = Value::from_data(data)?;
    Ok(
        DecmpfsInfo {
            compression_type: value.compression_type,
            attribute_size: crate::bytes::len_u64(data),
            orig_file_size: value.uncompressed_size,
        },
    )
}

/// Compression information about one file.
pub struct AfscFileInfo {
    pub is_compressed: bool,
    pub on_disk_size: u64,
    pub stat_size: u64,
    pub xattr_count: u32,
    pub total_xattr_size: u64,
    pub resource_fork_size: Option<u64>,
    pub decmpfs_info: Option<Result<DecmpfsInfo, DecodeError>>,
}

/// The kinds of extended attributes that matter for compression.
#[derive(Debug, Copy, Clone, PartialEq, Eq, Structural)]
pub enum XattrKind {
    /// `com.apple.decmpfs`.
    Decmpfs,
    /// `com.apple.ResourceFork`.
    ResourceFork,
    /// Any other attribute.
    Other,
}

impl AfscFileInfo {
    /// Information about a file with no extended attributes seen yet.
    pub fn new(is_compressed: bool, on_disk_size: u64, stat_size: u64) -> (r: Self)
        ensures
            r.is_compressed == is_compressed,
            r.on_disk_size == on_disk_size,
            r.stat_size == stat_size,
            r.xattr_count == 0,
            r.total_xattr_size == 0,
            r.resource_fork_size is None,
            r.decmpfs_info is None,
    {
        AfscFileInfo {
            is_compressed,
            on_disk_size,
            stat_size,
            xattr_count: 0,
            total_xattr_size: 0,
            resource_fork_size: None,
            decmpfs_info: None,
        }
    }

    /// Accounts for the decmpfs xattr, whose contents are `data`.
    pub fn add_decmpfs_xattr(&mut self, data: &[u8])
        ensures
            final(self).decmpfs_info matches Some(d) && match (d, spec_decode(data@)) {
                (Ok(info), Ok((t, size, _))) => info.compression_type.raw() == t
                    && info.orig_file_size == size && info.attribute_size == data@.len(),
                (Err(e), Err(f)) => e == f,
                _ => false,
            },
            final(self).xattr_count == old(self).xattr_count,
            final(self).total_xattr_size == old(self).total_xattr_size,
            final(self).resource_fork_size == old(self).resource_fork_size,
            final(self).is_compressed == old(self).is_compressed,
            final(self).on_disk_size == old(self).on_disk_size,
            final(self).stat_size == old(self).stat_size,
    {
        self.decmpfs_info = Some(decmpfs_info_from_bytes(data));
    }

    /// Accounts for an extended attribute other than the decmpfs xattr, of `len` bytes.
    pub fn add_xattr(&mut self, is_resource_fork: bool, len: u64)
        requires
            !is_resource_fork ==> old(self).xattr_count < u32::MAX && old(self).total_xattr_size
                + len <= u64::MAX,
        ensures
            is_resource_fork ==> final(self).resource_fork_size == Some(len) && final(self).xattr_count
                == old(self).xattr_count && final(self).total_xattr_size == old(self).total_xattr_size,
            !is_resource_fork ==> final(self).resource_fork_size == old(self).resource_fork_size
                && final(self).xattr_count == old(self).xattr_count + 1
                && final(self).total_xattr_size == old(self).total_xattr_size + len,
            final(self).decmpfs_info == old(self).decmpfs_info,
            final(self).is_compressed == old(self).is_compressed,
            final(self).on_disk_size == old(self).on_disk_size,
            final(self).stat_size == old(self).stat_size,
    {
        if is_resource_fork {
            self.resource_fork_size = Some(len);
        } else {
            self.xattr_count = self.xattr_count + 1;
            self.total_xattr_size = self.total_xattr_size + len;
        }
    }
}

/// The size a file occupies on disk: its 512-byte blocks, rounded up to the
/// file system's block size.
pub fn on_disk_size(blocks: u64, block_size: u64) -> (r: u64)
    requires
        block_size > 0,
        blocks * 512 <= u64::MAX,
        spec_round_to_block_size((blocks * 512) as u64, block_size) <= u64::MAX,
    ensures
        r == spec_round_to_block_size((blocks * 512) as u64, block_size),
{
    round_to_block_size(blocks * 512, block_size)
}

/// Compression information summed over the files and folders under a path.
#[derive(Debug, Default, Copy, Clone)]
pub struct AfscFolderInfo {
    pub num_files: u32,
    pub num_folders: u32,
    pub num_compressed_files: u32,
    pub total_uncompressed_size: u64,
    pub total_compressed_size: u64,
}

impl AfscFolderInfo {
    /// Nothing counted yet.
    pub fn new() -> (r: Self)
        ensures
            r.num_files == 0 && r.num_folders == 0 && r.num_compressed_files == 0
                && r.total_uncompressed_size == 0 && r.total_compressed_size == 0,
    {
        AfscFolderInfo {
            num_files: 0,
            num_folders: 0,
            num_compressed_files: 0,
            total_uncompressed_size: 0,
            total_compressed_size: 0,
        }
    }

    /// Counts a file: its on-disk size if compressed, else its size, counts
    /// as its compressed size.
    pub fn add_file(&mut self, info: &AfscFileInfo)
        requires
            old(self).num_files < u32::MAX,
            info.is_compressed ==> old(self).num_compressed_files < u32::MAX,
            old(self).total_compressed_size + (if info.is_compressed {
                info.on_disk_size
            } else {
                info.stat_size
            }) <= u64::MAX,
            old(self).total_uncompressed_size + info.stat_size <= u64::MAX,
        ensures
            final(self).num_files == old(self).num_files + 1,
            final(self).num_folders == old(self).num_folders,
            final(self).num_compressed_files == old(self).num_compressed_files + if info.is_compressed {
                1int
            } else {
                0int
            },
            final(self).total_compressed_size == old(self).total_compressed_size + if info.is_compressed {
                info.on_disk_size
            } else {
                info.stat_size
            },
            final(self).total_uncompressed_size == old(self).total_uncompressed_size + info.stat_size,
    {
        self.num_files = self.num_files + 1;
        if info.is_compressed {
            self.num_compressed_files = self.num_compressed_files + 1;
            self.total_compressed_size = self.total_compressed_size + info.on_disk_size;
        } else {
            self.total_compressed_size = self.total_compressed_size + info.stat_size;
        }
        self.total_uncompressed_size = self.total_uncompressed_size + info.stat_size;
    }

    /// Counts a folder.
    pub fn add_folder(&mut self)
        requires
            old(self).num_folders < u32::MAX,
        ensures
            final(self).num_folders == old(self).num_folders + 1,
            final(self).num_files == old(self).num_files,
            final(self).num_compressed_files == old(self).num_compressed_files,
            final(self).total_compressed_size == old(self).total_compressed_size,
            final(self).total_uncompressed_size == old(self).total_uncompressed_size,
    {
        self.num_folders = self.num_folders + 1;
    }
}

/// Why a file cannot be compressed.
pub enum IncompressibleReason<E> {
    Empty,
    TooLarge(u64),
    IoError(E),
    FsNotSupported,
    HasRequiredXattr,
}

impl<E> IncompressibleReason<E> {
    /// How the reason is shown to users, unless it is an I/O error, which is
    /// shown as the error itself.
    pub open spec fn spec_text(&self) -> Option<Seq<char>> {
        match self {
            IncompressibleReason::Empty => Some("empty file"@),
            IncompressibleReason::TooLarge(size) => Some(
                "file too large to compress: "@ + spec_decimal(*size as nat) + " bytes"@,
            ),
            IncompressibleReason::IoError(_) => None,
            IncompressibleReason::FsNotSupported => Some("filesystem does not support compression"@),
            IncompressibleReason::HasRequiredXattr => Some(
                "file has a required xattr for compression already"@,
            ),
        }
    }

    /// How the reason is shown to users; `None` for an I/O error, which is
    /// shown as the error itself.
    pub fn to_text(&self) -> (s: Option<String>)
        ensures
            s is None <==> self.spec_text() is None,
            s matches Some(t) ==> self.spec_text() == Some(t@),
    {
        let mut s = String::new();
        match self {
            IncompressibleReason::Empty => s.append("empty file"),
            IncompressibleReason::TooLarge(size) => {
                s.append("file too large to compress: ");
                push_decimal(&mut s, *size);
                s.append(" bytes");
            },
            IncompressibleReason::IoError(_) => return None,
            IncompressibleReason::FsNotSupported => s.append("filesystem does not support compression"),
            IncompressibleReason::HasRequiredXattr => {
                s.append("file has a required xattr for compression already")
            },
        }
        Some(s)
    }
}

/// Whether a file is compressed, can be, or why it cannot be.
pub enum FileCompressionState<E> {
    Compressed,
    Compressible,
    Incompressible(IncompressibleReason<E>),
}

/// The size and compression state of a file.
pub struct FileInfo<E> {
    pub on_disk_size: u64,
    pub compression_state: FileCompressionState<E>,
}

/// The file flag that marks a file as compressed (`UF_COMPRESSED`).
pub const UF_COMPRESSED: u32 = 0x20;

/// Whether file flags `flags` mark the file as compressed.
pub fn flags_say_compressed(flags: u32) -> (b: bool)
    ensures
        b == (flags & UF_COMPRESSED != 0),
{
    flags & UF_COMPRESSED != 0
}

/// File flags `flags` with the compressed flag set.
pub fn with_compressed_flag(flags: u32) -> (r: u32)
    ensures
        r == flags | UF_COMPRESSED,
        r & UF_COMPRESSED != 0,
{
    let r = flags | UF_COMPRESSED;
    assert(r & 0x20 != 0) by (bit_vector)
        requires
            r == flags | 0x20u32,
    ;
    r
}

/// File flags `flags` with the compressed flag cleared.
pub fn without_compressed_flag(flags: u32) -> (r: u32)
    ensures
        r == flags & !UF_COMPRESSED,
        r & UF_COMPRESSED == 0,
{
    let r = flags & !UF_COMPRESSED;
    assert(r & 0x20 == 0) by (bit_vector)
        requires
            r == flags & !0x20u32,
    ;
    r
}

/// The volume capability bit for decmpfs compression, in the format
/// capabilities of a volume.
pub const COMPRESSION_CAPABILITY: u32 = 0x0001_0000;

/// A volume capability query answered with a buffer of an unexpected size.
#[derive(Debug, Clone, Copy, PartialEq, Eq, Structural)]
pub struct BadAttrSize;

/// Whether a volume supports compression, from its answer to a capability
/// query: the size it reports must be the size asked for, and the
/// compression bit must be both valid and set.
pub fn capabilities_support_compression(
    reported_len: u32,
    expected_len: u32,
    valid: u32,
    capabilities: u32,
) -> (r: Result<bool, BadAttrSize>)
    ensures
        reported_len != expected_len ==> r == Err::<bool, BadAttrSize>(BadAttrSize),
        reported_len == expected_len ==> r == Ok::<bool, BadAttrSize>(
            valid & capabilities & COMPRESSION_CAPABILITY != 0,
        ),
{
    if reported_len != expected_len {
        return Err(BadAttrSize);
    }
    Ok(valid & capabilities & COMPRESSION_CAPABILITY != 0)
}

/// The `f_fssubtype` of ZFS volumes: "ZFS\0" read big-endian.
pub const ZFS_SUBTYPE: u32 = 0x5A46_5300;

/// The compression state of a file, from what the file system reports, in
/// the order the checks are made: whether the file is compressed, its size,
/// the subtype of its volume, whether it has a resource fork xattr or a
/// decmpfs xattr, and whether its volume supports compression.  The first
/// check that fails decides.
pub open spec fn spec_compression_state<E>(
    is_compressed: bool,
    len: u64,
    fs_subtype: Result<u32, E>,
    has_resource_fork_xattr: Result<bool, E>,
    has_decmpfs_xattr: Result<bool, E>,
    volume_supports_compression: Result<bool, E>,
) -> FileCompressionState<E> {
    if is_compressed {
        FileCompressionState::Compressed
    } else if len == 0 {
        FileCompressionState::Incompressible(IncompressibleReason::Empty)
    } else if len >= u32::MAX {
        FileCompressionState::Incompressible(IncompressibleReason::TooLarge(len))
    } else {
        match fs_subtype {
            Err(e) => FileCompressionState::Incompressible(IncompressibleReason::IoError(e)),
            Ok(subtype) => if subtype == ZFS_SUBTYPE {
                FileCompressionState::Incompressible(IncompressibleReason::FsNotSupported)
            } else {
                match has_resource_fork_xattr {
                    Err(e) => FileCompressionState::Incompressible(IncompressibleReason::IoError(e)),
                    Ok(true) => FileCompressionState::Incompressible(
                        IncompressibleReason::HasRequiredXattr,
                    ),
                    Ok(false) => match has_decmpfs_xattr {
                        Err(e) => FileCompressionState::Incompressible(
                            IncompressibleReason::IoError(e),
                        ),
                        Ok(true) => FileCompressionState::Incompressible(
                            IncompressibleReason::HasRequiredXattr,
                        ),
                        Ok(false) => match volume_supports_compression {
                            Err(e) => FileCompressionState::Incompressible(
                                IncompressibleReason::IoError(e),
                            ),
                            Ok(false) => FileCompressionState::Incompressible(
                                IncompressibleReason::FsNotSupported,
                            ),
                            Ok(true) => FileCompressionState::Compressible,
                        },
                    },
                }
            },
        }
    }
}

/// What must be found out next about a file before its compression state
/// is known.
#[derive(Debug, Clone, Copy, PartialEq, Eq, Structural)]
pub enum StateQuery {
    /// The subtype of the file system the file is on.
    FsSubtype,
    /// Whether the file has a resource fork xattr.
    ResourceForkXattr,
    /// Whether the file has a decmpfs xattr.
    DecmpfsXattr,
    /// Whether the volume of the file supports compression.
    VolumeSupport,
}

/// One step of deciding a file's compression state: either a question for
/// the file system, or the answer.
pub enum StateStep<E> {
    Ask(StateQuery),
    Known(FileCompressionState<E>),
}

/// The first step: what the file's flags and length decide.
pub open spec fn spec_state_from_flags_and_len<E>(is_compressed: bool, len: u64) -> StateStep<E> {
    if is_compressed {
        StateStep::Known(FileCompressionState::Compressed)
    } else if len == 0 {
        StateStep::Known(FileCompressionState::Incompressible(IncompressibleReason::Empty))
    } else if len >= u32::MAX {
        StateStep::Known(FileCompressionState::Incompressible(IncompressibleReason::TooLarge(len)))
    } else {
        StateStep::Ask(StateQuery::FsSubtype)
    }
}

/// The step after the file system's subtype is known: ZFS does not support
/// compression.
pub open spec fn spec_state_from_fs_subtype<E>(fs_subtype: Result<u32, E>) -> StateStep<E> {
    match fs_subtype {
        Err(e) => StateStep::Known(FileCompressionState::Incompressible(IncompressibleReason::IoError(e))),
        Ok(subtype) => if subtype == ZFS_SUBTYPE {
            StateStep::Known(FileCompressionState::Incompressible(IncompressibleReason::FsNotSupported))
        } else {
            StateStep::Ask(StateQuery::ResourceForkXattr)
        },
    }
}

/// The step after an xattr that compression needs is looked for: a file
/// that already has it cannot be compressed.
pub open spec fn spec_state_from_xattr<E>(present: Result<bool, E>, next: StateQuery) -> StateStep<E> {
    match present {
        Err(e) => StateStep::Known(FileCompressionState::Incompressible(IncompressibleReason::IoError(e))),
        Ok(true) => StateStep::Known(
            FileCompressionState::Incompressible(IncompressibleReason::HasRequiredXattr),
        ),
        Ok(false) => StateStep::Ask(next),
    }
}

/// The last step, once it is known whether the volume supports compression.
pub open spec fn spec_state_from_volume_support<E>(supported: Result<bool, E>) -> FileCompressionState<E> {
    match supported {
        Err(e) => FileCompressionState::Incompressible(IncompressibleReason::IoError(e)),
        Ok(false) => FileCompressionState::Incompressible(IncompressibleReason::FsNotSupported),
        Ok(true) => FileCompressionState::Compressible,
    }
}

/// Decides what the file's flags and length say of its compression state.
pub fn state_from_flags_and_len<E>(is_compressed: bool, len: u64) -> (r: StateStep<E>)
    ensures
        r == spec_state_from_flags_and_len::<E>(is_compressed, len),
{
    if is_compressed {
        StateStep::Known(FileCompressionState::Compressed)
    } else if len == 0 {
        StateStep::Known(FileCompressionState::Incompressible(IncompressibleReason::Empty))
    } else if len >= 0xffff_ffff {
        StateStep::Known(FileCompressionState::Incompressible(IncompressibleReason::TooLarge(len)))
    } else {
        StateStep::Ask(StateQuery::FsSubtype)
    }
}

/// Decides what the file system's subtype says of the compression state.
pub fn state_from_fs_subtype<E>(fs_subtype: Result<u32, E>) -> (r: StateStep<E>)
    ensures
        r == spec_state_from_fs_subtype(fs_subtype),
{
    match fs_subtype {
        Err(e) => StateStep::Known(FileCompressionState::Incompressible(IncompressibleReason::IoError(e))),
        Ok(subtype) => if subtype == ZFS_SUBTYPE {
            StateStep::Known(FileCompressionState::Incompressible(IncompressibleReason::FsNotSupported))
        } else {
            StateStep::Ask(StateQuery::ResourceForkXattr)
        },
    }
}

/// Decides what finding, or not finding, the resource fork xattr says.
pub fn state_from_resource_fork_xattr<E>(present: Result<bool, E>) -> (r: StateStep<E>)
    ensures
        r == spec_state_from_xattr(present, StateQuery::DecmpfsXattr),
{
    state_from_xattr(present, StateQuery::DecmpfsXattr)
}

/// Decides what finding, or not finding, the decmpfs xattr says.
pub fn state_from_header_xattr<E>(present: Result<bool, E>) -> (r: StateStep<E>)
    ensures
        r == spec_state_from_xattr(present, StateQuery::VolumeSupport),
{
    state_from_xattr(present, StateQuery::VolumeSupport)
}

fn state_from_xattr<E>(present: Result<bool, E>, next: StateQuery) -> (r: StateStep<E>)
    ensures
        r == spec_state_from_xattr(present, next),
{
    match present {
        Err(e) => StateStep::Known(FileCompressionState::Incompressible(IncompressibleReason::IoError(e))),
        Ok(true) => StateStep::Known(
            FileCompressionState::Incompressible(IncompressibleReason::HasRequiredXattr),
        ),
        Ok(false) => StateStep::Ask(next),
    }
}

/// Decides the compression state from whether the volume supports compression.
pub fn state_from_volume_support<E>(supported: Result<bool, E>) -> (r: FileCompressionState<E>)
    ensures
        r == spec_state_from_volume_support(supported),
{
    match supported {
        Err(e) => FileCompressionState::Incompressible(IncompressibleReason::IoError(e)),
        Ok(false) => FileCompressionState::Incompressible(IncompressibleReason::FsNotSupported),
        Ok(true) => FileCompressionState::Compressible,
    }
}

/// The state reached by taking the steps in order with the given answers,
/// each answer asked for only when the steps before did not decide.
pub open spec fn spec_steps<E>(
    is_compressed: bool,
    len: u64,
    fs_subtype: Result<u32, E>,
    has_resource_fork_xattr: Result<bool, E>,
    has_decmpfs_xattr: Result<bool, E>,
    volume_supports_compression: Result<bool, E>,
) -> FileCompressionState<E> {
    match spec_state_from_flags_and_len::<E>(is_compressed, len) {
        StateStep::Known(s) => s,
        StateStep::Ask(_) => match spec_state_from_fs_subtype(fs_subtype) {
            StateStep::Known(s) => s,
            StateStep::Ask(_) => match spec_state_from_xattr(
                has_resource_fork_xattr,
                StateQuery::DecmpfsXattr,
            ) {
                StateStep::Known(s) => s,
                StateStep::Ask(_) => match spec_state_from_xattr(
                    has_decmpfs_xattr,
                    StateQuery::VolumeSupport,
                ) {
                    StateStep::Known(s) => s,
                    StateStep::Ask(_) => spec_state_from_volume_support(volume_supports_compression),
                },
            },
        },
    }
}

/// Finding either xattr that compression writes makes a file incompressible:
/// a file that is not compressed, holds between 1 and `u32::MAX - 1` bytes,
/// is not on ZFS, and already has the resource fork xattr, or the decmpfs
/// xattr, is not compressed, for it already has an xattr compression needs;
/// and a found xattr decides at once, whichever question would come next.
/// So a file is found compressible only when neither xattr is there and the
/// volume supports compression.
pub proof fn lemma_existing_xattr_prevents_compression<E>(
    is_compressed: bool,
    len: u64,
    fs_subtype: Result<u32, E>,
    has_resource_fork_xattr: Result<bool, E>,
    has_decmpfs_xattr: Result<bool, E>,
    volume_supports_compression: Result<bool, E>,
    next: StateQuery,
)
    ensures
        spec_state_from_xattr(Ok::<bool, E>(true), next) == StateStep::<E>::Known(
            FileCompressionState::Incompressible(IncompressibleReason::HasRequiredXattr),
        ),
        spec_state_from_xattr(Ok::<bool, E>(false), next) == StateStep::<E>::Ask(next),
        !is_compressed && 0 < len < u32::MAX && (fs_subtype matches Ok(t) && t != ZFS_SUBTYPE) && (
        has_resource_fork_xattr == Ok::<bool, E>(true) || (has_resource_fork_xattr == Ok::<bool, E>(
            false,
        ) && has_decmpfs_xattr == Ok::<bool, E>(true))) ==> spec_compression_state(
            is_compressed,
            len,
            fs_subtype,
            has_resource_fork_xattr,
            has_decmpfs_xattr,
            volume_supports_compression,
        ) == FileCompressionState::<E>::Incompressible(IncompressibleReason::HasRequiredXattr),
        spec_compression_state(
            is_compressed,
            len,
            fs_subtype,
            has_resource_fork_xattr,
            has_decmpfs_xattr,
            volume_supports_compression,
        ) is Compressible ==> {
            &&& !is_compressed
            &&& 0 < len < u32::MAX
            &&& fs_subtype matches Ok(t) && t != ZFS_SUBTYPE
            &&& has_resource_fork_xattr == Ok::<bool, E>(false)
            &&& has_decmpfs_xattr == Ok::<bool, E>(false)
            &&& volume_supports_compression == Ok::<bool, E>(true)
        },
{
}

/// Taking the steps one question at a time decides the same state as the
/// checks made in order: the first check that fails decides, and a question
/// is asked only when all the checks before it passed.
pub proof fn lemma_steps_decide_state<E>(
    is_compressed: bool,
    len: u64,
    fs_subtype: Result<u32, E>,
    has_resource_fork_xattr: Result<bool, E>,
    has_decmpfs_xattr: Result<bool, E>,
    volume_supports_compression: Result<bool, E>,
)
    ensures
        spec_steps(
            is_compressed,
            len,
            fs_subtype,
            has_resource_fork_xattr,
            has_decmpfs_xattr,
            volume_supports_compression,
        ) == spec_compression_state(
            is_compressed,
            len,
            fs_subtype,
            has_resource_fork_xattr,
            has_decmpfs_xattr,
            volume_supports_compression,
        ),
        spec_state_from_flags_and_len::<E>(is_compressed, len) is Ask ==> spec_state_from_flags_and_len::<
            E,
        >(is_compressed, len) == StateStep::<E>::Ask(StateQuery::FsSubtype),
{
}

} // verus!
