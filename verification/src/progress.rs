//! Reporting progress: why files are skipped, how much is reported, and the
//! interfaces that a user interface implements to follow an operation.
use crate::text::{push_decimal, spec_decimal};
use vstd::string::StringExecFns;
use vstd::prelude::*;

verus! {

/// How much is reported while working.
#[derive(Debug, Copy, Clone, PartialEq, Eq, Structural, PartialOrd, Ord)]
pub enum Verbosity {
    Quiet,
    Normal,
    Verbose,
}

impl Verbosity {
    /// The place of the level in the order `Quiet < Normal < Verbose`.
    pub open spec fn rank(self) -> int {
        match self {
            Verbosity::Quiet => 0,
            Verbosity::Normal => 1,
            Verbosity::Verbose => 2,
        }
    }

    /// The level asked for by `verbose` occurrences of the verbose flag and
    /// `quiet` occurrences of the quiet flag: their difference decides.
    pub fn from_counts(verbose: u8, quiet: u8) -> (v: Verbosity)
        requires
            -128 <= (verbose as i8) - (quiet as i8) <= 127,
        ensures
            v is Quiet <==> (verbose as i8) - (quiet as i8) < 0,
            v is Normal <==> (verbose as i8) - (quiet as i8) == 0,
            v is Verbose <==> (verbose as i8) - (quiet as i8) > 0,
    {
        let v = verbose as i8 as i16;
        let q = quiet as i8 as i16;
        let d = v - q;
        if d < 0 {
            Verbosity::Quiet
        } else if d == 0 {
            Verbosity::Normal
        } else {
            Verbosity::Verbose
        }
    }

    /// Whether this level reports at least as much as `other`.
    pub fn at_least(self, other: Verbosity) -> (b: bool)
        ensures
            b <==> self.rank() >= other.rank(),
    {
        match (self, other) {
            (_, Verbosity::Quiet) => true,
            (Verbosity::Quiet, _) => false,
            (_, Verbosity::Normal) => true,
            (Verbosity::Normal, Verbosity::Verbose) => false,
            (Verbosity::Verbose, Verbosity::Verbose) => true,
        }
    }
}

impl Default for Verbosity {
    /// The normal level.
    fn default() -> (v: Self)
        ensures
            v is Normal,
    {
        Verbosity::Normal
    }
}

/// Why a file found while scanning was not processed; `E` is the error of a
/// failed read.
#[derive(Debug)]
pub enum SkipReason<E> {
    NotFile,
    AlreadyCompressed,
    NotCompressed,
    TooLarge(u64),
    ReadError(E),
    ZfsFilesystem,
    HasRequiredXattr,
    FsNotSupported,
}

impl<E> SkipReason<E> {
    /// The level at which a skip for this reason is reported: the expected
    /// ones only when verbose, the others normally.
    pub fn required_verbosity(&self) -> (v: Verbosity)
        ensures
            v is Verbose <==> (self is NotFile || self is AlreadyCompressed || self is NotCompressed),
            v is Normal <==> !(self is NotFile || self is AlreadyCompressed || self is NotCompressed),
    {
        match self {
            SkipReason::NotFile | SkipReason::AlreadyCompressed | SkipReason::NotCompressed => {
                Verbosity::Verbose
            },
            _ => Verbosity::Normal,
        }
    }
}

impl SkipReason<String> {
    /// How the reason is shown to users; a read error is given by its
    /// description.
    pub open spec fn spec_text(&self) -> Seq<char> {
        match self {
            SkipReason::NotFile => "Not a file"@,
            SkipReason::AlreadyCompressed => "Already compressed"@,
            SkipReason::NotCompressed => "Not compressed"@,
            SkipReason::TooLarge(size) => "File too large: "@ + spec_decimal(*size as nat) + " > "@
                + spec_decimal(u32::MAX as nat),
            SkipReason::ReadError(e) => "Read error: "@ + e@,
            SkipReason::ZfsFilesystem => "ZFS filesystem (not supported)"@,
            SkipReason::HasRequiredXattr => "Compression xattrs already present"@,
            SkipReason::FsNotSupported => "Filesystem does not support compression"@,
        }
    }

    /// How the reason is shown to users.
    pub fn to_text(&self) -> (s: String)
        ensures
            s@ == self.spec_text(),
    {
        let mut s = String::new();
        match self {
            SkipReason::NotFile => s.append("Not a file"),
            SkipReason::AlreadyCompressed => s.append("Already compressed"),
            SkipReason::NotCompressed => s.append("Not compressed"),
            SkipReason::TooLarge(size) => {
                s.append("File too large: ");
                push_decimal(&mut s, *size);
                s.append(" > ");
                push_decimal(&mut s, 0xffff_ffff);
            },
            SkipReason::ReadError(e) => {
                s.append("Read error: ");
                s.append(e.as_str());
            },
            SkipReason::ZfsFilesystem => s.append("ZFS filesystem (not supported)"),
            SkipReason::HasRequiredXattr => s.append("Compression xattrs already present"),
            SkipReason::FsNotSupported => s.append("Filesystem does not support compression"),
        }
        s
    }
}

/// Follows an operation over many files; implemented by a user interface.
/// Paths are given as text.
pub trait Progress {
    type Task: Task;

    /// An error about `path` that is not tied to one file's task.
    fn error(&self, path: &str, message: &str);

    /// `path` was found but is not processed, for reason `why`; a read
    /// error is given by its description.
    fn file_skipped(&self, path: &str, why: SkipReason<String>) {
    }

    /// Starts following the processing of the file at `path`, of `size` bytes.
    fn file_task(&self, path: &str, size: u64) -> Self::Task;
}

/// Follows the processing of one file; implemented by a user interface.
pub trait Task {
    /// `amt` more bytes of the file were processed.
    fn increment(&self, amt: u64);

    /// An error while processing the file.
    fn error(&self, message: &str);

    /// The file at `path` did not compress well enough to be kept compressed.
    fn not_compressible_enough(&self, path: &str) {
    }
}

} // verus!
