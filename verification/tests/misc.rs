use applesauce::info::{
    capabilities_support_compression, flags_say_compressed, with_compressed_flag,
    without_compressed_flag, BadAttrSize, IncompressibleReason, XattrKind, COMPRESSION_CAPABILITY,
};
use applesauce::text::decimal;
use applesauce::progress::{Progress, SkipReason, Task, Verbosity};
use applesauce::scan::Walker;
use applesauce::xattr::{split_names, xattr_kind, MissingTerminator};
use applesauce::Stats;

#[test]
fn verbosity_from_flag_counts() {
    assert_eq!(Verbosity::from_counts(0, 0), Verbosity::Normal);
    assert_eq!(Verbosity::from_counts(2, 0), Verbosity::Verbose);
    assert_eq!(Verbosity::from_counts(0, 1), Verbosity::Quiet);
    assert_eq!(Verbosity::default(), Verbosity::Normal);
    assert!(Verbosity::Verbose.at_least(Verbosity::Normal));
    assert!(Verbosity::Normal.at_least(Verbosity::Normal));
    assert!(!Verbosity::Quiet.at_least(Verbosity::Normal));
    assert!(Verbosity::Quiet < Verbosity::Normal);
}

#[test]
fn skip_reasons() {
    let r: SkipReason<String> = SkipReason::NotFile;
    assert_eq!(r.required_verbosity(), Verbosity::Verbose);
    assert_eq!(r.to_text(), "Not a file");
    let r: SkipReason<String> = SkipReason::TooLarge(1 << 33);
    assert_eq!(r.required_verbosity(), Verbosity::Normal);
    assert_eq!(r.to_text(), "File too large: 8589934592 > 4294967295");
    let r: SkipReason<String> = SkipReason::FsNotSupported;
    assert_eq!(r.to_text(), "Filesystem does not support compression");
    let r: SkipReason<String> = SkipReason::ReadError("permission denied".to_string());
    assert_eq!(r.required_verbosity(), Verbosity::Normal);
    assert_eq!(r.to_text(), "Read error: permission denied");
}

#[test]
fn incompressible_reasons() {
    let r: IncompressibleReason<String> = IncompressibleReason::TooLarge(4294967296);
    assert_eq!(r.to_text().unwrap(), "file too large to compress: 4294967296 bytes");
    let r: IncompressibleReason<String> = IncompressibleReason::Empty;
    assert_eq!(r.to_text().unwrap(), "empty file");
    let r: IncompressibleReason<String> = IncompressibleReason::IoError("gone".to_string());
    assert_eq!(r.to_text(), None);
}

#[test]
fn decimal_numbers() {
    assert_eq!(decimal(0), "0");
    assert_eq!(decimal(7), "7");
    assert_eq!(decimal(10), "10");
    assert_eq!(decimal(1234567890), "1234567890");
    assert_eq!(decimal(u64::MAX), "18446744073709551615");
}

struct Quiet;
struct NoTask;

impl Task for NoTask {
    fn increment(&self, _amt: u64) {}
    fn error(&self, _message: &str) {}
}

impl Progress for Quiet {
    type Task = NoTask;
    fn error(&self, _path: &str, _message: &str) {}
    fn file_task(&self, _path: &str, _size: u64) -> NoTask {
        NoTask
    }
}

#[test]
fn walker_keeps_roots_in_order() {
    let progress = Quiet;
    let mut walker = Walker::new(&progress);
    assert!(walker.paths().is_empty());
    walker.add_path("/a");
    walker.add_path("b/c");
    assert_eq!(walker.paths(), &vec!["/a", "b/c"]);
}

#[test]
fn xattr_names() {
    assert_eq!(split_names(b""), Ok(Vec::new()));
    assert_eq!(
        split_names(b"com.apple.decmpfs\0user.x\0"),
        Ok(vec![b"com.apple.decmpfs".to_vec(), b"user.x".to_vec()])
    );
    assert_eq!(split_names(b"a\0b"), Err(MissingTerminator));
    assert_eq!(xattr_kind(b"com.apple.decmpfs"), XattrKind::Decmpfs);
    assert_eq!(xattr_kind(b"com.apple.ResourceFork"), XattrKind::ResourceFork);
    assert_eq!(xattr_kind(b"com.apple.ResourceFor"), XattrKind::Other);
}

#[test]
fn file_flags() {
    assert!(flags_say_compressed(0x20));
    assert!(!flags_say_compressed(0x10));
    assert_eq!(with_compressed_flag(0x1), 0x21);
    assert_eq!(without_compressed_flag(0x21), 0x1);
    assert_eq!(capabilities_support_compression(8, 8, COMPRESSION_CAPABILITY, COMPRESSION_CAPABILITY), Ok(true));
    assert_eq!(capabilities_support_compression(8, 8, COMPRESSION_CAPABILITY, 0), Ok(false));
    assert_eq!(capabilities_support_compression(4, 8, 0, 0), Err(BadAttrSize));
}

#[test]
fn stats_counts() {
    let mut stats = Stats::new();
    stats.compressed_file_count_start = 3;
    stats.compressed_file_count_final = 5;
    assert_eq!(stats.newly_compressed(), 2);
    assert_eq!(stats.newly_decompressed(), 0);
    stats.compressed_file_count_final = 1;
    assert_eq!(stats.newly_compressed(), 0);
    assert_eq!(stats.newly_decompressed(), 2);
}
