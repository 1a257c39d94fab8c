//! Totals gathered while compressing or decompressing a set of files.
use crate::info::{FileCompressionState, FileInfo};
use vstd::prelude::*;

verus! {

/// Totals over the files of one operation; counters wrap around like the
/// atomic counters they stand for.
#[derive(Debug, Default, Copy, Clone)]
pub struct Stats {
    /// Total number of files scanned.
    pub files: u64,
    /// Total of all file sizes (uncompressed).
    pub total_file_sizes: u64,
    /// Total of all on-disk sizes before the operation.
    pub compressed_size_start: u64,
    /// Total of all on-disk sizes after the operation.
    pub compressed_size_final: u64,
    /// Number of files that were compressed before the operation.
    pub compressed_file_count_start: u64,
    /// Number of files that were compressed after the operation.
    pub compressed_file_count_final: u64,
    /// Number of files that could not be compressed.
    pub incompressible_file_count: u64,
}

impl Stats {
    /// All totals zero.
    pub fn new() -> (s: Self)
        ensures
            s.files == 0 && s.total_file_sizes == 0 && s.compressed_size_start == 0
                && s.compressed_size_final == 0 && s.compressed_file_count_start == 0
                && s.compressed_file_count_final == 0 && s.incompressible_file_count == 0,
    {
        Stats {
            files: 0,
            total_file_sizes: 0,
            compressed_size_start: 0,
            compressed_size_final: 0,
            compressed_file_count_start: 0,
            compressed_file_count_final: 0,
            incompressible_file_count: 0,
        }
    }

    /// Counts a file of `len` bytes as found before the operation.
    pub fn add_start_file<E>(&mut self, len: u64, file_info: &FileInfo<E>)
        ensures
            final(self).files == old(self).files.wrapping_add(1),
            final(self).total_file_sizes == old(self).total_file_sizes.wrapping_add(len),
            final(self).compressed_size_start == old(self).compressed_size_start.wrapping_add(
                file_info.on_disk_size,
            ),
            final(self).compressed_file_count_start == if file_info.compression_state is Compressed {
                old(self).compressed_file_count_start.wrapping_add(1)
            } else {
                old(self).compressed_file_count_start
            },
            final(self).incompressible_file_count == if file_info.compression_state is Incompressible {
                old(self).incompressible_file_count.wrapping_add(1)
            } else {
                old(self).incompressible_file_count
            },
            final(self).compressed_size_final == old(self).compressed_size_final,
            final(self).compressed_file_count_final == old(self).compressed_file_count_final,
    {
        self.files = self.files.wrapping_add(1);
        self.total_file_sizes = self.total_file_sizes.wrapping_add(len);
        self.compressed_size_start = self.compressed_size_start.wrapping_add(file_info.on_disk_size);
        match file_info.compression_state {
            FileCompressionState::Compressed => {
                self.compressed_file_count_start = self.compressed_file_count_start.wrapping_add(1);
            },
            FileCompressionState::Compressible => {},
            FileCompressionState::Incompressible(_) => {
                self.incompressible_file_count = self.incompressible_file_count.wrapping_add(1);
            },
        }
    }

    /// Counts a file as found after the operation.
    pub fn add_end_file<E>(&mut self, file_info: &FileInfo<E>)
        ensures
            final(self).compressed_size_final == old(self).compressed_size_final.wrapping_add(
                file_info.on_disk_size,
            ),
            final(self).compressed_file_count_final == if file_info.compression_state is Compressed {
                old(self).compressed_file_count_final.wrapping_add(1)
            } else {
                old(self).compressed_file_count_final
            },
            final(self).files == old(self).files,
            final(self).total_file_sizes == old(self).total_file_sizes,
            final(self).compressed_size_start == old(self).compressed_size_start,
            final(self).compressed_file_count_start == old(self).compressed_file_count_start,
            final(self).incompressible_file_count == old(self).incompressible_file_count,
    {
        self.compressed_size_final = self.compressed_size_final.wrapping_add(file_info.on_disk_size);
        if let FileCompressionState::Compressed = file_info.compression_state {
            self.compressed_file_count_final = self.compressed_file_count_final.wrapping_add(1);
        }
    }

    /// The number of files that became compressed: how many more files
    /// ended compressed than started so, or none.
    pub fn newly_compressed(&self) -> (n: u64)
        ensures
            n == if self.compressed_file_count_final >= self.compressed_file_count_start {
                self.compressed_file_count_final - self.compressed_file_count_start
            } else {
                0
            },
    {
        self.compressed_file_count_final.saturating_sub(self.compressed_file_count_start)
    }

    /// The number of files that were decompressed: how many fewer files
    /// ended compressed than started so, or none.
    pub fn newly_decompressed(&self) -> (n: u64)
        ensures
            n == if self.compressed_file_count_start >= self.compressed_file_count_final {
                self.compressed_file_count_start - self.compressed_file_count_final
            } else {
                0
            },
    {
        self.compressed_file_count_start.saturating_sub(self.compressed_file_count_final)
    }
}

} // verus!
