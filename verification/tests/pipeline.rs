use applesauce::info::{FileCompressionState, FileInfo, IncompressibleReason};
use applesauce::pipeline::{
    compare_step, scan_file, Chunk, ChunkReader, CompareStep, CompressionBudget, ReadOutcome,
};
use applesauce::{Stats, BLOCK_SIZE};

fn info(on_disk_size: u64, state: FileCompressionState<()>) -> FileInfo<()> {
    FileInfo {
        on_disk_size,
        compression_state: state,
    }
}

#[test]
fn scan_sends_compressible_files_when_compressing() {
    let mut stats = Stats::new();
    let send = scan_file(&mut stats, true, 100, &info(4096, FileCompressionState::Compressible));
    assert!(send);
    assert_eq!(stats.files, 1);
    assert_eq!(stats.total_file_sizes, 100);
    assert_eq!(stats.compressed_size_start, 4096);
    assert_eq!(stats.compressed_size_final, 0);
    assert_eq!(stats.compressed_file_count_start, 0);
}

#[test]
fn scan_counts_compressed_file_as_finished_when_compressing() {
    let mut stats = Stats::new();
    let send = scan_file(&mut stats, true, 100, &info(512, FileCompressionState::Compressed));
    assert!(!send);
    assert_eq!(stats.compressed_file_count_start, 1);
    assert_eq!(stats.compressed_file_count_final, 1);
    assert_eq!(stats.compressed_size_final, 512);
}

#[test]
fn scan_sends_compressed_files_when_decompressing() {
    let mut stats = Stats::new();
    let send = scan_file(&mut stats, false, 100, &info(512, FileCompressionState::Compressed));
    assert!(send);
    assert_eq!(stats.compressed_file_count_start, 1);
    assert_eq!(stats.compressed_file_count_final, 0);
}

#[test]
fn scan_drops_incompressible_files() {
    let mut stats = Stats::new();
    let state = FileCompressionState::Incompressible(IncompressibleReason::Empty);
    let send = scan_file(&mut stats, true, 0, &info(0, state));
    assert!(!send);
    assert_eq!(stats.files, 1);
    assert_eq!(stats.incompressible_file_count, 1);
    assert_eq!(stats.compressed_size_final, 0);
    assert_eq!(stats.compressed_file_count_final, 0);
}

/// Reads a file of `actual` bytes with a reader expecting `expected`, each
/// read giving what was asked for or what is left; returns the chunk sizes
/// and the last outcome.
fn read_all(expected: u64, actual: u64) -> (Vec<usize>, ReadOutcome) {
    let mut reader = ChunkReader::new(expected);
    let mut pos = 0u64;
    let mut chunks = Vec::new();
    loop {
        let ask = reader.next_read_len() as u64;
        let n = ask.min(actual - pos) as usize;
        pos += n as u64;
        match reader.record_read(n) {
            ReadOutcome::Chunk => chunks.push(n),
            other => return (chunks, other),
        }
    }
}

#[test]
fn chunk_reader_cuts_blocks() {
    let size = (BLOCK_SIZE * 2 + 10) as u64;
    let (chunks, end) = read_all(size, size);
    assert_eq!(chunks, vec![BLOCK_SIZE, BLOCK_SIZE, 10]);
    assert_eq!(end, ReadOutcome::Finished);
    assert_eq!(chunks.len() as u64, applesauce::num_blocks(size));
}

#[test]
fn chunk_reader_empty_file() {
    let (chunks, end) = read_all(0, 0);
    assert!(chunks.is_empty());
    assert_eq!(end, ReadOutcome::Finished);
}

#[test]
fn chunk_reader_notices_growth_and_shrinking() {
    let size = (BLOCK_SIZE + 1) as u64;
    assert_eq!(read_all(size, size + 1).1, ReadOutcome::SizeChanged);
    assert_eq!(read_all(size, size - 1).1, ReadOutcome::SizeChanged);
    assert_eq!(read_all(size, size * 3).1, ReadOutcome::SizeChanged);
    assert_eq!(read_all(0, 1).1, ReadOutcome::SizeChanged);
}

#[test]
fn compression_budget() {
    let mut budget = CompressionBudget::new(100);
    assert!(budget.charge(60));
    assert!(budget.charge(40));
    assert!(!budget.charge(1));
    let mut budget = CompressionBudget::new(0);
    assert!(budget.charge(0));
    assert!(!budget.charge(1));
}

#[test]
fn compare_steps() {
    assert_eq!(compare_step(&[], &[]), CompareStep::Identical);
    assert_eq!(compare_step(&[1], &[]), CompareStep::SizeMismatch);
    assert_eq!(compare_step(&[], &[1]), CompareStep::SizeMismatch);
    assert_eq!(compare_step(&[1, 2, 3], &[1, 2]), CompareStep::Consume(2));
    assert_eq!(compare_step(&[1, 2, 3], &[1, 2, 3, 4]), CompareStep::Consume(3));
    assert_eq!(compare_step(&[1, 2, 3], &[1, 9, 3]), CompareStep::ContentMismatch);
}

#[test]
fn chunk_holds_block() {
    let chunk = Chunk {
        block: vec![1, 2],
        orig_size: 7,
    };
    assert_eq!(chunk.block.len(), 2);
    assert_eq!(chunk.orig_size, 7);
}
