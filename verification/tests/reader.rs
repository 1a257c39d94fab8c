use applesauce::compressor::zlib::Zlib;
use applesauce::compressor::Kind;
use applesauce::decmpfs;
use applesauce::error::{Error, ErrorKind};
use applesauce::reader::Reader;
use applesauce::writer::{BlockDest, Writer};
use applesauce::BLOCK_SIZE;

/// Writes `bytes` into `fork` at `offset`, growing it as needed.
fn place(fork: &mut Vec<u8>, offset: u64, bytes: &[u8]) {
    let offset = offset as usize;
    if fork.len() < offset + bytes.len() {
        fork.resize(offset + bytes.len(), 0);
    }
    fork[offset..offset + bytes.len()].copy_from_slice(bytes);
}

/// Adds a block, writing it to `fork` where the writer places it.
fn add(writer: &mut Writer, fork: &mut Vec<u8>, block: Vec<u8>) {
    match writer.add_block(block).unwrap() {
        BlockDest::Xattr => {}
        BlockDest::ResourceFork { offset, block } => place(fork, offset, &block),
    }
}

/// Finishes the writer, returning the decmpfs xattr and the finished
/// resource fork, if the file has one.
fn finish(writer: Writer, mut fork: Vec<u8>) -> (Vec<u8>, Option<Vec<u8>>) {
    let mut decmpfs_data = Vec::new();
    let parts = writer.finish_decmpfs_data(&mut decmpfs_data).unwrap();
    let fork = parts.map(|parts| {
        place(&mut fork, 0, &parts.head);
        place(&mut fork, parts.data_end, &parts.tail);
        fork
    });
    (decmpfs_data, fork)
}

#[test]
fn invalid_magic() {
    let reader_err = Reader::new(vec![0; decmpfs::HEADER_LEN], Vec::new()).unwrap_err();
    assert_eq!(reader_err.kind(), ErrorKind::InvalidData);
}

#[test]
fn reader_reads_back_inline_block() {
    let mut writer = Writer::new(Kind::Zlib, 3);
    let mut fork = Vec::new();
    add(&mut writer, &mut fork, vec![7, 8, 9]);
    let (decmpfs_data, rfork) = finish(writer, fork);
    assert!(rfork.is_none());

    let mut reader = Reader::new(decmpfs_data, Vec::new()).unwrap();
    assert_eq!(reader.compression_kind(), Kind::Zlib);
    assert_eq!(reader.remaining_blocks(), 1);
    let mut block = Vec::new();
    assert!(reader.read_block_into(&mut block).unwrap());
    assert_eq!(block, vec![7, 8, 9]);
    assert_eq!(reader.remaining_blocks(), 0);
    block.clear();
    assert!(!reader.read_block_into(&mut block).unwrap());
}

fn resource_fork_round_trip(kind: Kind) {
    let size = (BLOCK_SIZE * 2 + 5) as u64;
    let blocks: Vec<Vec<u8>> = vec![vec![1; 100], vec![2; 5000], vec![3; 9]];
    let mut writer = Writer::new(kind, size);
    let mut fork = Vec::new();
    for block in &blocks {
        add(&mut writer, &mut fork, block.clone());
    }
    let (decmpfs_data, rfork) = finish(writer, fork);
    let rfork = rfork.unwrap();

    let mut reader = Reader::new(decmpfs_data, rfork).unwrap();
    assert_eq!(reader.compression_kind(), kind);
    assert_eq!(reader.remaining_blocks(), 3);
    for block in &blocks {
        let mut got = Vec::new();
        assert!(reader.read_block_into(&mut got).unwrap());
        assert_eq!(&got, block);
    }
    let mut got = Vec::new();
    assert!(!reader.read_block_into(&mut got).unwrap());
    assert!(got.is_empty());
}

#[test]
fn reader_reads_back_zlib_resource_fork() {
    resource_fork_round_trip(Kind::Zlib);
}

#[test]
fn reader_reads_back_lzfse_resource_fork() {
    resource_fork_round_trip(Kind::Lzfse);
}

#[test]
fn reader_reads_back_lzvn_resource_fork() {
    resource_fork_round_trip(Kind::Lzvn);
}

#[test]
fn reader_rejects_unknown_compression_type() {
    let mut data = Vec::new();
    decmpfs::DiskHeader {
        compression_type: 99,
        uncompressed_size: 10,
    }
    .write_into(&mut data);
    assert_eq!(Reader::new(data, Vec::new()).unwrap_err(), Error::Unsupported);
}

#[test]
fn reader_rejects_short_resource_fork() {
    let mut data = Vec::new();
    decmpfs::DiskHeader {
        compression_type: decmpfs::CompressionType::new(Kind::Lzfse, decmpfs::Storage::ResourceFork)
            .raw_type(),
        uncompressed_size: 10,
    }
    .write_into(&mut data);
    assert_eq!(Reader::new(data, vec![0; 3]).unwrap_err().kind(), ErrorKind::UnexpectedEof);
}

#[test]
fn reader_needs_resource_fork_only_for_forked_files() {
    let mut writer = Writer::new(Kind::Lzvn, 3);
    let mut fork = Vec::new();
    add(&mut writer, &mut fork, vec![1, 2, 3]);
    let (inline, _) = finish(writer, fork);
    assert!(!Reader::needs_resource_fork(&inline));

    let mut forked = Vec::new();
    decmpfs::DiskHeader {
        compression_type: decmpfs::CompressionType::new(Kind::Lzvn, decmpfs::Storage::ResourceFork)
            .raw_type(),
        uncompressed_size: 3,
    }
    .write_into(&mut forked);
    assert!(Reader::needs_resource_fork(&forked));
    assert!(!Reader::needs_resource_fork(&[]));
}

/// Compresses `uncompressed_data` block by block with zlib, stores it with
/// a writer, and reads and decompresses it back.
fn zlib_compressed_round_trip(uncompressed_data: &[u8]) {
    let kind = Kind::Zlib;
    let mut compressor = Zlib;
    let mut writer = Writer::new(kind, uncompressed_data.len() as u64);
    let mut fork = Vec::new();
    let mut compressed_block = vec![0; BLOCK_SIZE * 2];
    for block in uncompressed_data.chunks(BLOCK_SIZE) {
        let len = compressor.compress(&mut compressed_block, block, 5).unwrap();
        add(&mut writer, &mut fork, compressed_block[..len].to_vec());
    }
    let (decmpfs_data, fork) = finish(writer, fork);

    let mut reader = Reader::new(decmpfs_data, fork.unwrap_or_default()).unwrap();
    assert_eq!(reader.compression_kind(), kind);
    assert_eq!(
        reader.remaining_blocks(),
        applesauce::num_blocks(uncompressed_data.len() as u64) as usize
    );

    let mut clear_data = Vec::new();
    let mut clear_buf = vec![0; BLOCK_SIZE + 1];
    loop {
        compressed_block.clear();
        if !reader.read_block_into(&mut compressed_block).unwrap() {
            break;
        }
        let len = compressor.decompress(&mut clear_buf, &compressed_block).unwrap();
        let expected_len = if reader.remaining_blocks() != 0 || uncompressed_data.len() % BLOCK_SIZE == 0 {
            BLOCK_SIZE
        } else {
            uncompressed_data.len() % BLOCK_SIZE
        };
        assert_eq!(len, expected_len);
        clear_data.extend_from_slice(&clear_buf[..len]);
    }
    assert_eq!(clear_data, uncompressed_data);
}

fn sample_text(len: usize) -> Vec<u8> {
    let line = b"pub fn finish_decmpfs_data(self, dst: &mut Vec<u8>) -> io::Result<()> {\n";
    line.iter().copied().cycle().take(len).collect()
}

#[test]
fn reader_round_trip_zlib_small() {
    zlib_compressed_round_trip(&sample_text(1000));
}

#[test]
fn reader_round_trip_zlib_several_blocks() {
    zlib_compressed_round_trip(&sample_text(3 * BLOCK_SIZE + 17));
}

#[test]
fn reader_round_trip_zlib_exact_blocks() {
    zlib_compressed_round_trip(&sample_text(2 * BLOCK_SIZE));
}

#[test]
fn reader_round_trip_zlib_incompressible() {
    // Pseudo-random bytes do not compress: each block is stored raw.
    let mut state: u32 = 12345;
    let data: Vec<u8> = (0..(BLOCK_SIZE + 300))
        .map(|_| {
            state = state.wrapping_mul(1103515245).wrapping_add(12345);
            (state >> 16) as u8
        })
        .collect();
    zlib_compressed_round_trip(&data);
}
