use applesauce::compressor::Kind;
use applesauce::decmpfs;
use applesauce::error::ErrorKind;
use applesauce::reader::Reader;
use applesauce::writer::{BlockDest, Writer};
use applesauce::BLOCK_SIZE;

/// Writes `bytes` into `fork` at `offset`, growing it as needed.
fn place(fork: &mut Vec<u8>, offset: u64, bytes: &[u8]) {
    let offset = offset as usize;
    if fork.len() < offset + bytes.len() {
        fork.resize(offset + bytes.len(), 0);
    }
    fork[offset..offset + bytes.len()].copy_from_slice(bytes);
}

/// Adds a block, writing it to `fork` where the writer places it.
fn add(writer: &mut Writer, fork: &mut Vec<u8>, block: Vec<u8>) {
    match writer.add_block(block).unwrap() {
        BlockDest::Xattr => {}
        BlockDest::ResourceFork { offset, block } => place(fork, offset, &block),
    }
}

/// Finishes the writer, returning the decmpfs xattr and the finished
/// resource fork, if the file has one.
fn finish(writer: Writer, mut fork: Vec<u8>) -> (Vec<u8>, Option<Vec<u8>>) {
    let mut decmpfs_data = Vec::new();
    let parts = writer.finish_decmpfs_data(&mut decmpfs_data).unwrap();
    let fork = parts.map(|parts| {
        place(&mut fork, 0, &parts.head);
        place(&mut fork, parts.data_end, &parts.tail);
        fork
    });
    (decmpfs_data, fork)
}

#[test]
fn mod_empty() {
    let writer = Writer::new(Kind::default(), 0);

    let (decmpfs_data, resource_fork) = finish(writer, Vec::new());
    assert!(resource_fork.is_none());

    let value = decmpfs::Value::from_data(&decmpfs_data).unwrap();
    let (kind, storage) = value.compression_type.compression_storage().unwrap();
    assert_eq!(kind, Kind::default());
    assert_eq!(storage, decmpfs::Storage::Xattr);
    assert!(value.extra_data.is_empty());

    // Nothing can be read from no decmpfs data at all.
    let reader_err = Reader::new(Vec::new(), Vec::new()).unwrap_err();
    assert_eq!(reader_err.kind(), ErrorKind::UnexpectedEof);
}

#[test]
fn small_block_store_inplace() {
    // Uses a single block to store this much data
    let uncompressed_size = 10;
    let compressed_block = vec![1, 2, 3];
    let mut writer = Writer::new(Kind::default(), uncompressed_size);
    let mut fork = Vec::new();
    add(&mut writer, &mut fork, compressed_block.clone());

    let (decmpfs_data, resource_fork) = finish(writer, fork);
    assert!(resource_fork.is_none());

    let value = decmpfs::Value::from_data(&decmpfs_data).unwrap();
    let (kind, storage) = value.compression_type.compression_storage().unwrap();
    assert_eq!(kind, Kind::default());
    assert_eq!(storage, decmpfs::Storage::Xattr);
    assert_eq!(value.extra_data, compressed_block);
}

#[test]
fn large_single_block() {
    // Treat a single block which can't fit in the decmpfs xattr when compressed the same way we treat
    // multiple blocks

    let uncompressed_size = BLOCK_SIZE as u64;
    let compressed_block = vec![0x1A; decmpfs::MAX_XATTR_DATA_SIZE + 1];

    let mut writer = Writer::new(Kind::default(), uncompressed_size);

    let mut fork = Vec::new();
    add(&mut writer, &mut fork, compressed_block.clone());

    let (decmpfs_data, resource_fork) = finish(writer, fork);
    let resource_fork = resource_fork.unwrap();

    let value = decmpfs::Value::from_data(&decmpfs_data).unwrap();
    let (kind, storage) = value.compression_type.compression_storage().unwrap();
    assert_eq!(kind, Kind::default());
    assert_eq!(storage, decmpfs::Storage::ResourceFork);
    assert!(value.extra_data.is_empty());

    let block_infos = kind
        .read_block_info(&resource_fork, uncompressed_size)
        .unwrap();
    assert_eq!(
        block_infos,
        [decmpfs::BlockInfo {
            offset: kind.header_size(1) as u32,
            compressed_size: compressed_block.len() as u32,
        }]
    );
    assert_eq!(
        &resource_fork[kind.header_size(1) as usize..][..compressed_block.len()],
        compressed_block
    );
}

#[test]
fn multiple_small_blocks() {
    let uncompressed_size = 2 * BLOCK_SIZE as u64;
    let compressed_block = vec![0x1A; 10];

    let mut writer = Writer::new(Kind::default(), uncompressed_size);

    let mut fork = Vec::new();
    add(&mut writer, &mut fork, compressed_block.clone());
    add(&mut writer, &mut fork, compressed_block.clone());

    let (decmpfs_data, resource_fork) = finish(writer, fork);
    let resource_fork = resource_fork.unwrap();

    let value = decmpfs::Value::from_data(&decmpfs_data).unwrap();
    let (kind, storage) = value.compression_type.compression_storage().unwrap();
    assert_eq!(kind, Kind::default());
    assert_eq!(storage, decmpfs::Storage::ResourceFork);
    assert!(value.extra_data.is_empty());

    let block_infos = kind
        .read_block_info(&resource_fork, uncompressed_size)
        .unwrap();
    let header_size = kind.header_size(2) as u32;
    assert_eq!(
        block_infos,
        [
            decmpfs::BlockInfo {
                offset: header_size,
                compressed_size: compressed_block.len() as u32,
            },
            decmpfs::BlockInfo {
                offset: (header_size as usize + compressed_block.len()) as u32,
                compressed_size: compressed_block.len() as u32,
            },
        ]
    );
    let resource_fork_data = &resource_fork[header_size as usize..];
    let resource_fork_data = &resource_fork_data[..compressed_block.len() * 2];
    assert_eq!(
        &resource_fork_data[..compressed_block.len()],
        compressed_block
    );
    assert_eq!(
        &resource_fork_data[compressed_block.len()..],
        compressed_block
    );
}

#[test]
fn writer_places_blocks_one_after_another() {
    let kind = Kind::Zlib;
    let mut writer = Writer::new(kind, 3 * BLOCK_SIZE as u64);
    let header_size = kind.header_size(3);
    let mut expected_offset = header_size;
    for len in [5usize, 7000, 1] {
        match writer.add_block(vec![9; len]).unwrap() {
            BlockDest::ResourceFork { offset, block } => {
                assert_eq!(offset, expected_offset);
                assert_eq!(block, vec![9; len]);
            }
            BlockDest::Xattr => panic!("a file of several blocks keeps them in the resource fork"),
        }
        expected_offset += len as u64;
    }
    let mut decmpfs_data = Vec::new();
    let parts = writer.finish_decmpfs_data(&mut decmpfs_data).unwrap().unwrap();
    assert_eq!(parts.head.len() as u64, header_size);
    assert_eq!(parts.data_end, expected_offset);
}

#[test]
fn writer_keeps_small_single_block_for_xattr() {
    let mut writer = Writer::new(Kind::Lzfse, 10);
    assert_eq!(writer.add_block(vec![1, 2, 3]).unwrap(), BlockDest::Xattr);
}

#[test]
fn writer_xattr_limit_decides_storage() {
    // A single block of exactly the xattr limit stays in the xattr; one
    // byte more moves the file to the resource fork.
    let mut writer = Writer::new(Kind::Zlib, 100);
    let block = vec![7u8; decmpfs::MAX_XATTR_DATA_SIZE];
    assert_eq!(writer.add_block(block.clone()).unwrap(), BlockDest::Xattr);
    let (xattr, fork) = finish(writer, Vec::new());
    assert!(fork.is_none());
    let value = decmpfs::Value::from_data(&xattr).unwrap();
    assert_eq!(value.extra_data, block);

    let mut writer = Writer::new(Kind::Zlib, 100);
    let block = vec![7u8; decmpfs::MAX_XATTR_DATA_SIZE + 1];
    let mut fork = Vec::new();
    add(&mut writer, &mut fork, block.clone());
    let (xattr, fork) = finish(writer, fork);
    let value = decmpfs::Value::from_data(&xattr).unwrap();
    assert_eq!(value.compression_type.compression_storage(), Some((Kind::Zlib, decmpfs::Storage::ResourceFork)));
    let fork = fork.unwrap();
    let start = Kind::Zlib.header_size(1) as usize;
    assert_eq!(&fork[start..start + block.len()], &block[..]);
}
