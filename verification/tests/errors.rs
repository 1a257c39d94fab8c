use applesauce::compressor::zlib::{self, Zlib};
use applesauce::compressor::{lz, Kind};
use applesauce::decmpfs::{CompressionType, DiskHeader, Storage};
use applesauce::error::{Error, ErrorKind};
use applesauce::reader::Reader;
use applesauce::writer::Writer;
use applesauce::BLOCK_SIZE;

/// A finished zlib resource fork holding two blocks of 3 and 4 bytes.
fn zlib_fork() -> Vec<u8> {
    let sizes = [3u32, 4];
    let mut rfork = vec![0u8; Zlib::header_size(2) as usize + 7];
    let mut position = rfork.len() as u64;
    Zlib::finish(&mut rfork, &mut position, &sizes).unwrap();
    rfork
}

const TWO_BLOCKS: u64 = (BLOCK_SIZE + 1) as u64;

#[test]
fn zlib_fork_reads_back() {
    let rfork = zlib_fork();
    let infos = Zlib::read_block_info(&rfork, TWO_BLOCKS).unwrap();
    assert_eq!(infos.len(), 2);
    assert_eq!(infos[0].compressed_size, 3);
    assert_eq!(infos[1].compressed_size, 4);
}

#[test]
fn zlib_header_mismatch() {
    let mut rfork = zlib_fork();
    rfork[3] = 1;
    assert_eq!(Zlib::read_block_info(&rfork, TWO_BLOCKS), Err(Error::ZlibHeaderMismatch));
    assert_eq!(Zlib::read_block_info(&[0; 10], TWO_BLOCKS), Err(Error::ZlibHeaderMismatch));
}

#[test]
fn zlib_padding_not_zero() {
    let mut rfork = zlib_fork();
    rfork[0x20] = 1;
    assert_eq!(Zlib::read_block_info(&rfork, TWO_BLOCKS), Err(Error::ZlibPaddingNotZero));
}

#[test]
fn zlib_data_length_mismatch() {
    let mut rfork = zlib_fork();
    rfork[0x103] ^= 1;
    assert_eq!(Zlib::read_block_info(&rfork, TWO_BLOCKS), Err(Error::ZlibDataLengthMismatch));
}

#[test]
fn zlib_block_count_mismatch() {
    let rfork = zlib_fork();
    assert_eq!(Zlib::read_block_info(&rfork, 1), Err(Error::BlockCountMismatch));
}

#[test]
fn zlib_trailer_mismatch() {
    let mut rfork = zlib_fork();
    let last = rfork.len() - 1;
    rfork[last] ^= 1;
    assert_eq!(Zlib::read_block_info(&rfork, TWO_BLOCKS), Err(Error::ZlibTrailerMismatch));
}

#[test]
fn zlib_block_offset_overflow() {
    let mut rfork = zlib_fork();
    // The offset of the first block, relative to 0x104, pushed past 32 bits.
    rfork[0x108..0x10c].copy_from_slice(&u32::MAX.to_le_bytes());
    assert_eq!(Zlib::read_block_info(&rfork, TWO_BLOCKS), Err(Error::BlockOffsetOverflow));
}

#[test]
fn lz_block_overlap_and_offset_overflow() {
    // Offsets must not go backwards.
    let rfork = [12u8, 0, 0, 0, 14, 0, 0, 0, 13, 0, 0, 0, 0, 0];
    assert_eq!(lz::read_block_info(&rfork, TWO_BLOCKS), Err(Error::BlockOverlap));
    // Offsets must fit in 32 bits: the first offset is written, then the
    // end of the first block overflows.
    let mut rfork = vec![0u8; 12];
    let mut position = 12u64;
    assert_eq!(lz::finish(&mut rfork, &mut position, &[u32::MAX, 1]), Err(Error::OffsetOverflow));
    assert_eq!(rfork, vec![12, 0, 0, 0, 0, 0, 0, 0, 0, 0, 0, 0]);
    assert_eq!(position, 4);
    assert_eq!(Error::OffsetOverflow.kind(), ErrorKind::Other);
    assert_eq!(Error::OffsetOverflow.message(), "Unable to represent offset in 32 bits");
}

#[test]
fn writer_wrong_block_count() {
    let mut writer = Writer::new(Kind::Lzfse, TWO_BLOCKS);
    writer.add_block(vec![1, 2, 3]).unwrap();
    let mut decmpfs_data = Vec::new();
    assert_eq!(writer.finish_decmpfs_data(&mut decmpfs_data), Err(Error::WrongBlockCount));
    assert!(decmpfs_data.is_empty());
    assert_eq!(Error::WrongBlockCount.message(), "Wrong number of blocks");
}

#[test]
fn writer_refuses_second_inline_block() {
    let mut writer = Writer::new(Kind::Zlib, 10);
    assert!(writer.can_add_block(3));
    writer.add_block(vec![1, 2, 3]).unwrap();
    assert!(!writer.can_add_block(3));
    assert!(Writer::supports(Kind::Zlib, u32::MAX as u64));
    assert!(!Writer::supports(Kind::Lzfse, u64::MAX));
}

#[test]
fn reader_too_many_blocks() {
    let mut data = Vec::new();
    DiskHeader {
        compression_type: CompressionType::new(Kind::Lzvn, Storage::ResourceFork).raw_type(),
        uncompressed_size: u64::MAX,
    }
    .write_into(&mut data);
    assert_eq!(Reader::new(data, Vec::new()).unwrap_err(), Error::TooManyBlocks);
}

#[test]
fn reader_reads_lz_fork_block() {
    // One block of two bytes right after the offset table.
    let mut data = Vec::new();
    DiskHeader {
        compression_type: CompressionType::new(Kind::Lzvn, Storage::ResourceFork).raw_type(),
        uncompressed_size: 10,
    }
    .write_into(&mut data);
    let rfork = vec![8u8, 0, 0, 0, 10, 0, 0, 0, 0xaa, 0xbb];
    let mut reader = Reader::new(data, rfork).unwrap();
    let mut block = Vec::new();
    assert!(reader.read_block_into(&mut block).unwrap());
    assert_eq!(block, vec![0xaa, 0xbb]);
    assert_eq!(zlib::trailer().len(), 50);
}
