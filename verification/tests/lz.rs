use applesauce::compressor::lz;
use applesauce::compressor::Kind;
use applesauce::decmpfs::BlockInfo;
use applesauce::error::Error;
use applesauce::BLOCK_SIZE;

#[test]
fn lz_finish() {
    let block_sizes: &[u32] = &[10, 20, 30, 40, 10];
    let blocks_start = lz::header_size(block_sizes.len() as u64);
    let data_end = 110 + blocks_start as u32;
    // The resource fork is extended to the end of the data.
    let mut rfork = vec![0u8; data_end as usize];
    let mut position = u64::from(data_end);

    lz::finish(&mut rfork, &mut position, block_sizes).unwrap();
    assert_eq!(position, blocks_start);
    let len = rfork.len() as u64;
    assert_eq!(len, 110 + lz::header_size(block_sizes.len() as u64));

    let block_info = lz::read_block_info(&rfork, (block_sizes.len() * BLOCK_SIZE) as u64).unwrap();
    let mut expected_block_info = Vec::new();
    let mut offset = blocks_start as u32;
    for &size in block_sizes {
        expected_block_info.push(BlockInfo {
            offset,
            compressed_size: size,
        });
        offset += size;
    }
    assert_eq!(block_info, expected_block_info);
}

#[test]
fn lz_header_holds_offsets() {
    let block_sizes: &[u32] = &[3, 4];
    let mut rfork = vec![0u8; 12 + 7];
    let mut position = rfork.len() as u64;
    lz::finish(&mut rfork, &mut position, block_sizes).unwrap();
    assert_eq!(position, 12);
    assert_eq!(&rfork[..12], &[12, 0, 0, 0, 15, 0, 0, 0, 19, 0, 0, 0]);
    assert_eq!(Kind::Lzvn.blocks_start(2), 12);
    assert_eq!(Kind::Lzfse.header_size(2), 12);
}

#[test]
fn lz_read_block_info_errors() {
    // Too short for the offsets table.
    assert_eq!(lz::read_block_info(&[0; 3], 1), Err(Error::UnexpectedEof));
    // The first offset must point right after the table.
    let rfork = [9, 0, 0, 0, 9, 0, 0, 0, 0];
    assert_eq!(lz::read_block_info(&rfork, 1), Err(Error::UnexpectedFirstOffset));
}

#[test]
fn lz_read_refuses_wrong_data_length() {
    // The data of the blocks must end where the resource fork ends.
    let mut rfork = vec![0u8; 12 + 6];
    let mut position = rfork.len() as u64;
    lz::finish(&mut rfork, &mut position, &[3, 4]).unwrap();
    assert_eq!(lz::read_block_info(&rfork, (BLOCK_SIZE + 1) as u64), Err(Error::LastBlockNotAtEnd));
}

#[test]
fn lz_stored_block_round_trip() {
    let src = [5u8, 6, 7];
    let mut dst = [0u8; 4];
    assert_eq!(lz::finish_compress(2, &mut dst, &src, Some(0x06)), Ok(2));
    assert_eq!(lz::finish_compress(0, &mut dst, &src, None), Err(Error::WriteZero));
    let n = lz::finish_compress(0, &mut dst, &src, Some(0x06)).unwrap();
    assert_eq!(n, 4);
    assert_eq!(dst, [0x06, 5, 6, 7]);
    let mut out = [0u8; 3];
    assert_eq!(lz::decompress_stored(&mut out, &dst, Some(0x06)), Some(Ok(3)));
    assert_eq!(out, src);
    assert_eq!(lz::finish_decompress(0, 5), Err(Error::WriteZero));
    assert_eq!(lz::finish_decompress(5, 5), Err(Error::WriteZero));
    assert_eq!(lz::finish_decompress(4, 5), Ok(4));
}

#[test]
fn lz_finish_extends_a_short_fork() {
    // A fork shorter than its offset table grows to hold it.
    let mut rfork = vec![0xAAu8; 2];
    let mut position = 2u64;
    lz::finish(&mut rfork, &mut position, &[1, 2]).unwrap();
    assert_eq!(rfork, vec![12, 0, 0, 0, 13, 0, 0, 0, 15, 0, 0, 0]);
    assert_eq!(position, 12);

    let mut rfork = Vec::new();
    let mut position = 0u64;
    Kind::Lzvn.finish(&mut rfork, &mut position, &[]).unwrap();
    assert_eq!(rfork, vec![4, 0, 0, 0]);
    assert_eq!(position, 4);
}
