use applesauce::compressor::zlib::Zlib;
use applesauce::compressor::Kind;
use applesauce::decmpfs::BlockInfo;
use applesauce::BLOCK_SIZE;
use applesauce::error::{Error, ErrorKind};

fn plaintext() -> Vec<u8> {
    let mut text = Vec::new();
    for i in 0..200u32 {
        text.extend_from_slice(b"impl Kind { pub const fn name(self) -> &'static str { match self ");
        text.extend_from_slice(format!("{{ Kind::Zlib => \"ZLIB\", /* line {i} */ }} }} }}\n").as_bytes());
    }
    text
}

fn compressor_round_trip(c: &mut Zlib, level: u32) {
    let plaintext = plaintext();
    let mut buf = vec![0u8; plaintext.len() * 2];
    let len = c.compress(&mut buf, &plaintext, level).unwrap();
    assert!(len > 0);
    assert!(len < buf.len());
    let ciphertext = &buf[..len];
    let mut buf = vec![0u8; plaintext.len() + 1];
    let len = c.decompress(&mut buf, ciphertext).unwrap();
    assert_eq!(&buf[..len], &plaintext[..]);
}

#[test]
fn zlib_round_trip() {
    let mut compressor = Zlib;
    compressor_round_trip(&mut compressor, 6);
}

#[test]
fn zlib_extra_size() {
    assert_eq!(Zlib::header_size(0) + Zlib::trailer_size(), 0x13A);
    assert_eq!(Zlib::extra_size(0), 0x13A);
}

#[test]
fn zlib_finish() {
    // The data ends at 0x200: the resource fork is zero up to there.
    let mut rfork = vec![0u8; 0x200];
    let mut position = 0x200u64;
    let block_sizes = &[10, 20, 30, 40, 10];

    Zlib::finish(&mut rfork, &mut position, block_sizes).unwrap();
    assert_eq!(position, Zlib::header_size(block_sizes.len() as u64));
    let result = rfork;
    assert_eq!(
        result[..16],
        [0, 0, 1, 0, 0, 0, 2, 0, 0, 0, 1, 0, 0, 0, 0, 0x32]
    );
    assert!(result[16..0x100].iter().all(|&b| b == 0));
    assert_eq!(result[0x100..0x104], u32::to_be_bytes(0x200 - 0x104));
    assert_eq!(
        result[0x104..0x108],
        u32::to_le_bytes(block_sizes.len() as _)
    );

    // The data of the blocks ends right after their table.
    let block_sizes: &[u32] = &[10, 20, 30, 40, 10];
    let blocks_start = Zlib::header_size(block_sizes.len() as u64);
    let data_end = 110 + blocks_start as u32;
    // The writer stands at the end of the data; the fork is extended up to
    // there with zeros.
    let mut rfork = Vec::new();
    let mut position = u64::from(data_end);

    Zlib::finish(&mut rfork, &mut position, block_sizes).unwrap();
    assert_eq!(position, blocks_start);
    let len = rfork.len() as u64;
    assert_eq!(
        len,
        110 + Zlib::header_size(block_sizes.len() as u64) + Zlib::trailer_size()
    );
    let result = &rfork;
    assert_eq!(result[..16], applesauce::compressor::zlib::header(data_end)[..]);
    assert!(result[16..0x100].iter().all(|&b| b == 0));
    assert_eq!(result[0x100..0x104], u32::to_be_bytes(data_end - 0x104));
    assert_eq!(
        result[0x104..0x108],
        u32::to_le_bytes(block_sizes.len() as _)
    );

    let block_info =
        Zlib::read_block_info(&rfork, (block_sizes.len() * BLOCK_SIZE) as u64).unwrap();
    let mut expected = Vec::new();
    let mut offset = blocks_start as u32;
    for &size in block_sizes {
        expected.push(BlockInfo {
            offset,
            compressed_size: size,
        });
        offset += size;
    }
    assert_eq!(block_info, expected);
    assert_eq!(
        Kind::Zlib
            .read_block_info(&rfork, (block_sizes.len() * BLOCK_SIZE) as u64)
            .unwrap(),
        expected
    );
}

#[test]
fn zlib_stores_incompressible_block() {
    // A block whose zlib stream is not shorter is stored after 0xff.
    let data: Vec<u8> = (0..64u32).map(|i| (i * 2654435761u32 >> 24) as u8).collect();
    let mut buf = vec![0u8; data.len() + 1];
    let len = Zlib.compress(&mut buf, &data, 6).unwrap();
    assert_eq!(len, data.len() + 1);
    assert_eq!(buf[0], 0xff);
    assert_eq!(&buf[1..], &data[..]);
    let mut out = vec![0u8; data.len()];
    let n = Zlib.decompress(&mut out, &buf).unwrap();
    assert_eq!(n, data.len());
    assert_eq!(out, data);
}

#[test]
fn zlib_decompress_errors() {
    let mut out = vec![0u8; 4];
    assert_eq!(Zlib.decompress(&mut out, &[]), Err(Error::UnexpectedEof));
    assert_eq!(Zlib.decompress(&mut out, &[0xff, 1, 2, 3, 4, 5]), Err(Error::WriteZero));
    let err = Zlib.decompress(&mut out, &[0x78, 0x9c, 0xff, 0xff]).unwrap_err();
    assert!(err == Error::CorruptStream || err == Error::UnexpectedEof);
    assert_eq!(Error::WriteZero.kind(), ErrorKind::WriteZero);
}

#[test]
fn zlib_finish_overflow_keeps_what_was_written() {
    // The second block's end does not fit in 32 bits: the trailer, header,
    // counts and the first two table entries are written, then it fails.
    let block_sizes: &[u32] = &[5, u32::MAX, 7];
    let mut rfork = vec![0xAAu8; 0x200];
    let mut position = 0x200u64;
    assert_eq!(
        Zlib::finish(&mut rfork, &mut position, block_sizes),
        Err(Error::TableOffsetOverflow)
    );
    assert_eq!(position, 0x108 + 16);
    assert_eq!(rfork.len(), 0x200 + 50);
    assert_eq!(rfork[..16], applesauce::compressor::zlib::header(0x200)[..]);
    assert_eq!(rfork[0x100..0x104], u32::to_be_bytes(0x200 - 0x104));
    assert_eq!(rfork[0x104..0x108], 3u32.to_le_bytes());
    let start = 4 + 8 * 3u32;
    assert_eq!(rfork[0x108..0x10c], start.to_le_bytes());
    assert_eq!(rfork[0x10c..0x110], 5u32.to_le_bytes());
    assert_eq!(rfork[0x110..0x114], (start + 5).to_le_bytes());
    assert_eq!(rfork[0x114..0x118], u32::MAX.to_le_bytes());
    // The third entry is not written.
    assert!(rfork[0x118..0x120].iter().all(|&b| b == 0xAA));
    assert_eq!(rfork[0x200..0x200 + 24], [0u8; 24]);
    assert_eq!(Error::TableOffsetOverflow.message(), "offset too large for 32 bytes");
}

#[test]
fn kind_finish_leaves_blocks_and_position() {
    let sizes: &[u32] = &[3, 4];
    let start = Kind::Zlib.header_size(2) as usize;
    let mut rfork = vec![0u8; start];
    rfork.extend_from_slice(&[1, 2, 3, 4, 5, 6, 7]);
    let mut position = rfork.len() as u64;
    Kind::Zlib.finish(&mut rfork, &mut position, sizes).unwrap();
    assert_eq!(position, start as u64);
    assert_eq!(&rfork[start..start + 7], &[1, 2, 3, 4, 5, 6, 7]);
    assert_eq!(rfork.len(), start + 7 + 50);
}
