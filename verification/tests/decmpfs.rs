use applesauce::compressor::Kind;
use applesauce::decmpfs::{
    BlockInfo, CompressionType, DecodeError, DiskHeader, Storage, Value, ZlibBlockInfo, HEADER_LEN,
    MAX_XATTR_DATA_SIZE, MAX_XATTR_SIZE,
};

#[test]
fn compression_type_numbers() {
    let cases = [
        (Kind::Zlib, Storage::Xattr, 3),
        (Kind::Zlib, Storage::ResourceFork, 4),
        (Kind::Lzvn, Storage::Xattr, 7),
        (Kind::Lzvn, Storage::ResourceFork, 8),
        (Kind::Lzfse, Storage::Xattr, 11),
        (Kind::Lzfse, Storage::ResourceFork, 12),
    ];
    for (kind, storage, n) in cases {
        let t = CompressionType::new(kind, storage);
        assert_eq!(t.raw_type(), n);
        assert_eq!(t.compression_storage(), Some((kind, storage)));
        assert_eq!(CompressionType::from_raw_type(n).compression_storage(), Some((kind, storage)));
    }
    assert_eq!(CompressionType::from_raw_type(5).compression_storage(), None);
    assert_eq!(Storage::ResourceFork.description(), "resource fork");
}

#[test]
fn compression_type_text() {
    assert_eq!(
        CompressionType::new(Kind::Lzfse, Storage::ResourceFork).to_text(),
        "LZFSE in resource fork"
    );
    assert_eq!(
        CompressionType::new(Kind::Zlib, Storage::Xattr).to_text(),
        "ZLIB in decmpfs xattr"
    );
    assert_eq!(
        CompressionType::from_raw_type(42).to_text(),
        "unknown compression type: 42"
    );
}

#[test]
fn value_round_trip() {
    let extra = [9u8, 8, 7];
    let value = Value {
        compression_type: CompressionType::new(Kind::Zlib, Storage::Xattr),
        uncompressed_size: 0x0102_0304_0506_0708,
        extra_data: &extra,
    };
    assert_eq!(value.len(), HEADER_LEN + 3);
    let mut out = vec![0xaa];
    value.write_to(&mut out);
    assert_eq!(
        out,
        vec![0xaa, b'f', b'p', b'm', b'c', 3, 0, 0, 0, 8, 7, 6, 5, 4, 3, 2, 1, 9, 8, 7]
    );
    let back = Value::from_data(&out[1..]).unwrap();
    assert_eq!(back.compression_type.raw_type(), 3);
    assert_eq!(back.uncompressed_size, 0x0102_0304_0506_0708);
    assert_eq!(back.extra_data, &extra);
}

#[test]
fn value_decode_errors() {
    assert_eq!(Value::from_data(&[0; 15]).unwrap_err(), DecodeError::TooSmall);
    assert_eq!(Value::from_data(&[0; 16]).unwrap_err(), DecodeError::BadMagic);
    assert_eq!(
        DecodeError::BadMagic.message(),
        "decmpfs xattr magic field has incorrect value"
    );
}

#[test]
fn disk_header_and_block_infos() {
    let mut out = Vec::new();
    DiskHeader {
        compression_type: 12,
        uncompressed_size: 5,
    }
    .write_into(&mut out);
    assert_eq!(out, vec![b'f', b'p', b'm', b'c', 12, 0, 0, 0, 5, 0, 0, 0, 0, 0, 0, 0]);

    let info = BlockInfo {
        offset: 0x0403_0201,
        compressed_size: 0x0807_0605,
    };
    assert_eq!(info.to_bytes(), [1, 2, 3, 4, 5, 6, 7, 8]);
    assert_eq!(BlockInfo::from_bytes([1, 2, 3, 4, 5, 6, 7, 8]), info);

    let mut out = Vec::new();
    ZlibBlockInfo {
        offset: 1,
        compressed_size: 2,
    }
    .write_into(&mut out);
    assert_eq!(out, vec![1, 0, 0, 0, 2, 0, 0, 0]);
    assert_eq!(MAX_XATTR_SIZE - HEADER_LEN, MAX_XATTR_DATA_SIZE);
}
