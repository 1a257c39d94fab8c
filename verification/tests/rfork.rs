use applesauce::rfork::{ForkError, ResourceForkCursor, SeekFrom};

#[test]
fn seeks_without_data() {
    // As on a file without a resource fork: seeking moves the offset only.
    let mut rfork = ResourceForkCursor::new();
    assert_eq!(rfork.seek(SeekFrom::Start(10), 0), Ok(10));
    assert_eq!(rfork.seek(SeekFrom::Current(1), 0), Ok(11));
    assert_eq!(rfork.seek(SeekFrom::End(0), 0), Ok(0));
}

#[test]
fn writes_advance_the_offset() {
    let mut rfork = ResourceForkCursor::new();
    let data = b"hi there";
    assert_eq!(rfork.wrote(data.len()), Ok(data.len()));
    assert_eq!(rfork.position(), 8);
    assert_eq!(rfork.seek(SeekFrom::Current(10), 8), Ok(18));
    assert_eq!(rfork.remaining(8), 0);
    assert_eq!(rfork.seek(SeekFrom::Current(-11), 8), Ok(7));
    assert_eq!(rfork.remaining(8), 1);
    assert_eq!(rfork.read_len(rfork.remaining(8), 1024), 1);
    assert_eq!(rfork.seek(SeekFrom::Start(0), 8), Ok(0));
    assert_eq!(rfork.read_len(8, 1024), 8);
    assert_eq!(rfork.read_len(8, 3), 3);
}

#[test]
fn offsets_are_32_bits() {
    let mut rfork = ResourceForkCursor::new();
    assert_eq!(rfork.seek(SeekFrom::Start(1 << 32), 0), Err(ForkError::InvalidInput));
    assert_eq!(rfork.position(), 0);
    assert_eq!(rfork.seek(SeekFrom::Current(-1), 0), Err(ForkError::InvalidInput));
    assert_eq!(rfork.seek(SeekFrom::End(-1), 0), Err(ForkError::InvalidInput));
    assert_eq!(rfork.seek(SeekFrom::Start(u32::MAX as u64 - 1), 0), Ok(u32::MAX as u64 - 1));
    assert_eq!(rfork.write_end(1), Ok(u32::MAX));
    assert_eq!(rfork.wrote(2), Err(ForkError::TooLarge));
    assert_eq!(rfork.position(), u32::MAX - 1);
    assert_eq!(ForkError::TooLarge.message(), "unable to fit resource fork in 32 bits");
}
