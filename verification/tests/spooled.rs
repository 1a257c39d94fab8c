use applesauce::rfork::SeekFrom;
use applesauce::spooled::{MemoryCursor, SpoolSeek, SpooledData, SpooledFile};

#[test]
fn cursor_writes_like_a_vec_cursor() {
    let mut c = MemoryCursor::new(vec![1, 2, 3, 4]);
    assert_eq!(c.write(&[9, 9]), 2);
    assert_eq!(c.get_ref(), &vec![9, 9, 3, 4]);
    assert_eq!(c.position(), 2);
    c.set_position(3);
    assert_eq!(c.write(&[7, 7, 7]), 3);
    assert_eq!(c.get_ref(), &vec![9, 9, 3, 7, 7, 7]);
    c.set_position(8);
    assert_eq!(c.write(&[5]), 1);
    assert_eq!(c.into_inner(), vec![9, 9, 3, 7, 7, 7, 0, 0, 5]);
}

#[test]
fn spooled_file_stays_in_memory_within_capacity() {
    let mut f = SpooledFile::new(8, || Vec::<u8>::new());
    assert!(!f.write_needs_roll(8));
    assert_eq!(f.write_memory(b"abcd"), Some(4));
    assert!(!f.write_needs_roll(4));
    assert!(f.write_needs_roll(5));
    assert_eq!(f.seek_memory(SeekFrom::Current(-2)), SpoolSeek::Done(2));
    assert_eq!(f.seek_memory(SeekFrom::End(1)), SpoolSeek::Done(5));
    assert_eq!(f.seek_memory(SeekFrom::End(-5)), SpoolSeek::InvalidInput);
    assert_eq!(f.seek_memory(SeekFrom::Start(9)), SpoolSeek::NeedsRoll);
    assert!(f.is_in_memory());
    match f.finish() {
        SpooledData::Memory(m) => {
            assert_eq!(m.position(), 5);
            assert_eq!(m.into_inner(), b"abcd".to_vec());
        }
        SpooledData::File(_) => panic!("should still be in memory"),
    }
}

#[test]
fn spooled_file_rolls_over() {
    let mut f = SpooledFile::new(4, || vec![0xaau8]);
    assert_eq!(f.write_memory(b"abc"), Some(3));
    assert!(f.write_needs_roll(2));
    let (mut file, data, offset) = f.take_for_roll().unwrap();
    assert_eq!(file, vec![0xaa]);
    assert_eq!(data, b"abc".to_vec());
    assert_eq!(offset, 3);
    file.clear();
    file.extend_from_slice(&data);
    f.finish_roll(file);
    assert!(!f.is_in_memory());
    assert!(!f.write_needs_roll(100));
    assert_eq!(f.write_memory(b"de"), None);
    assert_eq!(f.seek_memory(SeekFrom::Start(0)), SpoolSeek::InFile);
    assert!(f.take_for_roll().is_none());
    match f.finish() {
        SpooledData::File(file) => assert_eq!(file, b"abc".to_vec()),
        SpooledData::Memory(_) => panic!("should be in the file"),
    }
}

#[test]
fn spooled_consecutive_writes_concatenate() {
    let mut f = SpooledFile::new(10, || Vec::<u8>::new());
    for part in [&b"ab"[..], b"", b"cde", b"fghij"] {
        assert!(!f.write_needs_roll(part.len()));
        assert_eq!(f.write_memory(part), Some(part.len()));
    }
    match f.finish() {
        SpooledData::Memory(m) => {
            assert_eq!(m.position(), 10);
            assert_eq!(m.into_inner(), b"abcdefghij".to_vec());
        }
        SpooledData::File(_) => panic!("writes within the capacity stay in memory"),
    }
}
