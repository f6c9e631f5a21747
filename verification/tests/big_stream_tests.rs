use ootr::big_stream::{view_concat, view_get_index, view_get_slice, view_set_slice, BigStream, StreamError};

#[test]
fn new_stream_starts_at_zero() {
    let s = BigStream::new(vec![1, 2, 3]);
    assert_eq!(s.last_address(), 0);
    assert_eq!(s.buffer(), &vec![1, 2, 3]);
    assert!(!s.eof());
}

#[test]
fn reads_move_the_cursor() {
    let mut s = BigStream::new(vec![0x12, 0x34, 0x56, 0x78, 0x9a, 0xbc, 0xde, 0xf0, 0x01, 0x02]);
    assert_eq!(s.read_byte(None), Ok(0x12));
    assert_eq!(s.last_address(), 1);
    assert_eq!(s.read_int16(None), Ok(0x3456));
    assert_eq!(s.read_int24(None), Ok(0x789abc));
    assert_eq!(s.read_int32(Some(6)), Ok(0xdef00102));
    assert_eq!(s.last_address(), 10);
    assert!(s.eof());
}

#[test]
fn reads_past_end_fail_but_move_the_cursor() {
    let mut s = BigStream::new(vec![1, 2, 3]);
    assert_eq!(s.read_int32(Some(1)), Err(StreamError::ReadPastEnd));
    assert_eq!(s.last_address(), 5);
    assert_eq!(s.read_byte(Some(3)), Err(StreamError::ReadPastEnd));
    assert_eq!(s.read_bytes(Some(1), 2), Ok(vec![2, 3]));
    assert_eq!(s.read_bytes(Some(2), 2), Err(StreamError::ReadPastEnd));
}

#[test]
fn writes_then_reads_round_trip() {
    let mut s = BigStream::new(vec![0; 12]);
    assert_eq!(s.write_int16(Some(0), 0xbeef), Ok(()));
    assert_eq!(s.write_int24(None, 0x123456), Ok(()));
    assert_eq!(s.write_int32(None, 0xcafebabe), Ok(()));
    assert_eq!(s.last_address(), 9);
    assert_eq!(s.read_int16(Some(0)), Ok(0xbeef));
    assert_eq!(s.read_int24(Some(2)), Ok(0x123456));
    assert_eq!(s.read_int32(Some(5)), Ok(0xcafebabe));
    assert_eq!(s.buffer(), &vec![0xbe, 0xef, 0x12, 0x34, 0x56, 0xca, 0xfe, 0xba, 0xbe, 0, 0, 0]);
}

#[test]
fn write_errors() {
    let mut s = BigStream::new(vec![0; 4]);
    assert_eq!(s.write_byte(Some(4), 1), Err(StreamError::WritePastEnd));
    assert_eq!(s.write_int24(Some(0), 0x100_0000), Err(StreamError::ValueTooLarge));
    assert_eq!(s.buffer(), &vec![0; 4]);
    assert_eq!(s.write_sbyte(Some(1), -1), Ok(()));
    assert_eq!(s.buffer(), &vec![0, 0xff, 0, 0]);
}

#[test]
fn write_sequences() {
    let mut s = BigStream::new(vec![0; 10]);
    assert_eq!(s.write_bytes(Some(0), &[9, 8]), Ok(()));
    assert_eq!(s.write_int16s(None, &[0x0102, 0x0304]), Ok(()));
    assert_eq!(s.write_int32s(None, &[0x05060708]), Ok(()));
    assert_eq!(s.buffer(), &vec![9, 8, 1, 2, 3, 4, 5, 6, 7, 8]);
}

#[test]
fn appends_grow_the_buffer() {
    let mut s = BigStream::new(vec![]);
    s.append_byte(1);
    s.append_int16(0x0203);
    assert_eq!(s.append_int24(0x040506), Ok(()));
    s.append_int32(0x0708090a);
    s.append_bytes(&[0x0b]);
    assert_eq!(s.append_int24(0x0100_0000), Err(StreamError::ValueTooLarge));
    assert_eq!(s.buffer(), &vec![1, 2, 3, 4, 5, 6, 7, 8, 9, 10, 11]);
    assert_eq!(s.last_address(), 0);
}

#[test]
fn seeking() {
    let mut s = BigStream::new(vec![0; 4]);
    s.seek_address(Some(3), None);
    assert_eq!(s.last_address(), 3);
    s.seek_address(None, Some(-2));
    assert_eq!(s.last_address(), 1);
    s.seek_address(Some(0), Some(-1));
    assert_eq!(s.last_address(), usize::MAX);
    s.set_last_address(2);
    assert_eq!(s.last_address(), 2);
    s.set_buffer(vec![7]);
    assert_eq!(s.buffer(), &vec![7]);
    assert_eq!(s.last_address(), 2);
}

#[test]
fn buffer_view_slices() {
    let b: Vec<u8> = vec![0, 1, 2, 3, 4, 5];
    assert_eq!(view_get_slice(&b, 1, 4, 1), Ok(vec![1, 2, 3]));
    assert_eq!(view_get_slice(&b, 0, 6, 2), Ok(vec![0, 2, 4]));
    assert_eq!(view_get_slice(&b, 0, 6, -1), Ok(vec![5, 4, 3, 2, 1, 0]));
    assert_eq!(view_get_slice(&b, 2, 7, 1), Err(StreamError::ViewReadPastEnd));
    assert_eq!(view_get_index(&b, 5), Ok(5));
    assert_eq!(view_get_index(&b, 6), Err(StreamError::ViewReadPastEnd));
    assert_eq!(view_concat(&b, &[6, 7]), vec![0, 1, 2, 3, 4, 5, 6, 7]);
}

#[test]
fn buffer_view_assignment() {
    let mut b: Vec<u8> = vec![0, 1, 2, 3];
    assert_eq!(view_set_slice(&mut b, 1, 3, 1, &[9, 9, 9]), Ok(()));
    assert_eq!(b, vec![0, 9, 9, 9, 3]);
    assert_eq!(view_set_slice(&mut b, 0, 2, 2, &[1]), Err(StreamError::StepNotImplemented));
    assert_eq!(view_set_slice(&mut b, 3, 1, 1, &[1]), Err(StreamError::NegativeLengthSlice));
}
