use mediakit::io::{IoError, IoErrorKind};
use mediakit::writer::{next_write_step, WriteStep, INTERRUPT_RETRIES};
use mediakit::writer::{MediaWrite, StdWriteAdapter, WritePrimitives};

#[test]
fn vec_sink_takes_whole_writes() {
    let mut v: Vec<u8> = Vec::new();
    assert_eq!(MediaWrite::write(&mut v, &[1, 2, 3]).unwrap(), 3);
    assert!(MediaWrite::flush(&mut v).is_ok());
    v.write_all(&[4, 5]).unwrap();
    assert_eq!(v, vec![1, 2, 3, 4, 5]);
}

#[test]
fn fixed_width_writes_little_and_big_endian() {
    let mut v: Vec<u8> = Vec::new();
    v.write_u8(0xab).unwrap();
    v.write_u16_le(0x1234).unwrap();
    v.write_u16_be(0x1234).unwrap();
    v.write_u32_le(0x0102_0304).unwrap();
    v.write_u32_be(0x0102_0304).unwrap();
    v.write_u64_le(0x0102_0304_0506_0708).unwrap();
    v.write_u64_be(0x0102_0304_0506_0708).unwrap();
    let mut expected = vec![0xab, 0x34, 0x12, 0x12, 0x34, 4, 3, 2, 1, 1, 2, 3, 4];
    expected.extend_from_slice(&[8, 7, 6, 5, 4, 3, 2, 1, 1, 2, 3, 4, 5, 6, 7, 8]);
    assert_eq!(v, expected);
}

#[test]
fn signed_writes_use_twos_complement() {
    let mut v: Vec<u8> = Vec::new();
    v.write_i8(-1).unwrap();
    v.write_i16_le(-2).unwrap();
    v.write_i16_be(-2).unwrap();
    v.write_i32_le(-16384).unwrap();
    v.write_i32_be(i32::MIN).unwrap();
    v.write_i64_le(-1).unwrap();
    v.write_i64_be(i64::MAX).unwrap();
    let mut expected = vec![0xff, 0xfe, 0xff, 0xff, 0xfe];
    expected.extend_from_slice(&(-16384i32).to_le_bytes());
    expected.extend_from_slice(&i32::MIN.to_be_bytes());
    expected.extend_from_slice(&(-1i64).to_le_bytes());
    expected.extend_from_slice(&i64::MAX.to_be_bytes());
    assert_eq!(v, expected);
}

#[test]
fn std_adapter_lends_and_returns_its_writer() {
    let mut a = StdWriteAdapter::new(vec![1u8]);
    assert_eq!(a.get_ref(), &vec![1u8]);
    a.get_mut().push(2);
    assert_eq!(a.into_inner(), vec![1u8, 2]);
}

#[test]
fn write_step_decisions() {
    assert!(matches!(next_write_step(Ok(0), 0), WriteStep::Fail(e) if e.kind == IoErrorKind::WriteZero));
    assert!(matches!(next_write_step(Ok(7), 5), WriteStep::Advance(7)));
    let int = IoError::new(IoErrorKind::Interrupted);
    assert!(matches!(next_write_step(Err(int), 0), WriteStep::Retry));
    assert!(matches!(next_write_step(Err(int), INTERRUPT_RETRIES - 1), WriteStep::Retry));
    assert!(matches!(next_write_step(Err(int), INTERRUPT_RETRIES), WriteStep::Fail(e) if e == int));
    let other = IoError { kind: IoErrorKind::Other, os_code: Some(9) };
    assert!(matches!(next_write_step(Err(other), 0), WriteStep::Fail(e) if e == other));
}

#[test]
fn vec_write_reports_whole_length() {
    let mut v: Vec<u8> = vec![9];
    assert_eq!(MediaWrite::write(&mut v, &[]).unwrap(), 0);
    assert_eq!(MediaWrite::write(&mut v, &[1, 2]).unwrap(), 2);
    assert!(v.write_all(&[]).is_ok());
    assert_eq!(v, vec![9, 1, 2]);
}
