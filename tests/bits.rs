use mediakit::bits::BitReader;

#[test]
fn read_bit_msb_first() {
    let data = [0b1010_0000u8];
    let mut r = BitReader::new(&data);
    assert_eq!(r.read_bit(), Some(true));
    assert_eq!(r.read_bit(), Some(false));
    assert_eq!(r.read_bit(), Some(true));
    assert_eq!(r.position_bits(), 3);
    assert_eq!(r.remaining_bits(), 5);
}

#[test]
fn read_bit_at_end_is_none() {
    let data = [0xffu8];
    let mut r = BitReader::new(&data);
    assert_eq!(r.read_bits(8), Some(0xff));
    assert_eq!(r.read_bit(), None);
    assert_eq!(r.position_bits(), 8);
}

#[test]
fn read_bits_across_bytes() {
    let data = [0x12u8, 0x34, 0x56];
    let mut r = BitReader::new(&data);
    assert_eq!(r.read_bits(4), Some(0x1));
    assert_eq!(r.read_bits(12), Some(0x234));
    assert_eq!(r.read_bits(8), Some(0x56));
    assert_eq!(r.remaining_bits(), 0);
}

#[test]
fn read_bits_zero_and_too_many() {
    let data = [0xabu8, 0xcd];
    let mut r = BitReader::new(&data);
    assert_eq!(r.read_bits(0), Some(0));
    assert_eq!(r.read_bits(33), None);
    assert_eq!(r.read_bits(17), None);
    assert_eq!(r.position_bits(), 0);
    assert_eq!(r.read_bits(16), Some(0xabcd));
}

#[test]
fn read_thirty_two_bits() {
    let data = [0xdeu8, 0xad, 0xbe, 0xef];
    let mut r = BitReader::new(&data);
    assert_eq!(r.read_bits(32), Some(0xdead_beef));
}

#[test]
fn split_read_matches_wide_read() {
    let data = [0xc3u8, 0x5a, 0x96, 0x0f, 0x71];
    for n in 0..=32u32 {
        for m in 0..=(32 - n) {
            let mut wide = BitReader::new(&data);
            wide.skip_bits(3);
            let all = wide.read_bits(n + m).unwrap() as u64;
            let mut parts = BitReader::new(&data);
            parts.skip_bits(3);
            let a = parts.read_bits(n).unwrap() as u64;
            let b = parts.read_bits(m).unwrap() as u64;
            assert_eq!(all, (a << m) | b);
            assert_eq!(wide.position_bits(), parts.position_bits());
        }
    }
}

#[test]
fn read_bits_signed_values() {
    let data = [0b1110_0111u8, 0x80, 0, 0, 0];
    let mut r = BitReader::new(&data);
    assert_eq!(r.read_bits_signed(3), Some(-1));
    assert_eq!(r.read_bits_signed(5), Some(7));
    assert_eq!(r.read_bits_signed(32), Some(i32::MIN));
    assert_eq!(r.read_bits_signed(0), Some(0));
    assert_eq!(r.read_bits_signed(1), None);
}

#[test]
fn skip_align_and_set_position() {
    let data = [0x0fu8, 0xf0];
    let mut r = BitReader::new(&data);
    r.skip_bits(3);
    assert_eq!(r.position_bits(), 3);
    r.align_to_byte();
    assert_eq!(r.position_bits(), 8);
    r.align_to_byte();
    assert_eq!(r.position_bits(), 8);
    assert_eq!(r.read_bits(4), Some(0xf));
    r.set_position(4);
    assert_eq!(r.read_bits(8), Some(0xff));
    r.skip_bits(100);
    assert_eq!(r.remaining_bits(), 0);
    assert_eq!(r.read_bit(), None);
}
