use mediakit::media::{rescale, MediaError, Timebase, WavFormat};

#[test]
fn wav_format_sizes() {
    let f = WavFormat::new(1, 44100, 16).unwrap();
    assert_eq!(f.bytes_per_sample(), 2);
    assert_eq!(f.bytes_per_frame(), 2);
    let s = WavFormat::new(2, 48000, 24).unwrap();
    assert_eq!(s.bytes_per_sample(), 3);
    assert_eq!(s.bytes_per_frame(), 6);
    assert_eq!(s.byte_rate(), 288000);
}

#[test]
fn wav_format_rejects_illegal_values() {
    assert_eq!(WavFormat::new(0, 44100, 16), Err(MediaError::InvalidFormat));
    assert_eq!(WavFormat::new(2, 0, 16), Err(MediaError::InvalidFormat));
    assert_eq!(WavFormat::new(2, 44100, 12), Err(MediaError::InvalidFormat));
}

#[test]
fn timebase_needs_positive_parts() {
    assert!(Timebase::new(1, 0).is_none());
    assert!(Timebase::new(0, 1).is_none());
    assert!(Timebase::new(-1, 1).is_none());
    assert_eq!(Timebase::new(1, 90000), Some(Timebase { num: 1, den: 90000 }));
}

#[test]
fn rescale_exact_when_divisible() {
    let ms = Timebase::new(1, 1000).unwrap();
    let mpeg = Timebase::new(1, 90000).unwrap();
    assert_eq!(rescale(1, ms, mpeg), 90);
    assert_eq!(rescale(-7, ms, mpeg), -630);
    assert_eq!(rescale(90, mpeg, ms), 1);
    let rate = Timebase::new(1, 44100).unwrap();
    assert_eq!(rescale(44100, rate, Timebase::new(1, 1).unwrap()), 1);
}

#[test]
fn rescale_rounds_half_to_even() {
    let half = Timebase::new(1, 2).unwrap();
    let one = Timebase::new(1, 1).unwrap();
    assert_eq!(rescale(1, half, one), 0);
    assert_eq!(rescale(3, half, one), 2);
    assert_eq!(rescale(5, half, one), 2);
    assert_eq!(rescale(-1, half, one), 0);
    assert_eq!(rescale(-3, half, one), -2);
    let third = Timebase::new(1, 3).unwrap();
    assert_eq!(rescale(2, third, one), 1);
    assert_eq!(rescale(-2, third, one), -1);
    assert_eq!(rescale(1, third, one), 0);
}

#[test]
fn rescale_saturates() {
    let one = Timebase::new(1, 1).unwrap();
    let ns = Timebase::new(1, 1_000_000_000).unwrap();
    assert_eq!(rescale(i64::MAX, one, ns), i64::MAX);
    assert_eq!(rescale(i64::MIN, one, ns), i64::MIN);
    let huge = Timebase::new(i64::MAX, 1).unwrap();
    let tiny = Timebase::new(1, i64::MAX).unwrap();
    assert_eq!(rescale(2, huge, tiny), i64::MAX);
    assert_eq!(rescale(0, huge, tiny), 0);
    assert_eq!(rescale(i64::MIN, one, one), i64::MIN);
    assert_eq!(rescale(i64::MAX, tiny, one), 1);
}
