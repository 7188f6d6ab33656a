use mediakit::format::{
    bytes_to_hex, format_frame_size, format_size, format_xxd_style, hex_string_to_bytes,
    hex_without_spaces,
};

fn size_by_floats(bytes: u64) -> String {
    const KB: u64 = 1024;
    const MB: u64 = KB * 1024;
    const GB: u64 = MB * 1024;
    if bytes >= GB {
        return format!("{:.2} GB", bytes as f64 / GB as f64);
    }
    if bytes >= MB {
        return format!("{:.2} MB", bytes as f64 / MB as f64);
    }
    if bytes >= KB {
        return format!("{:.2} KB", bytes as f64 / KB as f64);
    }
    format!("{} B", bytes)
}

fn frame_size_by_floats(bytes: usize) -> String {
    const KB: usize = 1024;
    const MB: usize = KB * 1024;
    if bytes >= MB {
        return format!("{:.1} MB", bytes as f64 / MB as f64);
    }
    if bytes >= KB {
        return format!("{:.1} KB", bytes as f64 / KB as f64);
    }
    format!("{} B", bytes)
}

#[test]
fn format_size_units() {
    assert_eq!(format_size(0), "0 B");
    assert_eq!(format_size(1023), "1023 B");
    assert_eq!(format_size(1024), "1.00 KB");
    assert_eq!(format_size(1536), "1.50 KB");
    assert_eq!(format_size(1024 * 1024), "1.00 MB");
    assert_eq!(format_size(5 * 1024 * 1024 * 1024), "5.00 GB");
}

#[test]
fn format_size_agrees_with_float_formatting() {
    let mut samples: Vec<u64> = vec![
        1029, 1034, 1039, 10250, 1048576 + 5242, 1073741824 + 5368709,
        u64::MAX, u64::MAX - 1, (1u64 << 53) + 1, (1u64 << 60) + 12345, 999_999_999_999,
    ];
    let mut x: u64 = 1;
    for _ in 0..200 {
        x = x.wrapping_mul(6364136223846793005).wrapping_add(1442695040888963407);
        samples.push(x >> (x % 64));
    }
    for b in samples {
        assert_eq!(format_size(b), size_by_floats(b), "bytes = {}", b);
    }
}

#[test]
fn format_frame_size_agrees_with_float_formatting() {
    let mut samples: Vec<usize> = vec![0, 1023, 1024, 1075, 1126, 1048576, 1101005, usize::MAX];
    let mut x: u64 = 7;
    for _ in 0..200 {
        x = x.wrapping_mul(6364136223846793005).wrapping_add(1442695040888963407);
        samples.push((x >> (x % 64)) as usize);
    }
    for b in samples {
        assert_eq!(format_frame_size(b), frame_size_by_floats(b), "bytes = {}", b);
    }
    assert_eq!(format_frame_size(1536), "1.5 KB");
}

#[test]
fn bytes_to_hex_limits_and_marks() {
    assert_eq!(bytes_to_hex(&[0x00, 0xab, 0x7f], 10), "00 ab 7f");
    assert_eq!(bytes_to_hex(&[0x00, 0xab, 0x7f], 2), "00 ab ...");
    assert_eq!(bytes_to_hex(&[0x01], 0), " ...");
    assert_eq!(bytes_to_hex(&[], 4), "");
}

#[test]
fn hex_without_spaces_drops_spaces() {
    assert_eq!(hex_without_spaces("00 ab 7f"), "00ab7f");
    assert_eq!(hex_without_spaces("00 ab ..."), "00ab...");
}

#[test]
fn hex_string_to_bytes_skips_bad_tokens() {
    assert_eq!(hex_string_to_bytes("00 ab\tFF\n7"), vec![0x00, 0xab, 0xff, 0x07]);
    assert_eq!(hex_string_to_bytes("  zz 100 +1f 0010 ... "), vec![0x1f, 0x10]);
    assert_eq!(hex_string_to_bytes(""), Vec::<u8>::new());
    assert_eq!(hex_string_to_bytes("+ -1"), Vec::<u8>::new());
}

#[test]
fn xxd_style_short_line() {
    let out = format_xxd_style("48 69 00", 128);
    let expected = format!("00000000: 48 69 00 {} Hi.", " ".repeat(39));
    assert_eq!(out, expected);
}

#[test]
fn xxd_style_two_lines_and_limit() {
    let hex: Vec<String> = (0..20u8).map(|b| format!("{:02x}", b + 0x41)).collect();
    let out = format_xxd_style(&hex.join(" "), 18);
    let first = "00000000: 41 42 43 44 45 46 47 48 494a4b4c4d4e4f50 ABCDEFGHIJKLMNOP";
    let second = format!("00000010: 51 52 {} QR", " ".repeat(42));
    assert_eq!(out, format!("{}\n{}", first, second));
}

#[test]
fn xxd_style_trims_trailing_spaces() {
    assert_eq!(format_xxd_style("20 20", 16), format!("00000000: 20 20 {}", " ".repeat(42)).trim_end());
    assert_eq!(format_xxd_style("", 16), "");
}
