use diskard::size_text::format_size;

/// The text the listing's size column held when sizes were formatted as
/// floating-point values.
fn float_text(bytes: u64) -> String {
    let units = ["B", "KB", "MB", "GB", "TB"];
    let mut size = bytes as f64;
    let mut unit_idx = 0;
    while size >= 1024.0 && unit_idx < units.len() - 1 {
        size /= 1024.0;
        unit_idx += 1;
    }
    if unit_idx == 0 {
        format!("{:.0} {}", size, units[unit_idx])
    } else {
        format!("{:.1} {}", size, units[unit_idx])
    }
}

#[test]
fn format_size_small_values_are_whole_bytes() {
    assert_eq!(format_size(0), "0 B");
    assert_eq!(format_size(1), "1 B");
    assert_eq!(format_size(1023), "1023 B");
}

#[test]
fn format_size_units() {
    assert_eq!(format_size(1024), "1.0 KB");
    assert_eq!(format_size(1536), "1.5 KB");
    assert_eq!(format_size(1024 * 1024), "1.0 MB");
    assert_eq!(format_size(5 * 1024 * 1024 * 1024), "5.0 GB");
    assert_eq!(format_size(1024u64.pow(4)), "1.0 TB");
    assert_eq!(format_size(1024u64.pow(5)), "1024.0 TB");
}

#[test]
fn format_size_ties_round_to_even() {
    // 1280 bytes is exactly 1.25 KB.
    assert_eq!(format_size(1280), float_text(1280));
    assert_eq!(format_size(1280), "1.2 KB");
    // 1.35 KB is 1382.4 bytes; 1383 bytes is just above it.
    assert_eq!(format_size(1383), float_text(1383));
}

#[test]
fn format_size_matches_float_formatting() {
    let mut samples: Vec<u64> = vec![u64::MAX, u64::MAX - 1, 1 << 53, (1 << 53) + 1, (1 << 54) + 3, 999, 1000, 1024 * 1023, 1024 * 1024 - 1];
    let mut x: u64 = 0x9E37_79B9_7F4A_7C15;
    for _ in 0..20000 {
        x ^= x << 13;
        x ^= x >> 7;
        x ^= x << 17;
        let shift = (x % 64) as u32;
        samples.push(x >> shift);
    }
    for k in 0..5u32 {
        for m in 0..2048u64 {
            let scaled = 1024u64.pow(k).saturating_mul(m) / 2;
            samples.push(scaled);
            samples.push(scaled.saturating_add(1));
        }
    }
    for b in samples {
        assert_eq!(format_size(b), float_text(b), "bytes = {}", b);
    }
}

/// The unit of a text and the amount it shows, in tenths above bytes.
fn unit_and_amount(text: &str) -> (usize, u64) {
    let (number, unit) = text.split_once(' ').unwrap();
    let k = ["B", "KB", "MB", "GB", "TB"].iter().position(|u| *u == unit).unwrap();
    let amount = if k == 0 { number.parse().unwrap() } else { number.replace('.', "").parse().unwrap() };
    (k, amount)
}

#[test]
fn law_format_size_units_by_thresholds() {
    assert!(format_size(1023).ends_with(" B"));
    assert!(format_size(1024).ends_with(" KB"));
    assert_eq!(format_size((1 << 20) - 1), "1024.0 KB");
    assert!(format_size(1 << 20).ends_with(" MB"));
    assert!(format_size((1 << 30) - 1).ends_with(" MB"));
    assert!(format_size(1 << 30).ends_with(" GB"));
    assert!(format_size((1 << 40) - 1).ends_with(" GB"));
    assert!(format_size(1 << 40).ends_with(" TB"));
    assert!(format_size(u64::MAX).ends_with(" TB"));
}

#[test]
fn law_format_size_is_monotone() {
    let mut sizes: Vec<u64> = vec![0, 1, 1023, 1024, 1075, 1076, 1 << 20, (1 << 53) - 1, 1 << 53, (1 << 53) + 1, u64::MAX];
    let mut x: u64 = 0x2545_F491_4F6C_DD1D;
    for _ in 0..5000 {
        x ^= x << 13;
        x ^= x >> 7;
        x ^= x << 17;
        sizes.push(x >> (x % 64));
    }
    sizes.sort();
    for w in sizes.windows(2) {
        let (ka, da) = unit_and_amount(&format_size(w[0]));
        let (kb, db) = unit_and_amount(&format_size(w[1]));
        assert!(ka < kb || (ka == kb && da <= db), "{} {}", w[0], w[1]);
    }
}
