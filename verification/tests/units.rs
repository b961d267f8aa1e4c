use bandmeter::units::format_bytes;

fn float_reference(num: u64) -> String {
    const KB: u64 = 1000;
    const MB: u64 = KB * 1000;
    const GB: u64 = MB * 1000;
    const TB: u64 = GB * 1000;
    const PB: u64 = TB * 1000;
    if num >= PB {
        format!("{:.2} PB", num as f64 / PB as f64)
    } else if num >= TB {
        format!("{:.2} TB", num as f64 / TB as f64)
    } else if num >= GB {
        format!("{:.2} GB", num as f64 / GB as f64)
    } else if num >= MB {
        format!("{:.2} MB", num as f64 / MB as f64)
    } else if num >= KB {
        format!("{:.2} KB", num as f64 / KB as f64)
    } else {
        format!("{} B", num)
    }
}

#[test]
fn format_bytes_small_counts() {
    assert_eq!(format_bytes(0), "0 B");
    assert_eq!(format_bytes(7), "7 B");
    assert_eq!(format_bytes(999), "999 B");
}

#[test]
fn format_bytes_units() {
    assert_eq!(format_bytes(1000), "1.00 KB");
    assert_eq!(format_bytes(1500), "1.50 KB");
    assert_eq!(format_bytes(1_234_567), "1.23 MB");
    assert_eq!(format_bytes(5_000_000_000), "5.00 GB");
    assert_eq!(format_bytes(2_500_000_000_000), "2.50 TB");
    assert_eq!(format_bytes(1_000_000_000_000_000), "1.00 PB");
    assert_eq!(format_bytes(u64::MAX), "18446.74 PB");
}

#[test]
fn format_bytes_rounding_edges() {
    assert_eq!(format_bytes(999_999), "1000.00 KB");
    assert_eq!(format_bytes(1_015), "1.01 KB");
    assert_eq!(format_bytes(1_125), "1.12 KB");
    assert_eq!(format_bytes(1_375), "1.38 KB");
}

#[test]
fn format_bytes_matches_binary64_division() {
    let mut samples: Vec<u64> = Vec::new();
    for n in 0..200_000u64 {
        samples.push(n);
    }
    let mut x: u64 = 0x9E37_79B9_7F4A_7C15;
    for _ in 0..200_000 {
        x ^= x << 13;
        x ^= x >> 7;
        x ^= x << 17;
        samples.push(x);
        samples.push(x >> (x % 64));
        let unit = [1_000u64, 1_000_000, 1_000_000_000, 1_000_000_000_000, 1_000_000_000_000_000][(x % 5) as usize];
        samples.push((x % 1_000_000) * unit / 1000 + unit / 2000 * 1000 / 1000);
        samples.push((x % 100_000) * (unit / 100) + unit / 200);
    }
    for &n in &samples {
        assert_eq!(format_bytes(n), float_reference(n), "for {}", n);
    }
}
