use hash_benches::bytes_to_human_readable;

/// The same computation carried out in double precision, as a reference.
fn float_rendering(bytes: u64) -> String {
    let sizes = ["B", "KB", "MB", "GB", "TB", "PB", "EB"];
    let factor = 1024u64;
    if bytes < factor {
        return format!("{} B", bytes);
    }
    let mut count = bytes as f64;
    let mut i = 0;
    while count >= factor as f64 && i < sizes.len() - 1 {
        count /= factor as f64;
        i += 1;
    }
    format!("{:.2} {}", count, sizes[i])
}

fn check(bytes: u64) {
    assert_eq!(bytes_to_human_readable(bytes), float_rendering(bytes), "bytes = {}", bytes);
}

#[test]
fn small_counts_are_exact() {
    assert_eq!(bytes_to_human_readable(0), "0 B");
    assert_eq!(bytes_to_human_readable(1), "1 B");
    assert_eq!(bytes_to_human_readable(512), "512 B");
    assert_eq!(bytes_to_human_readable(1023), "1023 B");
}

#[test]
fn unit_boundaries() {
    assert_eq!(bytes_to_human_readable(1024), "1.00 KB");
    assert_eq!(bytes_to_human_readable(1536), "1.50 KB");
    assert_eq!(bytes_to_human_readable(1024 * 1024 - 1), "1024.00 KB");
    assert_eq!(bytes_to_human_readable(1024 * 1024), "1.00 MB");
    assert_eq!(bytes_to_human_readable(1 << 30), "1.00 GB");
    assert_eq!(bytes_to_human_readable(1 << 40), "1.00 TB");
    assert_eq!(bytes_to_human_readable(1 << 50), "1.00 PB");
    assert_eq!(bytes_to_human_readable(1 << 60), "1.00 EB");
    assert_eq!(bytes_to_human_readable(u64::MAX), "16.00 EB");
}

#[test]
fn rounding_of_large_counts_to_double_precision() {
    // 2^60 - 1 is not a double; it rounds up to 2^60, one exabyte.
    assert_eq!(bytes_to_human_readable((1 << 60) - 1), "1.00 EB");
    assert_eq!(bytes_to_human_readable((1 << 53) + 1), "8.00 PB");
}

#[test]
fn hundredths_round_half_to_even() {
    // 1029 / 1024 = 1.0048828125 rounds down, 1030 / 1024 = 1.005859375 up.
    assert_eq!(bytes_to_human_readable(1029), "1.00 KB");
    assert_eq!(bytes_to_human_readable(1030), "1.01 KB");
    // Exact ties: bytes * 100 / 1024 ends in exactly one half.
    let mut found = 0;
    for b in 1024u64..(1 << 20) {
        if (b * 100) % 1024 == 512 {
            check(b);
            found += 1;
        }
    }
    assert!(found > 0);
}

#[test]
fn agrees_with_double_precision_everywhere_sampled() {
    for b in 0u64..20000 {
        check(b);
    }
    for k in 0u32..64 {
        let p = 1u64 << k;
        for d in 0u64..64 {
            check(p.wrapping_add(d));
            check(p.wrapping_sub(d));
        }
        for i in 1u64..7 {
            let unit = 1u64 << (10 * i as u32).min(63);
            check(unit.wrapping_mul(1023).wrapping_add(p));
        }
    }
    let mut x: u64 = 0x9E37_79B9_7F4A_7C15;
    for _ in 0..200000 {
        x ^= x << 13;
        x ^= x >> 7;
        x ^= x << 17;
        check(x);
        check(x >> (x % 64));
    }
}

#[test]
fn shown_number_stays_within_unit_range() {
    let mut x: u64 = 0x2545_F491_4F6C_DD1D;
    for _ in 0..20000 {
        x ^= x << 13;
        x ^= x >> 7;
        x ^= x << 17;
        let b = (x >> (x % 54)).max(1024);
        let s = bytes_to_human_readable(b);
        let (number, unit) = s.split_once(' ').unwrap();
        let value: f64 = number.parse().unwrap();
        assert!(value >= 1.0, "{}", s);
        if unit != "EB" {
            assert!(value <= 1024.0, "{}", s);
        }
        if b < (1 << 53) {
            let exponent = ["KB", "MB", "GB", "TB", "PB", "EB"].iter().position(|u| *u == unit).unwrap() + 1;
            let exact = b as f64 / (1u64 << (10 * exponent)) as f64;
            assert!((value - exact).abs() <= 0.005 + 1e-9, "{} vs {}", s, exact);
        }
    }
}

#[test]
fn times_1024_moves_to_next_unit() {
    let units = ["B", "KB", "MB", "GB", "TB", "PB", "EB"];
    let mut x: u64 = 0x1234_5678_9ABC_DEF1;
    for _ in 0..20000 {
        x ^= x << 13;
        x ^= x >> 7;
        x ^= x << 17;
        let b = (x >> (10 + x % 54)).max(1024);
        let small = bytes_to_human_readable(b);
        let big = bytes_to_human_readable(b * 1024);
        let (n1, u1) = small.split_once(' ').unwrap();
        let (n2, u2) = big.split_once(' ').unwrap();
        assert_eq!(n1, n2, "{} vs {}", small, big);
        let i = units.iter().position(|u| *u == u1).unwrap();
        assert_eq!(units[i + 1], u2);
    }
    assert_eq!(bytes_to_human_readable(1536), "1.50 KB");
    assert_eq!(bytes_to_human_readable(1536 * 1024), "1.50 MB");
}

#[test]
fn exabyte_figures_stay_at_most_sixteen() {
    assert_eq!(bytes_to_human_readable(u64::MAX), "16.00 EB");
    assert_eq!(bytes_to_human_readable(u64::MAX - 4096), "16.00 EB");
    assert_eq!(bytes_to_human_readable(1 << 63), "8.00 EB");
}
