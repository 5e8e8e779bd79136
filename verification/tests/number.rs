use wpic::number::{
    decimal, digit_char, human_size, parse_i64, parse_u8, push_dec, zero_padded, zero_padded_int,
};

#[test]
fn decimals_are_written() {
    assert_eq!(decimal(0), "0");
    assert_eq!(decimal(u64::MAX), "18446744073709551615");
    let mut s = "n=".to_string();
    push_dec(&mut s, 120);
    assert_eq!(s, "n=120");
    assert_eq!(zero_padded(7, 2), "07");
    assert_eq!(zero_padded(123, 2), "123");
    for n in [-12345i64, -1234, -999, -1, 0, 1, 999, 9999, 10000, i64::MIN, i64::MAX] {
        assert_eq!(zero_padded_int(n, 4), format!("{:04}", n));
    }
}

#[test]
fn decimals_are_read_back() {
    for n in [0u64, 1, 9, 10, 99, 100, 4095, 1 << 40] {
        assert_eq!(parse_i64(&decimal(n)), Some(n as i64));
    }
}

#[test]
fn integers_are_read_as_std_reads_them() {
    let texts = [
        "", "+", "-", "0", "+0", "-0", "007", "5", "-5", "+5", "12x", " 1", "9223372036854775807",
        "9223372036854775808", "-9223372036854775808", "-9223372036854775809", "255", "256",
        "+255", "99999999999999999999999999", "--1", "٣",
    ];
    for t in texts {
        assert_eq!(parse_i64(t), t.parse::<i64>().ok(), "{:?}", t);
        assert_eq!(parse_u8(t), t.parse::<u8>().ok(), "{:?}", t);
    }
}

#[test]
fn digits_are_told_from_other_characters() {
    assert!(digit_char('0') && digit_char('9'));
    assert!(!digit_char('/') && !digit_char(':') && !digit_char('٣'));
}

fn expected_size(bytes: u64) -> String {
    let units = ["B", "KiB", "MiB", "GiB", "TiB"];
    let mut v = bytes as f64;
    let mut i = 0;
    while v >= 1024.0 && i < units.len() - 1 {
        v /= 1024.0;
        i += 1;
    }
    if i == 0 {
        format!("{} B", bytes)
    } else {
        format!("{:.1} {}", v, units[i])
    }
}

#[test]
fn sizes_have_units() {
    assert_eq!(human_size(0), "0 B");
    assert_eq!(human_size(1023), "1023 B");
    assert_eq!(human_size(1024), "1.0 KiB");
    assert_eq!(human_size(1536), "1.5 KiB");
    assert_eq!(human_size(5 * 1024 * 1024), "5.0 MiB");
    assert_eq!(human_size(3 << 40), "3.0 TiB");
}

#[test]
fn sizes_are_rounded_as_floats_are() {
    let mut x: u64 = 88172645463325252;
    for k in 0..64 {
        for d in [0u64, 1, 2, 3] {
            let b = (1u64 << k).wrapping_add(d).wrapping_sub(2);
            assert_eq!(human_size(b), expected_size(b), "{}", b);
        }
        for _ in 0..200 {
            x ^= x << 13;
            x ^= x >> 7;
            x ^= x << 17;
            let b = x >> k;
            assert_eq!(human_size(b), expected_size(b), "{}", b);
        }
    }
    for n in 0..4096u64 {
        let b = n * 64 + 1024 * 1024 - 4096 * 32;
        assert_eq!(human_size(b), expected_size(b), "{}", b);
        let c = u64::MAX - n;
        assert_eq!(human_size(c), expected_size(c), "{}", c);
        let e = n * 512;
        assert_eq!(human_size(e * 1024 / 10 + 51), expected_size(e * 1024 / 10 + 51));
    }
}
