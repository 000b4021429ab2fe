use osu_map_manager::measure::Real32;
use osu_map_manager::number::{
    decimal_signed, decimal_text, hex_text, pad, parse_signed, parse_unsigned,
};
use osu_map_manager::sizes::human_bytes;

#[test]
fn decimals_match_the_standard_formatting() {
    for n in [0u64, 9, 10, 4095, 1_000_000_007, u64::MAX] {
        assert_eq!(decimal_text(n), n.to_string());
        assert_eq!(parse_unsigned(&n.to_string(), u64::MAX), Some(n));
    }
    for n in [0i64, -1, i64::MIN, i64::MAX, -4095] {
        assert_eq!(decimal_signed(n), n.to_string());
        assert_eq!(parse_signed(&n.to_string(), i64::MIN, i64::MAX), Some(n));
    }
}

#[test]
fn numbers_are_parsed_like_the_standard_does() {
    for text in ["", "+", "-", "+5", "-5", "05", "1 ", " 1", "12a", "256", "255", "--1", "١"] {
        assert_eq!(
            parse_unsigned(text, 255),
            text.parse::<u8>().ok().map(u64::from),
            "{text:?}"
        );
        assert_eq!(
            parse_signed(text, i64::from(i8::MIN), i64::from(i8::MAX)),
            text.parse::<i8>().ok().map(i64::from),
            "{text:?}"
        );
    }
    assert_eq!(parse_unsigned("18446744073709551616", u64::MAX), None);
    assert_eq!(parse_signed("-9223372036854775809", i64::MIN, i64::MAX), None);
}

#[test]
fn hexadecimal_bytes() {
    for n in [0u8, 5, 15, 16, 0x7f, 255] {
        assert_eq!(hex_text(n), format!("{n:x}"));
    }
}

#[test]
fn padding() {
    assert_eq!(pad("5", '0', 2), "05");
    assert_eq!(pad("123", '0', 2), "123");
    assert_eq!(pad("", ' ', 3), "   ");
}

#[test]
fn two_decimals_match_the_standard_formatting() {
    let samples: [f32; 20] = [
        0.0, -0.0, 0.005, 0.015, 0.125, 0.375, 0.995, 1.0, 1.005, 2.5, 5.5, 6.255, 9.999, 123.456,
        -7.25, 0.0049, 16777216.0, 3.4e38, 1.0e-40, -0.001,
    ];
    for v in samples {
        assert_eq!(Real32 { bits: v.to_bits() }.fixed(), format!("{v:.2}"), "{v}");
    }
    for v in [f32::NAN, f32::INFINITY, f32::NEG_INFINITY] {
        assert_eq!(Real32 { bits: v.to_bits() }.fixed(), format!("{v:.2}"));
    }
    let mut bits: u32 = 1;
    for _ in 0..2000 {
        bits = bits.wrapping_mul(1664525).wrapping_add(1013904223);
        let v = f32::from_bits(bits);
        assert_eq!(Real32 { bits }.fixed(), format!("{v:.2}"), "{bits:x}");
    }
}

#[test]
fn comparisons_match_the_standard_ones() {
    let samples: [f32; 9] =
        [0.0, -0.0, 1.0, -1.0, 1.0e-40, f32::MAX, f32::INFINITY, f32::NEG_INFINITY, f32::NAN];
    for a in samples {
        for b in samples {
            let x = Real32 { bits: a.to_bits() };
            let y = Real32 { bits: b.to_bits() };
            assert_eq!(x.le(y), a <= b, "{a} {b}");
            assert_eq!(x.lt(y), a < b, "{a} {b}");
        }
        assert_eq!(Real32 { bits: a.to_bits() }.is_finite(), a.is_finite());
    }
}

#[test]
fn sizes_in_words() {
    let float = |bytes: u64| {
        let gb: f64 = 1024.0 * 1024.0 * 1024.0;
        let mb: f64 = 1024.0 * 1024.0;
        let value = bytes as f64;
        if value >= gb {
            format!("{:.2} GB", value / gb)
        } else if value >= mb {
            format!("{:.1} MB", value / mb)
        } else {
            format!("{:.0} KB", value / 1024.0)
        }
    };
    assert_eq!(human_bytes(0), "0 KB");
    assert_eq!(human_bytes(5 * 1024 * 1024), "5.0 MB");
    assert_eq!(human_bytes(3 * 1024 * 1024 * 1024), "3.00 GB");
    for bytes in [
        1,
        511,
        512,
        513,
        1536,
        2560,
        1024 * 1024 - 1,
        1024 * 1024,
        1024 * 1024 + 52428,
        1024 * 1024 + 52429,
        1024 * 1024 * 1024 - 1,
        1024 * 1024 * 1024 + 5368709,
        (1 << 52) + 12345,
    ] {
        assert_eq!(human_bytes(bytes), float(bytes), "{bytes}");
    }
    let mut n: u64 = 7;
    for _ in 0..2000 {
        n = n.wrapping_mul(6364136223846793005).wrapping_add(1442695040888963407);
        let bytes = n >> (12 + (n % 40));
        assert_eq!(human_bytes(bytes), float(bytes), "{bytes}");
    }
}
