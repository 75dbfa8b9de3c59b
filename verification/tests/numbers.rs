use rabst::bms::numbers::{is_float_text_in, parse_i32_in, parse_unsigned_in};

const SAMPLES: &[&str] = &[
    "", "0", "1", "174", "150.5", "-2.5", "+3", ".5", "5.", ".", "e5", "1e5", "1E+5", "1e-5",
    "1e", "1e+", "inf", "INF", "-inf", "Infinity", "+infinity", "nan", "NaN", "-nan", "infin",
    "1.2.3", " 1", "1 ", "--1", "+-1", "0x10", "12a", "a", "+", "-", "00012", "4294967295",
    "4294967296", "2147483647", "2147483648", "-2147483648", "-2147483649", "ff", "FF", "+f",
    "1_000", "٣",
];

#[test]
fn float_text_matches_std() {
    for s in SAMPLES {
        let b = s.as_bytes();
        assert_eq!(is_float_text_in(b, 0, b.len()), s.parse::<f64>().is_ok(), "{s:?}");
    }
}

#[test]
fn unsigned_matches_std() {
    for s in SAMPLES {
        let b = s.as_bytes();
        assert_eq!(parse_unsigned_in(b, 0, b.len(), 10), s.parse::<u32>().ok(), "{s:?}");
        assert_eq!(parse_unsigned_in(b, 0, b.len(), 16), u32::from_str_radix(s, 16).ok(), "{s:?}");
    }
}

#[test]
fn signed_matches_std() {
    for s in SAMPLES {
        let b = s.as_bytes();
        assert_eq!(parse_i32_in(b, 0, b.len()), s.parse::<i32>().ok(), "{s:?}");
    }
}
