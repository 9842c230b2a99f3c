use ql_miner::number::{decimal_string, parse_i32_chars, parse_unsigned_chars, IntErrorKind};
use ql_miner::text::{
    chars_of, lines_ranges, split_whitespace_ranges, string_from_chars, trim_chars,
    trim_end_char_chars,
};

fn chars(s: &str) -> Vec<char> {
    s.chars().collect()
}

fn kind_of(e: &std::num::ParseIntError) -> IntErrorKind {
    match e.kind() {
        std::num::IntErrorKind::Empty => IntErrorKind::Empty,
        std::num::IntErrorKind::InvalidDigit => IntErrorKind::InvalidDigit,
        std::num::IntErrorKind::PosOverflow => IntErrorKind::PosOverflow,
        std::num::IntErrorKind::NegOverflow => IntErrorKind::NegOverflow,
        _ => panic!("unexpected error kind"),
    }
}

const SAMPLES: &[&str] = &[
    "", "0", "8034", "+8034", "-1", "+", "-", "65535", "65536", "0000065535", "12a", "a12",
    "99999999999999999999999x", "x99999999999999999999999", " 1", "1 ", "१२", "18446744073709551615",
    "18446744073709551616", "2147483647", "2147483648", "-2147483648", "-2147483649", "++1", "-+1",
];

#[test]
fn u16_parsing_matches_std() {
    for s in SAMPLES {
        let ours = parse_unsigned_chars(&chars(s), 10, u16::MAX as u64);
        match s.parse::<u16>() {
            Ok(v) => assert_eq!(ours, Ok(v as u64), "{s}"),
            Err(e) => assert_eq!(ours, Err(kind_of(&e)), "{s}"),
        }
    }
}

#[test]
fn usize_hex_parsing_matches_std() {
    let hex_samples = ["", "0", "1a", "1A", "+ff", "-ff", "ffffffffffffffff", "10000000000000000", "g", "fffffffffffffffffffffffz", "0x10"];
    for s in hex_samples.iter().chain(SAMPLES.iter()) {
        let ours = parse_unsigned_chars(&chars(s), 16, usize::MAX as u64);
        match usize::from_str_radix(s, 16) {
            Ok(v) => assert_eq!(ours, Ok(v as u64), "{s}"),
            Err(e) => {
                assert_eq!(ours, Err(kind_of(&e)), "{s}");
                assert_eq!(ours.unwrap_err().message(), e.to_string());
            }
        }
    }
}

#[test]
fn i32_parsing_matches_std() {
    for s in SAMPLES {
        let ours = parse_i32_chars(&chars(s));
        match s.parse::<i32>() {
            Ok(v) => assert_eq!(ours, Ok(v), "{s}"),
            Err(e) => {
                assert_eq!(ours, Err(kind_of(&e)), "{s}");
                assert_eq!(ours.unwrap_err().message(), e.to_string());
            }
        }
    }
}

#[test]
fn decimal_rendering() {
    for n in [0u64, 7, 10, 443, 8034, 65535, u64::MAX] {
        assert_eq!(decimal_string(n), n.to_string());
    }
}

#[test]
fn decimal_rendering_reads_back() {
    for n in [0u64, 9, 10, 99, 100, 65535] {
        let text = chars(&decimal_string(n));
        assert_eq!(parse_unsigned_chars(&text, 10, 65535), Ok(n));
    }
}

const TEXTS: &[&str] = &[
    "", "  ", "a", " a b ", "\t\nx\u{a0}y\u{3000}", "\u{85}z\u{2028}", "one  two\r\nthree",
    "a\n", "a\r\n", "\n", "\r", "a\rb", "a\r\nb\r", "x\r\n\r\ny", "\u{200b}a\u{200b}",
];

#[test]
fn trimming_matches_std() {
    for s in TEXTS {
        let v = chars(s);
        assert_eq!(string_from_chars(&trim_chars(&v)), s.trim(), "{s:?}");
        let slashes = format!("{s}//");
        assert_eq!(
            string_from_chars(&trim_end_char_chars(&chars(&slashes), '/')),
            slashes.trim_end_matches('/')
        );
    }
}

#[test]
fn words_match_std() {
    for s in TEXTS {
        let v = chars(s);
        let words: Vec<String> = split_whitespace_ranges(&v)
            .iter()
            .map(|&(a, b)| string_from_chars(&v[a..b]))
            .collect();
        let expected: Vec<&str> = s.split_whitespace().collect();
        assert_eq!(words, expected, "{s:?}");
    }
}

#[test]
fn lines_match_std() {
    for s in TEXTS {
        let v = chars(s);
        let lines: Vec<String> = lines_ranges(&v)
            .iter()
            .map(|&(a, b)| string_from_chars(&v[a..b]))
            .collect();
        let expected: Vec<&str> = s.lines().collect();
        assert_eq!(lines, expected, "{s:?}");
    }
}

#[test]
fn chars_round_trip() {
    for s in TEXTS {
        assert_eq!(chars_of(s), chars(s));
        assert_eq!(string_from_chars(&chars_of(s)), *s);
    }
}
