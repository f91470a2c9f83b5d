use photom::text::{line_ranges, parse_u32_text, u64_decimal};

#[test]
fn lines_are_cut_like_str_lines() {
    for s in ["a\nb", "a\r\nb\n", "\n\nx", "", "only", "x\r", "a\n\r\n"] {
        let expected: Vec<&str> = s.lines().collect();
        let got: Vec<&str> = line_ranges(s).iter().map(|&(a, b)| &s[a..b]).collect();
        assert_eq!(got, expected, "for {s:?}");
    }
}

#[test]
fn decimal_text() {
    assert_eq!(u64_decimal(0), "0");
    assert_eq!(u64_decimal(9870), "9870");
    assert_eq!(u64_decimal(u64::MAX), "18446744073709551615");
}

#[test]
fn u32_parsing_matches_std() {
    for s in ["0", "+7", "4294967295", "4294967296", "", "+", "-1", "12a", "٣"] {
        assert_eq!(parse_u32_text(s), s.parse::<u32>().ok(), "for {s:?}");
    }
}
