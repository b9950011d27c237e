use pixo::is_number_non_zero;
use pixo::text::{eq_trimmed, is_whitespace, join, parse_u32, to_chars, trim_bounds};

fn strings(items: &[&str]) -> Vec<String> {
    items.iter().map(|item| item.to_string()).collect()
}

#[test]
fn whitespace_is_what_std_calls_whitespace() {
    let mut code: u32 = 0;
    while code <= 0x10ffff {
        if let Some(c) = char::from_u32(code) {
            assert_eq!(is_whitespace(c), c.is_whitespace(), "U+{:04X}", code);
        }
        code += 1;
    }
}

#[test]
fn to_chars_keeps_every_character() {
    assert_eq!(to_chars("a é\u{3000}z"), vec!['a', ' ', 'é', '\u{3000}', 'z']);
    assert_eq!(to_chars(""), Vec::<char>::new());
}

#[test]
fn trim_bounds_of_padded_text() {
    let chars = to_chars("  ab c \n");
    assert_eq!(trim_bounds(&chars), (2, 6));
}

#[test]
fn trim_bounds_of_blank_text() {
    let chars = to_chars(" \t ");
    let (start, end) = trim_bounds(&chars);
    assert_eq!(start, end);
    assert_eq!(trim_bounds(&Vec::new()), (0, 0));
}

#[test]
fn trimming_agrees_with_std() {
    let samples = [
        "",
        " ",
        "a",
        " a",
        "a ",
        " a b ",
        "\u{a0}x\u{a0}",
        "\u{3000}x\u{2003}",
        "\u{85}x\u{1680}",
        "\u{200b}x",
        "x\u{180e}",
        "\t\r\n x y \u{b}\u{c}",
        "\u{2028}\u{2029}\u{202f}\u{205f}z",
    ];
    for a in samples {
        for b in samples {
            assert_eq!(eq_trimmed(a, b), a.trim() == b.trim(), "{:?} against {:?}", a, b);
        }
    }
}

#[test]
fn eq_trimmed_minds_case_and_inner_space() {
    assert!(eq_trimmed(" Paris ", "Paris"));
    assert!(!eq_trimmed("paris", "Paris"));
    assert!(!eq_trimmed("New York", "NewYork"));
    assert!(!eq_trimmed("Pari", "Paris"));
}

#[test]
fn join_puts_the_separator_between() {
    assert_eq!(join(&strings(&["cat", "feline"]), " OR "), "cat OR feline");
    assert_eq!(join(&strings(&["a", "b", "c"]), ", "), "a, b, c");
    assert_eq!(join(&strings(&["", ""]), "-"), "-");
}

#[test]
fn join_of_one_and_of_none() {
    assert_eq!(join(&strings(&["alone"]), " OR "), "alone");
    assert_eq!(join(&Vec::new(), " OR "), "");
}

#[test]
fn parse_u32_reads_decimal() {
    assert_eq!(parse_u32("0"), Some(0));
    assert_eq!(parse_u32("12"), Some(12));
    assert_eq!(parse_u32("+5"), Some(5));
    assert_eq!(parse_u32("00012"), Some(12));
    assert_eq!(parse_u32("4294967295"), Some(4294967295));
}

#[test]
fn parse_u32_refuses_what_is_no_number() {
    assert_eq!(parse_u32(""), None);
    assert_eq!(parse_u32("+"), None);
    assert_eq!(parse_u32("-5"), None);
    assert_eq!(parse_u32("1a"), None);
    assert_eq!(parse_u32(" 1"), None);
    assert_eq!(parse_u32("1 "), None);
    assert_eq!(parse_u32("++1"), None);
    assert_eq!(parse_u32("٣"), None);
    assert_eq!(parse_u32("4294967296"), None);
    assert_eq!(parse_u32("99999999999999999999"), None);
}

#[test]
fn parse_u32_agrees_with_std() {
    let samples = [
        "", "+", "-", "0", "+0", "-0", "7", "+7", "-7", "007", "42949672950", "4294967295",
        "4294967296", "429496729a", "a", "1 2", "１２", "1e3", "0x10", "3000000000", "+4294967295",
    ];
    for sample in samples {
        assert_eq!(parse_u32(sample), sample.parse::<u32>().ok(), "{:?}", sample);
    }
}

#[test]
fn number_of_at_least_one_is_accepted() {
    assert_eq!(is_number_non_zero("1".to_string()), Ok(()));
    assert_eq!(is_number_non_zero("2".to_string()), Ok(()));
    assert_eq!(is_number_non_zero("+10".to_string()), Ok(()));
    assert_eq!(is_number_non_zero("4294967295".to_string()), Ok(()));
}

#[test]
fn zero_is_refused() {
    assert_eq!(is_number_non_zero("0".to_string()), Err("Need to be at lease 1".to_string()));
    assert_eq!(is_number_non_zero("000".to_string()), Err("Need to be at lease 1".to_string()));
}

#[test]
fn what_is_no_number_is_refused() {
    let reason = Err("The value must be a natural number".to_string());
    assert_eq!(is_number_non_zero("".to_string()), reason);
    assert_eq!(is_number_non_zero("two".to_string()), reason);
    assert_eq!(is_number_non_zero("-1".to_string()), reason);
    assert_eq!(is_number_non_zero("1.5".to_string()), reason);
    assert_eq!(is_number_non_zero("4294967296".to_string()), reason);
}
