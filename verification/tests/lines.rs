use fstree::names::name_before;
use fstree::transcript::{is_blank, read_size, split_fields};

#[test]
fn fields_are_runs_between_white_space() {
    assert_eq!(split_fields("$ cd /"), vec!["$", "cd", "/"]);
    assert_eq!(split_fields("  14848514\tb.txt  "), vec!["14848514", "b.txt"]);
    assert_eq!(split_fields("dir   a"), vec!["dir", "a"]);
    assert_eq!(split_fields("single"), vec!["single"]);
}

#[test]
fn a_blank_line_has_no_fields() {
    assert!(split_fields("").is_empty());
    assert!(split_fields("   ").is_empty());
    assert!(split_fields(" \t\r\n").is_empty());
}

#[test]
fn fields_agree_with_the_standard_split() {
    for line in ["a\u{a0}b", "x\u{2003}y\u{3000}z", "\u{85}p q", "no-break\u{202f}space", "é 日本 ~", "a\u{200b}b"] {
        let expected: Vec<&str> = line.split_whitespace().collect();
        assert_eq!(split_fields(line), expected, "line {:?}", line);
    }
}

#[test]
fn white_space_is_what_the_standard_library_says() {
    for code in 0u32..0x3100 {
        if let Some(c) = char::from_u32(code) {
            assert_eq!(is_blank(c), c.is_whitespace(), "code point {:x}", code);
        }
    }
    assert!(!is_blank('\u{10ffff}'));
}

#[test]
fn sizes_are_decimal_numbers() {
    assert_eq!(read_size("0"), Some(0));
    assert_eq!(read_size("7"), Some(7));
    assert_eq!(read_size("14848514"), Some(14848514));
    assert_eq!(read_size("007"), Some(7));
    assert_eq!(read_size("+5"), Some(5));
    assert_eq!(read_size("4294967295"), Some(4294967295));
}

#[test]
fn what_is_no_number_is_no_size() {
    assert_eq!(read_size(""), None);
    assert_eq!(read_size("+"), None);
    assert_eq!(read_size("-1"), None);
    assert_eq!(read_size("12a"), None);
    assert_eq!(read_size("a12"), None);
    assert_eq!(read_size("1 2"), None);
    assert_eq!(read_size("1_000"), None);
    assert_eq!(read_size("++1"), None);
    assert_eq!(read_size("1.5"), None);
    assert_eq!(read_size("dir"), None);
    assert_eq!(read_size("٣"), None);
}

#[test]
fn sizes_stop_at_the_largest_usize() {
    let max = usize::MAX.to_string();
    assert_eq!(read_size(&max), Some(usize::MAX));
    let mut over = max.clone();
    over.push('0');
    assert_eq!(read_size(&over), None);
    assert_eq!(read_size("99999999999999999999999999999999999999999"), None);
    let digits: Vec<char> = max.chars().collect();
    let last = digits[digits.len() - 1].to_digit(10).unwrap();
    if last < 9 {
        let mut next: String = digits[..digits.len() - 1].iter().collect();
        next.push(char::from_digit(last + 1, 10).unwrap());
        assert_eq!(read_size(&next), None);
    }
}

#[test]
fn sizes_agree_with_the_standard_parse() {
    for text in ["0", "+0", "000", "123456789", "+", "", "-", "-0", "1e3", "0x10", " 1", "1 ", "18446744073709551615", "18446744073709551616"] {
        assert_eq!(read_size(text), text.parse::<usize>().ok(), "text {:?}", text);
    }
}

#[test]
fn names_compare_like_strings() {
    let names = ["", "a", "A", "ab", "abc", "abd", "b", "/", "..", "~", "é", "日本", "z", "a.txt", "a0"];
    for a in names {
        for b in names {
            assert_eq!(name_before(a, b), a < b, "{:?} before {:?}", a, b);
        }
    }
}

#[test]
fn a_prefix_sorts_first() {
    assert!(name_before("ab", "abc"));
    assert!(!name_before("abc", "ab"));
    assert!(!name_before("abc", "abc"));
    assert!(name_before("", "a"));
    assert!(!name_before("", ""));
}
