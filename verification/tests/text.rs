use best_practices::text::{find_space, is_space, parse_size, push_decimal, string_of, to_chars};

fn size_of(field: &str) -> u64 {
    let chars: Vec<char> = field.chars().collect();
    parse_size(&chars, 0, chars.len())
}

fn decimal(n: u64) -> String {
    let mut out = String::new();
    push_decimal(&mut out, n);
    out
}

#[test]
fn white_space_is_what_unicode_says() {
    let mut count = 0;
    for c in '\0'..=char::MAX {
        assert_eq!(is_space(c), c.is_whitespace(), "U+{:04X}", c as u32);
        if is_space(c) {
            count += 1;
        }
    }
    assert_eq!(count, 25);
    assert!(is_space(' '));
    assert!(is_space('\n'));
    assert!(is_space('\u{3000}'));
    assert!(!is_space('-'));
    assert!(!is_space('\u{200B}'));
}

#[test]
fn first_white_space_in_a_range() {
    let chars: Vec<char> = "ab cd\tef".chars().collect();
    assert_eq!(find_space(&chars, 0, chars.len()), 2);
    assert_eq!(find_space(&chars, 2, chars.len()), 2);
    assert_eq!(find_space(&chars, 3, chars.len()), 5);
    assert_eq!(find_space(&chars, 6, chars.len()), 8);
    assert_eq!(find_space(&chars, 0, 2), 2);
    assert_eq!(find_space(&chars, 4, 4), 4);
}

#[test]
fn chars_and_back() {
    let chars = to_chars("a\u{e9}\u{3000}z");
    assert_eq!(chars, vec!['a', '\u{e9}', '\u{3000}', 'z']);
    assert_eq!(string_of(&chars, 0, 4), "a\u{e9}\u{3000}z");
    assert_eq!(string_of(&chars, 1, 3), "\u{e9}\u{3000}");
    assert_eq!(string_of(&chars, 2, 2), "");
    assert!(to_chars("").is_empty());
}

#[test]
fn decimal_notation() {
    assert_eq!(decimal(0), "0");
    assert_eq!(decimal(7), "7");
    assert_eq!(decimal(10), "10");
    assert_eq!(decimal(1024), "1024");
    assert_eq!(decimal(9_007_199_254_740_993), "9007199254740993");
    assert_eq!(decimal(u64::MAX), "18446744073709551615");
    let mut out = String::from("size ");
    push_decimal(&mut out, 42);
    assert_eq!(out, "size 42");
}

#[test]
fn decimal_notation_is_what_std_writes() {
    let mut n: u64 = 1;
    for _ in 0..64 {
        for m in [n - 1, n, n + 1] {
            assert_eq!(decimal(m), m.to_string());
            assert_eq!(size_of(&decimal(m)), m);
        }
        n = n.wrapping_mul(2);
        if n == 0 {
            break;
        }
    }
}

#[test]
fn size_fields() {
    assert_eq!(size_of("0"), 0);
    assert_eq!(size_of("5"), 5);
    assert_eq!(size_of("+5"), 5);
    assert_eq!(size_of("007"), 7);
    assert_eq!(size_of("18446744073709551615"), u64::MAX);
    assert_eq!(size_of("+18446744073709551615"), u64::MAX);
    assert_eq!(size_of("000018446744073709551615"), u64::MAX);
}

#[test]
fn size_fields_that_hold_no_size() {
    for field in [
        "", "+", "-", "-5", "++5", "5+", "5 ", " 5", "5.0", "0x10", "1e3", "abc", "1_000",
        "18446744073709551616", "184467440737095516150", "99999999999999999999",
        "\u{663}", "\u{ff15}",
    ] {
        assert_eq!(size_of(field), 0, "{:?}", field);
        assert_eq!(size_of(field), field.parse::<u64>().unwrap_or(0), "{:?}", field);
    }
}

#[test]
fn size_field_in_a_range() {
    let chars: Vec<char> = "ab 123 cd".chars().collect();
    assert_eq!(parse_size(&chars, 3, 6), 123);
    assert_eq!(parse_size(&chars, 3, 5), 12);
    assert_eq!(parse_size(&chars, 4, 4), 0);
    assert_eq!(parse_size(&chars, 2, 6), 0);
}
