use geo_relay::text;

#[test]
fn trimming_takes_unicode_white_space() {
    let spaces = "\u{9}\u{a}\u{b}\u{c}\u{d} \u{85}\u{a0}\u{1680}\u{2000}\u{200a}\u{2028}\u{2029}\u{202f}\u{205f}\u{3000}";
    let padded = format!("{spaces}a b{spaces}");
    assert_eq!(text::trim(&padded), "a b");
    assert_eq!(text::trim(&padded), padded.trim());
    assert_eq!(text::trim_start(&padded), padded.trim_start());
    assert_eq!(text::trim_end(&padded), padded.trim_end());
    assert_eq!(text::trim(spaces), "");
    assert_eq!(text::trim("\u{200b}x\u{feff}"), "\u{200b}x\u{feff}".trim());
}

#[test]
fn white_space_is_that_of_the_standard_library() {
    for value in 0..=0x10ffffu32 {
        if let Some(c) = char::from_u32(value) {
            if c.is_whitespace() || value < 0x3100 {
                let one = c.to_string();
                assert_eq!(text::blank(&one), c.is_whitespace());
            }
        }
    }
}

#[test]
fn case_is_that_of_ascii() {
    for sample in ["aZ09-[`{@", "\u{e9}\u{c9}\u{df}", "\u{4e0a}\u{6d77}"] {
        assert_eq!(text::to_uppercase(sample), sample.to_ascii_uppercase());
        assert_eq!(text::to_lowercase(sample), sample.to_ascii_lowercase());
    }
    assert!(text::same_ignoring_case("Tokyo", "tOKYO"));
    assert!(!text::same_ignoring_case("\u{e9}", "\u{c9}"));
    assert!(!text::same_ignoring_case("a", "ab"));
}

#[test]
fn texts_are_cut_at_separators() {
    assert_eq!(text::split("a;;b;", ';'), vec!["a", "", "b", ""]);
    assert_eq!(text::split("", ';'), vec![""]);
    assert_eq!(text::split_kept(" a ; ;b;", ';'), vec!["a", "b"]);
    assert_eq!(text::split_once("a=b=c", '='), Some(("a", "b=c")));
    assert_eq!(text::split_once("\u{4e0a}=", '='), Some(("\u{4e0a}", "")));
    assert_eq!(text::split_once("abc", '='), None);
}

#[test]
fn parts_are_found_anywhere() {
    assert!(text::contains("china telecom", "telecom"));
    assert!(text::contains("aab", "ab"));
    assert!(text::contains("abc", ""));
    assert!(!text::contains("ab", "abc"));
    assert!(!text::contains("abab", "ba "));
    assert!(text::holds_char("a=b", '='));
    assert!(!text::holds_char("ab", '='));
    assert!(text::starts_with("{a", '{'));
    assert!(!text::starts_with("", '{'));
}

#[test]
fn order_is_that_of_strings() {
    let samples = ["", "A", "AB", "B", "a", "\u{e9}", "\u{ffff}", "\u{10000}", "CN", "JP"];
    for a in samples {
        for b in samples {
            assert_eq!(text::in_order(a, b), a <= b);
        }
    }
}

#[test]
fn numbers_are_decimal() {
    for n in [0usize, 7, 10, 99, 100, 65_537, usize::MAX] {
        assert_eq!(text::number(n), n.to_string());
    }
}
