use keytool::text::{compare_names, strip_hyphens, trim, white_space, NameOrder};

#[test]
fn names_in_order() {
    assert_eq!(compare_names("abc", "abd"), NameOrder::Before);
    assert_eq!(compare_names("abd", "abc"), NameOrder::After);
    assert_eq!(compare_names("abc", "abc"), NameOrder::Same);
    assert_eq!(compare_names("", ""), NameOrder::Same);
}

#[test]
fn shorter_name_comes_first() {
    assert_eq!(compare_names("", "a"), NameOrder::Before);
    assert_eq!(compare_names("a", ""), NameOrder::After);
    assert_eq!(compare_names("Office", "Office 2000"), NameOrder::Before);
    assert_eq!(compare_names("Office 2000", "Office"), NameOrder::After);
}

#[test]
fn upper_case_comes_before_lower_case() {
    assert_eq!(compare_names("B", "a"), NameOrder::Before);
    assert_eq!(compare_names("a", "B"), NameOrder::After);
    assert_eq!(compare_names("Windows", "windows"), NameOrder::Before);
    assert_eq!(compare_names("Z", "a"), NameOrder::Before);
}

#[test]
fn names_beyond_ascii() {
    assert_eq!(compare_names("z", "\u{e9}"), NameOrder::Before);
    assert_eq!(compare_names("\u{e9}", "\u{4e2d}"), NameOrder::Before);
    assert_eq!(compare_names("\u{4e2d}", "\u{1f600}"), NameOrder::Before);
    assert_eq!(compare_names("\u{ffff}", "\u{10000}"), NameOrder::Before);
    assert_eq!(compare_names("a\u{e9}", "a\u{e9}"), NameOrder::Same);
}

#[test]
fn names_agree_with_the_standard_order() {
    let names = ["", "A", "B", "a", "ab", "aB", "Windows XP", "Windows 98", "\u{e9}", "z", "\u{10000}"];
    for a in names {
        for b in names {
            let expected = if a < b {
                NameOrder::Before
            } else if a == b {
                NameOrder::Same
            } else {
                NameOrder::After
            };
            assert_eq!(compare_names(a, b), expected);
        }
    }
}

#[test]
fn white_space_characters() {
    for c in [' ', '\t', '\n', '\u{b}', '\u{c}', '\r', '\u{85}', '\u{a0}', '\u{1680}', '\u{2000}',
        '\u{200a}', '\u{2028}', '\u{2029}', '\u{202f}', '\u{205f}', '\u{3000}'] {
        assert!(white_space(c));
    }
    for c in ['a', '0', '-', '\u{8}', '\u{e}', '\u{200b}', '\u{feff}', '\u{180e}'] {
        assert!(!white_space(c));
    }
}

#[test]
fn white_space_agrees_with_the_standard_one() {
    for u in 0u32..0x3100 {
        if let Some(c) = char::from_u32(u) {
            assert_eq!(white_space(c), c.is_whitespace());
        }
    }
}

#[test]
fn trim_both_ends() {
    assert_eq!(trim("  abc  "), "abc");
    assert_eq!(trim("abc"), "abc");
    assert_eq!(trim("\t\nabc\u{3000}"), "abc");
    assert_eq!(trim(" a b "), "a b");
    assert_eq!(trim(""), "");
    assert_eq!(trim("   "), "");
    assert_eq!(trim(" \u{e9} "), "\u{e9}");
}

#[test]
fn trim_agrees_with_the_standard_one() {
    for text in ["", " ", "x", " x", "x ", " x y ", "\r\n key \r\n", "\u{a0}\u{2003}k\u{2028}"] {
        assert_eq!(trim(text), text.trim());
    }
}

#[test]
fn hyphens_stripped() {
    assert_eq!(strip_hyphens("1234-5678"), "12345678");
    assert_eq!(strip_hyphens("12345678"), "12345678");
    assert_eq!(strip_hyphens("-1-2-"), "12");
    assert_eq!(strip_hyphens("--"), "");
    assert_eq!(strip_hyphens(""), "");
    assert_eq!(strip_hyphens("a b_c"), "a b_c");
    assert_eq!(strip_hyphens("\u{2010}-\u{e9}"), "\u{2010}\u{e9}");
}
