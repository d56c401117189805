use logu::token::{has_number, is_whitespace, tokenize};

#[test]
fn tokenize_splits_on_whitespace() {
    assert_eq!(tokenize("  connected to\t10.0.0.1 \n"), vec!["connected", "to", "10.0.0.1"]);
}

#[test]
fn tokenize_of_blank_line_is_empty() {
    assert_eq!(tokenize(" \t "), Vec::<String>::new());
    assert_eq!(tokenize(""), Vec::<String>::new());
}

#[test]
fn tokenize_keeps_a_single_token() {
    assert_eq!(tokenize("token"), vec!["token"]);
}

#[test]
fn tokenize_agrees_with_split_whitespace() {
    let lines = [
        "a\u{3000}b\u{a0}c",
        "\u{2003}lead and trail\u{2028}",
        "tab\tseparated\x0bvertical\x0cfeed\rreturn",
        "nbsp\u{85}next\u{1680}ogham\u{202f}narrow\u{205f}math",
        "zero\u{200b}width stays",
        "user davidoh logged in",
    ];
    for line in lines {
        let expected: Vec<String> = line.split_whitespace().map(|s| s.to_string()).collect();
        assert_eq!(tokenize(line), expected);
    }
}

#[test]
fn is_whitespace_agrees_with_char() {
    let mut code: u32 = 0;
    while code <= 0x3100 {
        if let Some(c) = char::from_u32(code) {
            assert_eq!(is_whitespace(c), c.is_whitespace(), "U+{:04X}", code);
        }
        code += 1;
    }
}

#[test]
fn has_number_finds_a_digit() {
    assert!(has_number("0xDEADBEAF"));
    assert!(has_number("10.0.0.1"));
    assert!(has_number("a9"));
    assert!(!has_number("davidoh"));
    assert!(!has_number("<*>"));
    assert!(!has_number(""));
}
