use fgddem::text::{
    chars_of, is_whitespace, lines_of, parse_usize, string_from_chars, tuple_list_values,
    words_of,
};

#[test]
fn whitespace_matches_std_for_every_char() {
    for u in 0u32..=0x10FFFF {
        if let Some(c) = char::from_u32(u) {
            assert_eq!(is_whitespace(c), c.is_whitespace(), "U+{:04X}", u);
        }
    }
}

#[test]
fn words_match_split_whitespace() {
    let samples = [
        "",
        "   ",
        "0 0",
        "  35.0   138.75  ",
        "224\t149",
        "a\u{3000}b\u{2028}c\u{85}d",
        "one",
        "x y z",
        "\n 1 2 \n",
    ];
    for s in samples {
        let expected: Vec<String> = s.split_whitespace().map(|t| t.to_string()).collect();
        assert_eq!(words_of(s), expected, "{:?}", s);
    }
}

#[test]
fn parse_usize_matches_std() {
    let samples = [
        "0", "7", "224", "+5", "+", "", "-1", "-0", "12a", " 1", "007",
        "18446744073709551615", "18446744073709551616", "99999999999999999999999",
        "+-3", "１２", "-", "1-", "99999999999999999999x", "x99999999999999999999",
    ];
    for s in samples {
        assert_eq!(
            parse_usize(s).map_err(|e| e.message()),
            s.parse::<usize>().map_err(|e| e.to_string()),
            "{:?}",
            s
        );
    }
}

#[test]
fn lines_match_std() {
    let samples = ["", "a", "a\n", "\n", "a\r\nb", "a\rb\n", "a\r", "\n\nx\n\n", "x\r\n\r\n"];
    for s in samples {
        let v = chars_of(s);
        let got: Vec<String> = lines_of(&v).iter().map(|l| string_from_chars(l)).collect();
        let expected: Vec<String> = s.lines().map(|l| l.to_string()).collect();
        assert_eq!(got, expected, "{:?}", s);
    }
}

#[test]
fn tuple_list_takes_the_value_column() {
    let text = "地表面,145.30\n                        地表面,145.10\n    内水面,-9999.";
    assert_eq!(
        tuple_list_values(text),
        Some(vec!["145.30".to_string(), "145.10".to_string(), "-9999.".to_string()])
    );
    assert_eq!(tuple_list_values("a,1,2\r\nb,3"), Some(vec!["1".to_string(), "3".to_string()]));
    assert_eq!(tuple_list_values(""), Some(vec![]));
}

#[test]
fn tuple_list_without_comma_is_refused() {
    assert_eq!(tuple_list_values("a,1\nno comma here\nb,2"), None);
    assert_eq!(tuple_list_values("a,1\n\nb,2"), None);
}
