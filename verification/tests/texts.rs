use resizer::text::{
    chars_of, contains, decimal_text, ends_with, hex_text, join_texts, last_texts, lines_of,
    lower_text, parse_number, replace, split, trimmed, wide_decimal_text,
};

const SAMPLES: &[&str] = &[
    "", " ", "a", " a ", "\t a b \r\n", "\u{85}x\u{3000}", "a/b//c/", "/", "one\ntwo\r\nthree",
    "\n", "\n\n", "a\n", "a\r\n", "a\r", "\r\n", "ÁÉ ñ Z", "..", "x.y..z",
];

#[test]
fn texts_agree_with_std() {
    for s in SAMPLES {
        assert_eq!(trimmed(s), s.trim(), "{s:?}");
        assert_eq!(lower_text(s), s.to_ascii_lowercase(), "{s:?}");
        assert_eq!(lines_of(s), s.lines().collect::<Vec<_>>(), "{s:?}");
        assert_eq!(split(s, '/'), s.split('/').collect::<Vec<_>>(), "{s:?}");
        assert_eq!(chars_of(s), s.chars().collect::<Vec<_>>());
        for p in ["", ".", "..", "b", "\n", "a/b"] {
            assert_eq!(contains(s, p), s.contains(p), "{s:?} {p:?}");
            assert_eq!(ends_with(s, p), s.ends_with(p), "{s:?} {p:?}");
            if !p.is_empty() {
                assert_eq!(replace(s, p, "<>"), s.replace(p, "<>"), "{s:?} {p:?}");
            }
        }
    }
    assert_eq!(replace("aaaa", "aa", "b"), "bb");
}

#[test]
fn numbers_agree_with_std() {
    for n in [0u64, 9, 10, 99, 100, 12345, u64::MAX] {
        assert_eq!(decimal_text(n), n.to_string());
        assert_eq!(parse_number(&n.to_string()), Some(n));
        assert_eq!(hex_text(n, 16), format!("{n:016x}"));
    }
    assert_eq!(wide_decimal_text(u128::MAX), u128::MAX.to_string());
    for s in ["", "+", "-1", "+7", "007", "18446744073709551616", "1 ", "1e3", "٣"] {
        assert_eq!(parse_number(s), s.parse::<u64>().ok(), "{s:?}");
    }
}

#[test]
fn lists_are_joined_and_cut() {
    let v: Vec<String> = ["a", "b", "c"].iter().map(|s| s.to_string()).collect();
    assert_eq!(join_texts(&v, ", "), "a, b, c");
    assert_eq!(join_texts(&Vec::new(), ", "), "");
    assert_eq!(last_texts(&v, 2), vec!["b", "c"]);
    assert_eq!(last_texts(&v, 9), v);
    assert!(last_texts(&v, 0).is_empty());
}
