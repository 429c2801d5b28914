use rendering::text::{
    byte_offset, contains_text, count_newlines, decimal_text, find_text, holds_text, lines_of,
    replace_first_text, replace_text, starts_with_text,
};

const TEXTS: [&str; 9] = [
    "", "a", "aa", "aaa", "abcabc", "a\nb\r\nc", "\n\n", "\r\n\r", "\u{e9}a\u{e9}\u{1f980}",
];
const PATTERNS: [&str; 7] = ["", "a", "aa", "bc", "\n", "\u{e9}", "\u{1f980}"];

#[test]
fn searching_agrees_with_std() {
    for s in TEXTS.iter() {
        for p in PATTERNS.iter() {
            assert_eq!(contains_text(s, p), s.contains(p));
            assert_eq!(starts_with_text(s, p), s.starts_with(p));
            let found = find_text(s, p).map(|k| byte_offset(s, k));
            assert_eq!(found, s.find(p));
        }
    }
}

#[test]
fn replacing_agrees_with_std() {
    for s in TEXTS.iter() {
        for p in PATTERNS.iter() {
            for r in ["", "x", "<aa>"].iter() {
                assert_eq!(replace_text(s, p, r), s.replace(p, r));
                assert_eq!(replace_first_text(s, p, r), s.replacen(p, r, 1));
            }
        }
    }
}

#[test]
fn lines_agree_with_std() {
    for s in TEXTS.iter() {
        let lines: Vec<&str> = s.lines().collect();
        assert_eq!(lines_of(s), lines);
        assert_eq!(count_newlines(s), s.split('\n').count() - 1);
    }
}

#[test]
fn numbers_in_decimal() {
    for n in [0u64, 9, 10, 99, 100, 255, u64::MAX].iter() {
        assert_eq!(decimal_text(*n), n.to_string());
    }
}

#[test]
fn holding_a_text() {
    let v = vec!["a".to_string(), "b".to_string()];
    assert!(holds_text(&v, "b"));
    assert!(!holds_text(&v, "c"));
    assert!(!holds_text(&[], ""));
}
