use git_multi_glance::text::{
    chars_of, concatenated, has_substring, line_spans, parse_u32_span, push_decimal, push_padded,
    trimmed, word_spans,
};

fn pieces(v: &[char], spans: &[(usize, usize)]) -> Vec<String> {
    spans.iter().map(|&(a, b)| v[a..b].iter().collect()).collect()
}

#[test]
fn lines_follow_str_lines() {
    for s in ["", "a", "a\n", "a\nb", "a\r\nb\r\n", "\n\n", "x\r", "a\rb\n"] {
        let v = chars_of(s);
        let expected: Vec<String> = s.lines().map(|l| l.to_string()).collect();
        assert_eq!(pieces(&v, &line_spans(&v)), expected, "{s:?}");
    }
}

#[test]
fn words_follow_split_whitespace() {
    for s in ["", "  a  b ", "a\tb\u{a0}c", "\u{2028}x"] {
        let v = chars_of(s);
        let expected: Vec<String> = s.split_whitespace().map(|w| w.to_string()).collect();
        assert_eq!(pieces(&v, &word_spans(&v, 0, v.len())), expected, "{s:?}");
    }
}

#[test]
fn trim_follows_str_trim() {
    for s in ["", "   ", " a b ", "\u{3000}x\n", "x"] {
        assert_eq!(trimmed(s), s.trim());
    }
}

#[test]
fn u32_parsing_follows_from_str() {
    for s in ["0", "42", "+7", "+", "", "-1", "4294967295", "4294967296", "99999999999999", "1a", " 1"] {
        let v = chars_of(s);
        assert_eq!(parse_u32_span(&v, 0, v.len()), s.parse::<u32>().ok(), "{s:?}");
    }
}

#[test]
fn decimal_and_padding() {
    let mut s = String::new();
    push_decimal(&mut s, 0);
    s.push('/');
    push_decimal(&mut s, 18446744073709551615);
    assert_eq!(s, "0/18446744073709551615");
    let mut p = String::from(">");
    push_padded(&mut p, "ab", 4);
    push_padded(&mut p, "abcdef", 4);
    assert_eq!(p, ">ab  abcdef");
}

#[test]
fn substring_and_concat() {
    let v = chars_of("has @origin here");
    assert!(has_substring(&v, 0, v.len(), &chars_of("@origin")));
    assert!(has_substring(&v, 0, v.len(), &chars_of("")));
    assert!(!has_substring(&v, 0, 6, &chars_of("@origin")));
    assert_eq!(concatenated("ab", "cd"), "abcd");
}
