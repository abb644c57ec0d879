use asmo::text::{chars_of, lines_of, parse_i32, parse_u64, parse_usize, tokens_of, trim_str};

fn strings(v: Vec<Vec<char>>) -> Vec<String> {
    v.into_iter().map(|c| c.into_iter().collect()).collect()
}

#[test]
fn integers_parse_like_str_parse() {
    for s in ["0", "42", "+7", "-1", "", "+", "1 ", "18446744073709551615", "18446744073709551616", "007", "x"] {
        let v = chars_of(s);
        assert_eq!(parse_u64(&v), s.parse::<u64>().ok(), "{s:?}");
        assert_eq!(parse_usize(&v), s.parse::<usize>().ok(), "{s:?}");
        assert_eq!(parse_i32(&v), s.parse::<i32>().ok(), "{s:?}");
    }
    for s in ["-2147483648", "-2147483649", "2147483647", "2147483648", "-0", "--1", "+-1"] {
        assert_eq!(parse_i32(&chars_of(s)), s.parse::<i32>().ok(), "{s:?}");
    }
}

#[test]
fn tokens_match_split_whitespace() {
    for s in ["", "  a  b\tc\n", "one", "\u{a0}x\u{3000}y ", "a\u{200b}b"] {
        let expected: Vec<String> = s.split_whitespace().map(|t| t.to_string()).collect();
        assert_eq!(strings(tokens_of(&chars_of(s))), expected, "{s:?}");
    }
}

#[test]
fn lines_match_str_lines() {
    for s in ["", "a", "a\n", "a\r\nb\n\nc", "\n", "x\r", "a\rb\r\n"] {
        let expected: Vec<String> = s.lines().map(|t| t.to_string()).collect();
        assert_eq!(strings(lines_of(&chars_of(s))), expected, "{s:?}");
    }
}

#[test]
fn trim_matches_str_trim() {
    for s in ["", "  ", " a b ", "\u{2028}x\u{85}", "abc"] {
        assert_eq!(trim_str(s), s.trim(), "{s:?}");
    }
}
