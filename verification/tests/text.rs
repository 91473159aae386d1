use resource_monitor::text::{
    chars_lt, chars_of, decimal_string, lines_of, parse_u32_chars, split_chars,
    split_whitespace_chars, trim_chars,
};

fn cs(s: &str) -> Vec<char> {
    s.chars().collect()
}

fn strs(v: Vec<Vec<char>>) -> Vec<String> {
    v.into_iter().map(|x| x.into_iter().collect()).collect()
}

#[test]
fn trim_matches_std() {
    for s in ["", "  a b  ", "\t\u{2003}x\u{3000}", "abc", " \n "] {
        let t: String = trim_chars(&cs(s)).into_iter().collect();
        assert_eq!(t, s.trim());
    }
}

#[test]
fn split_matches_std() {
    for s in ["", "a,b", ",a,,b,", "abc"] {
        let got = strs(split_chars(&cs(s), ','));
        let want: Vec<String> = s.split(',').map(|x| x.to_string()).collect();
        assert_eq!(got, want);
    }
}

#[test]
fn lines_match_std() {
    for s in ["", "a", "a\n", "a\r\nb", "a\n\nb\n", "\n", "x\r"] {
        let got = strs(lines_of(&cs(s)));
        let want: Vec<String> = s.lines().map(|x| x.to_string()).collect();
        assert_eq!(got, want, "input {:?}", s);
    }
}

#[test]
fn words_match_std() {
    for s in ["", "  a  b\tc ", "x", "\u{A0}y\u{2000}z"] {
        let got = strs(split_whitespace_chars(&cs(s)));
        let want: Vec<String> = s.split_whitespace().map(|x| x.to_string()).collect();
        assert_eq!(got, want);
    }
}

#[test]
fn parse_matches_std() {
    for s in ["0", "42", "+7", "+", "-1", "", "4294967295", "4294967296", "00012", "1a", "٣"] {
        assert_eq!(parse_u32_chars(&cs(s)), s.parse::<u32>().ok(), "input {:?}", s);
    }
}

#[test]
fn decimal_matches_std() {
    for n in [0u32, 7, 10, 254, 65535, u32::MAX] {
        assert_eq!(decimal_string(n), n.to_string());
    }
}

#[test]
fn order_matches_string_order() {
    let words = ["", "a", "ab", "b", "B", "未設定", "M1", "m1", "é"];
    for x in words {
        for y in words {
            assert_eq!(chars_lt(&cs(x), &cs(y)), x < y, "{:?} < {:?}", x, y);
        }
    }
    assert_eq!(chars_of("héllo"), cs("héllo"));
}
