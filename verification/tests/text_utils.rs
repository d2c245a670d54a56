use refac::text::{
    replace_all_ignore_case,
    chars_of, decimal_string, find_from, join_chars, lines_of, lowercase_chars, parse_u32,
    replace_all, split_chars, string_of, trim_chars, trim_end_chars, words_of,
};

fn c(s: &str) -> Vec<char> {
    s.chars().collect()
}

fn s(v: &[char]) -> String {
    v.iter().collect()
}

fn all(v: &[Vec<char>]) -> Vec<String> {
    v.iter().map(|x| s(x)).collect()
}

#[test]
fn replace_matches_std_replace() {
    let cases = [
        ("hello world", "o", "0"),
        ("aaaa", "aa", "b"),
        ("abc", "", "-"),
        ("", "", "x"),
        ("old_old", "old", "new"),
        ("nothing here", "zzz", "y"),
        ("ééé", "é", "e"),
    ];
    for (text, from, to) in cases {
        assert_eq!(s(&replace_all(&c(text), &c(from), &c(to))), text.replace(from, to));
    }
}

#[test]
fn split_and_join_round_trip() {
    let parts = split_chars(&c("a,b,,c,"), ',');
    assert_eq!(all(&parts), vec!["a", "b", "", "c", ""]);
    assert_eq!(s(&join_chars(&parts, &c(","))), "a,b,,c,");
}

#[test]
fn lines_match_std_lines() {
    for text in ["a\nb\n", "a\r\nb", "", "\n", "x\n\ny", "tail\r"] {
        let expected: Vec<String> = text.lines().map(|l| l.to_string()).collect();
        assert_eq!(all(&lines_of(&c(text))), expected, "text = {:?}", text);
    }
}

#[test]
fn trimming_and_words_match_std() {
    for text in ["  a b  ", "\t\nx\r\n", "", "   ", "no-space", " a  b\tc "] {
        assert_eq!(s(&trim_chars(&c(text))), text.trim());
        assert_eq!(s(&trim_end_chars(&c(text))), text.trim_end());
        let expected: Vec<String> = text.split_whitespace().map(|w| w.to_string()).collect();
        assert_eq!(all(&words_of(&c(text))), expected);
    }
}

#[test]
fn decimal_numbers_round_trip() {
    for n in [0u32, 7, 10, 12345, u32::MAX] {
        let text = decimal_string(n as u64);
        assert_eq!(text, n.to_string());
        assert_eq!(parse_u32(&c(&text)), Some(n));
    }
    assert_eq!(decimal_string(u64::MAX), u64::MAX.to_string());
    assert_eq!(parse_u32(&c("4294967296")), None);
    assert_eq!(parse_u32(&c("")), None);
    assert_eq!(parse_u32(&c("+12")), "+12".parse::<u32>().ok());
    assert_eq!(parse_u32(&c("-1")), None);
    assert_eq!(parse_u32(&c("1a")), None);
    assert_eq!(parse_u32(&c("007")), Some(7));
}

#[test]
fn search_and_case() {
    assert_eq!(find_from(&c("abcabc"), &c("bc"), 0), Some(1));
    assert_eq!(find_from(&c("abcabc"), &c("bc"), 2), Some(4));
    assert_eq!(find_from(&c("abcabc"), &c("x"), 0), None);
    assert_eq!(s(&lowercase_chars(&c("MiXeD Ünïcode"))), "mixed ünïcode");
    assert_eq!(string_of(&chars_of("round trip")), "round trip");
}

#[test]
fn replace_ignoring_case_keeps_the_rest() {
    let r = |a: &str, b: &str, d: &str| s(&replace_all_ignore_case(&c(a), &c(b), &c(d)));
    assert_eq!(r("MyOldFile.TXT", "old", "new"), "MynewFile.TXT");
    assert_eq!(r("OLDold", "Old", "x"), "xx");
    assert_eq!(r("abc", "zz", "y"), "abc");
    assert_eq!(r("ab", "", "-"), "-a-b-");
}
