use port_ops::pids::sort_dedup;
use port_ops::text::{
    contains, hex4, is_all_digits, is_whitespace, parse_u32, rfind, split_lines, split_whitespace,
    starts_with, text_eq, trim,
};

fn t(s: &str) -> Vec<char> {
    s.chars().collect()
}

fn ts(v: &[&str]) -> Vec<Vec<char>> {
    v.iter().map(|s| t(s)).collect()
}

#[test]
fn parse_u32_accepts_what_std_accepts() {
    for s in ["0", "123", "+7", "007", "4294967295", "", "+", "-1", "4294967296", "12a", " 1", "99999999999999999999"] {
        assert_eq!(parse_u32(&t(s)), s.parse::<u32>().ok(), "input {:?}", s);
    }
}

#[test]
fn parse_u32_exact_values() {
    assert_eq!(parse_u32(&t("4294967295")), Some(4294967295));
    assert_eq!(parse_u32(&t("+42")), Some(42));
    assert_eq!(parse_u32(&t("4294967296")), None);
    assert_eq!(parse_u32(&t("++1")), None);
}

#[test]
fn lines_split_at_line_feeds() {
    assert_eq!(split_lines(&t("a\nbb\n\nc")), ts(&["a", "bb", "", "c"]));
    assert_eq!(split_lines(&t("x\n")), ts(&["x", ""]));
    assert_eq!(split_lines(&t("")), ts(&[""]));
}

#[test]
fn words_split_like_split_whitespace() {
    for s in ["  a  b\tc\r\n", "", "   ", "one", "x\u{a0}y\u{3000}z", " 0: 0100007F:1F90 0A "] {
        let expected: Vec<Vec<char>> = s.split_whitespace().map(t).collect();
        assert_eq!(split_whitespace(&t(s)), expected, "input {:?}", s);
    }
}

#[test]
fn trim_like_str_trim() {
    for s in ["  node \n", "", " \t ", "x", "\u{2003}a b\u{85}"] {
        assert_eq!(trim(&t(s)), t(s.trim()), "input {:?}", s);
    }
}

#[test]
fn whitespace_like_char_is_whitespace() {
    for c in ['\t', '\n', '\u{b}', ' ', '\u{85}', '\u{a0}', '\u{1680}', '\u{2000}', '\u{200a}', '\u{200b}', '\u{3000}', 'a', '0'] {
        assert_eq!(is_whitespace(c), c.is_whitespace(), "char {:?}", c);
    }
}

#[test]
fn searching_text() {
    assert!(contains(&t("socket:[12345]"), &t("2345")));
    assert!(contains(&t("abc"), &t("")));
    assert!(!contains(&t("ab"), &t("abc")));
    assert!(starts_with(&t("socket:[1]"), &t("socket:[")));
    assert!(!starts_with(&t("sock"), &t("socket:[")));
    assert_eq!(rfind(&t("[::1]:1F90"), ':'), Some(5));
    assert_eq!(rfind(&t("abc"), ':'), None);
    assert!(text_eq(&t("0A"), &t("0A")));
    assert!(!text_eq(&t("0A"), &t("01")));
    assert!(is_all_digits(&t("")));
    assert!(!is_all_digits(&t("12x")));
}

#[test]
fn hex4_like_format() {
    for v in [0u16, 80, 3000, 8080, 0xabcd, 65535] {
        assert_eq!(hex4(v), t(&format!("{:04X}", v)));
    }
    assert_eq!(hex4(8080), t("1F90"));
}

#[test]
fn sort_dedup_orders_and_drops_repeats() {
    assert_eq!(sort_dedup(&vec![5, 3, 5, 1, 3]), vec![1, 3, 5]);
    assert_eq!(sort_dedup(&vec![]), Vec::<u32>::new());
    assert_eq!(sort_dedup(&vec![7]), vec![7]);
}
