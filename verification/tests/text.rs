use chronicle::path::{path_components, path_eq, path_push};
use chronicle::text::{lines, parse_u64, split_whitespace, trim, u64_to_decimal};

fn chars(s: &str) -> Vec<char> {
    s.chars().collect()
}

fn words(v: Vec<Vec<char>>) -> Vec<String> {
    v.into_iter().map(|w| w.into_iter().collect()).collect()
}

#[test]
fn decimal_rendering() {
    assert_eq!(u64_to_decimal(0), chars("0"));
    assert_eq!(u64_to_decimal(10), chars("10"));
    assert_eq!(u64_to_decimal(u64::MAX), chars("18446744073709551615"));
}

#[test]
fn decimal_parsing() {
    assert_eq!(parse_u64(&chars("0")), Some(0));
    assert_eq!(parse_u64(&chars("007")), Some(7));
    assert_eq!(parse_u64(&chars("+7")), Some(7));
    assert_eq!(parse_u64(&chars("+")), None);
    assert_eq!(parse_u64(&chars("")), None);
    assert_eq!(parse_u64(&chars("-0")), None);
    assert_eq!(parse_u64(&chars("1a")), None);
    assert_eq!(parse_u64(&chars("٣")), None);
    assert_eq!(parse_u64(&chars("18446744073709551615")), Some(u64::MAX));
    assert_eq!(parse_u64(&chars("18446744073709551616")), None);
    assert_eq!(parse_u64(&chars("99999999999999999999x")), None);
    for s in ["0", "+0", "12", "+18446744073709551615", "1x", "", "+", "99999999999999999999"] {
        assert_eq!(parse_u64(&chars(s)), s.parse::<u64>().ok(), "{}", s);
    }
}

#[test]
fn whitespace_split() {
    let s = "  a bc\t\u{3000}d\u{85}\n ";
    assert_eq!(words(split_whitespace(&chars(s))), vec!["a", "bc", "d"]);
    let expected: Vec<&str> = s.split_whitespace().collect();
    assert_eq!(words(split_whitespace(&chars(s))), expected);
    assert!(split_whitespace(&chars("   ")).is_empty());
}

#[test]
fn trimming() {
    assert_eq!(trim(&chars("  a b \u{2003}")), chars("a b"));
    assert_eq!(trim(&chars(" \t ")), chars(""));
    assert_eq!(trim(&chars("x")), chars("x"));
}

#[test]
fn line_splitting() {
    for s in ["a\nb\n", "a\n\nb", "", "\n", "a\r\nb", "a\r", "a\rb\r\n\r\n", "x"] {
        let expected: Vec<&str> = s.lines().collect();
        assert_eq!(words(lines(&chars(s))), expected, "{:?}", s);
    }
}

#[test]
fn components_of_paths() {
    assert_eq!(words(path_components(&chars("a//b/./c/"))), vec!["a", "b", "c"]);
    assert_eq!(words(path_components(&chars("/a/../b"))), vec!["/", "a", "..", "b"]);
    assert_eq!(words(path_components(&chars("./a"))), vec![".", "a"]);
    assert_eq!(words(path_components(&chars("."))), vec!["."]);
    assert_eq!(words(path_components(&chars(".a/b"))), vec![".a", "b"]);
    assert!(path_components(&chars("")).is_empty());
}

#[test]
fn path_equality() {
    assert!(path_eq("a//b", "a/b"));
    assert!(path_eq("a/./b/", "a/b"));
    assert!(!path_eq("./a", "a"));
    assert!(!path_eq("/a", "a"));
    assert!(!path_eq("a/b", "a/c"));
    assert!(path_eq("", ""));
}

#[test]
fn path_pushing() {
    assert_eq!(path_push("a", "b"), "a/b");
    assert_eq!(path_push("a/", "b"), "a/b");
    assert_eq!(path_push("", "b"), "b");
    assert_eq!(path_push("a", "/b"), "/b");
    assert_eq!(path_push("a", ""), "a/");
}
