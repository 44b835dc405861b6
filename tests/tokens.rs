use scanner::words::{is_whitespace, is_whitespace_code};
use scanner::{Scanner, UnsafeScanner};
use std::io::BufRead;

fn safe_tokens(input: &str, count: usize) -> Vec<String> {
    let mut reader = std::io::Cursor::new(input);
    let mut scan = Scanner::new();
    let mut out = Vec::new();
    while out.len() < count {
        match scan.token() {
            Some(t) => out.push(t),
            None => {
                let mut line = String::new();
                let n = reader.read_line(&mut line).unwrap();
                assert!(n > 0, "input ran out");
                scan.refill(&line);
            }
        }
    }
    out
}

fn fast_tokens(input: &str, count: usize) -> Vec<String> {
    let mut reader = std::io::Cursor::new(input);
    let mut scan = UnsafeScanner::new();
    let mut out = Vec::new();
    while out.len() < count {
        let next = scan.token().map(|t| std::str::from_utf8(t).unwrap().to_string());
        match next {
            Some(t) => out.push(t),
            None => {
                let mut line = String::new();
                let n = reader.read_line(&mut line).unwrap();
                assert!(n > 0, "input ran out");
                scan.refill(&line);
            }
        }
    }
    out
}

#[test]
fn test_in_memory_io() {
    let toks = safe_tokens("50 8", 2);
    let x = toks[0].parse::<i32>().unwrap();
    let y = toks[1].parse::<i32>().unwrap();
    let out = format!("Test {}\n", x - y);
    assert_eq!(out, "Test 42\n");
}

#[test]
fn test_in_memory_unsafe() {
    let toks = fast_tokens("50 8", 2);
    let x = toks[0].parse::<i32>().unwrap();
    let y = toks[1].parse::<i32>().unwrap();
    let out = format!("Test {}\n", x - y);
    assert_eq!(out, "Test 42\n");
}

#[test]
fn tokens_cross_line_boundary() {
    let safe = safe_tokens("3\n4", 2);
    let fast = fast_tokens("3\n4", 2);
    assert_eq!(safe, vec!["3", "4"]);
    assert_eq!(fast, vec!["3", "4"]);
    assert_eq!(safe[0].parse::<i32>().unwrap(), 3);
    assert_eq!(safe[1].parse::<i32>().unwrap(), 4);
}

#[test]
fn token_of_wrong_type_fails_to_parse() {
    let safe = safe_tokens("abc", 1);
    let fast = fast_tokens("abc", 1);
    assert_eq!(safe, vec!["abc"]);
    assert_eq!(fast, vec!["abc"]);
    assert!(safe[0].parse::<i32>().is_err());
    assert!(fast[0].parse::<i64>().is_err());
}

#[test]
fn both_variants_split_alike() {
    let input = "  10\t-20  x\r\n\n   \n7 8 9\n  last";
    let expected = vec!["10", "-20", "x", "7", "8", "9", "last"];
    assert_eq!(safe_tokens(input, 7), expected);
    assert_eq!(fast_tokens(input, 7), expected);
}

#[test]
fn blank_lines_give_no_tokens() {
    let mut scan = Scanner::new();
    scan.refill("   \t  \r\n");
    assert_eq!(scan.token(), None);
    scan.refill("");
    assert_eq!(scan.token(), None);
    let mut fast = UnsafeScanner::new();
    fast.refill(" \t \x0c \u{b} \u{a0}\r\n");
    assert!(fast.token().is_none());
    fast.refill("");
    assert!(fast.token().is_none());
    assert_eq!(safe_tokens("\n\n  \n\t\n5", 1), vec!["5"]);
    assert_eq!(fast_tokens("\n\n  \n\t\n5", 1), vec!["5"]);
}

#[test]
fn one_line_yields_all_tokens_before_a_refill() {
    let mut scan = Scanner::new();
    assert_eq!(scan.token(), None);
    scan.refill("a  bb   ccc\n");
    assert_eq!(scan.token().as_deref(), Some("a"));
    assert_eq!(scan.token().as_deref(), Some("bb"));
    assert_eq!(scan.token().as_deref(), Some("ccc"));
    assert_eq!(scan.token(), None);
    assert_eq!(scan.token(), None);

    let mut fast = UnsafeScanner::new();
    assert!(fast.token().is_none());
    fast.refill("a  bb   ccc\n");
    assert_eq!(fast.token(), Some(&b"a"[..]));
    assert_eq!(fast.token(), Some(&b"bb"[..]));
    assert_eq!(fast.token(), Some(&b"ccc"[..]));
    assert!(fast.token().is_none());
    assert!(fast.token().is_none());
}

#[test]
fn refill_after_all_tokens_are_handed_out() {
    let mut scan = Scanner::new();
    scan.refill("1 2");
    assert_eq!(scan.token().as_deref(), Some("1"));
    assert_eq!(scan.token().as_deref(), Some("2"));
    assert_eq!(scan.token(), None);
    scan.refill("9");
    assert_eq!(scan.token().as_deref(), Some("9"));
    assert_eq!(scan.token(), None);

    let mut fast = UnsafeScanner::new();
    fast.refill("1 2");
    assert_eq!(fast.token(), Some(&b"1"[..]));
    assert_eq!(fast.token(), Some(&b"2"[..]));
    assert!(fast.token().is_none());
    fast.refill("9");
    assert_eq!(fast.token(), Some(&b"9"[..]));
    assert!(fast.token().is_none());
}

#[test]
fn unicode_whitespace_splits_both_variants() {
    let text = "x\u{a0}y\u{3000}z\u{b}w\u{85}v\u{2009}u\u{1680}t";
    let expected = vec!["x", "y", "z", "w", "v", "u", "t"];
    assert_eq!(safe_tokens(text, 7), expected);
    assert_eq!(fast_tokens(text, 7), expected);
    let mut fast = UnsafeScanner::new();
    fast.refill("a\u{b}b");
    assert_eq!(fast.token(), Some(&b"a"[..]));
    assert_eq!(fast.token(), Some(&b"b"[..]));
    assert!(fast.token().is_none());
}

#[test]
fn both_variants_agree_on_mixed_text() {
    let text = "  één\u{2028}два\t三 🦀🦀 \u{202f}\n\u{205f}end\u{2000}";
    let expected = vec!["één", "два", "三", "🦀🦀", "end"];
    assert_eq!(safe_tokens(text, 5), expected);
    assert_eq!(fast_tokens(text, 5), expected);
}

#[test]
fn non_ascii_tokens_keep_their_text() {
    let mut scan = Scanner::new();
    scan.refill("héllo wörld");
    assert_eq!(scan.token().as_deref(), Some("héllo"));
    assert_eq!(scan.token().as_deref(), Some("wörld"));
    let mut fast = UnsafeScanner::new();
    fast.refill("héllo wörld");
    assert_eq!(fast.token(), Some("héllo".as_bytes()));
    assert_eq!(fast.token(), Some("wörld".as_bytes()));
}

#[test]
fn whitespace_predicates_match_std() {
    for u in 0u32..0x3100 {
        if let Some(c) = char::from_u32(u) {
            assert_eq!(is_whitespace(c), c.is_whitespace(), "char {:#x}", u);
        }
    }
    for u in 0u32..0x11000 {
        if let Some(c) = char::from_u32(u) {
            assert_eq!(is_whitespace_code(u), c.is_whitespace(), "code point {:#x}", u);
        }
    }
}
