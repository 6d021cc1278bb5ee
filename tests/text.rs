use geil::discovery::is_at_or_below;
use geil::ssh_key::agent_holds_key;
use geil::text::{chars_of, contains, first_line, has_line, parse_usize, str_equal, trim};

fn chars(s: &str) -> Vec<char> {
    s.chars().collect()
}

#[test]
fn contains_finds_inner_text() {
    assert!(contains("abc nothing to commit, working tree clean\n", "working tree clean"));
    assert!(!contains("abc", "abcd"));
    assert!(contains("abc", ""));
    assert!(!contains("", "a"));
}

#[test]
fn first_line_strips_carriage_return() {
    assert_eq!(first_line(&chars("3\r\nrest")), Some(chars("3")));
    assert_eq!(first_line(&chars("12\nmore\n")), Some(chars("12")));
    assert_eq!(first_line(&chars("single")), Some(chars("single")));
    assert_eq!(first_line(&chars("\nsecond")), Some(chars("")));
    assert_eq!(first_line(&chars("")), None);
}

#[test]
fn trim_removes_unicode_white_space() {
    assert_eq!(trim(&chars("  42\t\n")), chars("42"));
    assert_eq!(trim(&chars("\u{a0}x y\u{3000}")), chars("x y"));
    assert_eq!(trim(&chars(" \t ")), chars(""));
}

#[test]
fn parse_usize_follows_std() {
    for s in ["0", "3", "+7", "0042", "18446744073709551615", "", "+", "-1", "1 2", "18446744073709551616", "x"] {
        assert_eq!(parse_usize(&chars(s)), s.parse::<usize>().ok(), "input {s:?}");
    }
}

#[test]
fn str_equal_and_chars_of() {
    assert!(str_equal("HEAD", "HEAD"));
    assert!(!str_equal("HEAD", "HEAD "));
    assert_eq!(chars_of("héllo"), chars("héllo"));
}

#[test]
fn has_line_follows_std_lines() {
    let texts = ["", "a", "a\n", "a\r\nb", "\n", "x\n\ny\r", "k1\nk2\n"];
    let lines = ["", "a", "b", "y\r", "y", "k2", "k"];
    for t in texts {
        for l in lines {
            assert_eq!(has_line(&chars(t), &chars(l)), t.lines().any(|x| x == l), "{t:?} {l:?}");
        }
    }
}

#[test]
fn agent_listing_holds_trimmed_key() {
    let listing = "ssh-ed25519 AAAA user@a\nssh-rsa BBBB user@b\n";
    assert!(agent_holds_key(listing, "ssh-rsa BBBB user@b\n"));
    assert!(!agent_holds_key(listing, "ssh-rsa CCCC user@c\n"));
    assert!(!agent_holds_key("", "ssh-rsa BBBB"));
}

#[test]
fn path_below_by_whole_components() {
    assert!(is_at_or_below("/a", "/a"));
    assert!(is_at_or_below("/a/b/c", "/a"));
    assert!(is_at_or_below("/a/b", "/"));
    assert!(!is_at_or_below("/ab", "/a"));
    assert!(!is_at_or_below("/a", "/a/b"));
}
