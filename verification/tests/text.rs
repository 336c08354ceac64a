use upstate::order::{holds, sort};
use upstate::pattern::{decide, matches_command};
use upstate::text::{
    chars_of, contains, decimal_text, join, parse_number, space, split_lines, split_words,
    trim_bounds,
};

fn chars(s: &str) -> Vec<char> {
    s.chars().collect()
}

fn number(s: &str) -> Option<u32> {
    let text = chars(s);
    parse_number(&text, 0, text.len())
}

fn trimmed(s: &str) -> String {
    let text = chars(s);
    let (from, to) = trim_bounds(&text);
    text[from..to].iter().collect()
}

#[test]
fn chars_of_keeps_every_character() {
    assert_eq!(chars_of("a\u{e9}\u{2219}z"), vec!['a', '\u{e9}', '\u{2219}', 'z']);
    assert_eq!(chars_of(""), Vec::<char>::new());
}

#[test]
fn contains_finds_runs_anywhere() {
    assert!(contains(&chars("nginx: master"), &chars("nginx")));
    assert!(contains(&chars("nginx: master"), &chars("master")));
    assert!(contains(&chars("nginx: master"), &chars("x: m")));
    assert!(contains(&chars("abc"), &chars("abc")));
    assert!(contains(&chars("abc"), &chars("")));
    assert!(contains(&chars(""), &chars("")));
    assert!(!contains(&chars("abc"), &chars("abcd")));
    assert!(!contains(&chars("abc"), &chars("ac")));
    assert!(!contains(&chars("abc"), &chars("B")));
    assert!(!contains(&chars("aab"), &chars("aaa")));
    assert!(contains(&chars("aaab"), &chars("aab")));
}

#[test]
fn join_puts_one_space_between_words() {
    let words = vec!["a".to_string(), "".to_string(), "b c".to_string()];
    assert_eq!(join(&words), "a  b c");
    assert_eq!(join(&vec!["solo".to_string()]), "solo");
    assert_eq!(join(&vec![]), "");
}

#[test]
fn space_agrees_with_the_unicode_property() {
    for code in 0..0x11_0000u32 {
        if let Some(c) = char::from_u32(code) {
            assert_eq!(space(c), c.is_whitespace(), "U+{:04X}", code);
        }
    }
}

#[test]
fn trim_bounds_agree_with_trim() {
    for s in ["", " ", "a", " a", "a ", "  a b  ", "\t\r\n42\n", "\u{a0}x\u{3000}", "x\u{200b}"] {
        assert_eq!(trimmed(s), s.trim(), "{:?}", s);
    }
}

#[test]
fn parse_number_agrees_with_parse() {
    for s in [
        "", "0", "7", "42", "0042", "+42", "-42", "+", "-", "++1", "4 2", "42 ", " 42", "4294967295",
        "4294967296", "99999999999999999999", "1e3", "0x10", "\u{664}\u{662}", "12a",
    ] {
        assert_eq!(number(s), s.parse::<u32>().ok(), "{:?}", s);
    }
}

#[test]
fn parse_number_reads_a_slice() {
    let text = chars("pid=123;");
    assert_eq!(parse_number(&text, 4, 7), Some(123));
    assert_eq!(parse_number(&text, 4, 8), None);
    assert_eq!(parse_number(&text, 4, 4), None);
}

#[test]
fn split_words_agrees_with_split_whitespace() {
    for s in ["", "   ", "a", " a  b\tc\r\n", "web - nginx: master", "\u{3000}x\u{a0}y", "a\u{200b}b"] {
        let expected: Vec<String> = s.split_whitespace().map(|w| w.to_string()).collect();
        assert_eq!(split_words(s), expected, "{:?}", s);
    }
}

#[test]
fn split_lines_splits_at_line_feeds() {
    assert_eq!(split_lines(""), Vec::<String>::new());
    assert_eq!(split_lines("a"), vec!["a"]);
    assert_eq!(split_lines("a\n"), vec!["a"]);
    assert_eq!(split_lines("a\nb"), vec!["a", "b"]);
    assert_eq!(split_lines("\n"), vec![""]);
    assert_eq!(split_lines("a\n\nb\n"), vec!["a", "", "b"]);
    // A carriage return stays on its line, where it counts as white space.
    assert_eq!(split_lines("a\r\nb"), vec!["a\r", "b"]);
}

#[test]
fn decimal_text_agrees_with_to_string() {
    for n in [0u64, 1, 9, 10, 11, 99, 100, 101, 4294967295, 4294967296, u64::MAX] {
        assert_eq!(decimal_text(n), n.to_string());
    }
}

#[test]
fn sort_is_ascending_and_keeps_duplicates() {
    assert_eq!(sort(&vec![5, 1, 5, 3, 1]), vec![1, 1, 3, 5, 5]);
    assert_eq!(sort(&vec![]), Vec::<u32>::new());
    assert_eq!(sort(&vec![u32::MAX, 0]), vec![0, u32::MAX]);
}

#[test]
fn holds_tells_membership() {
    assert!(holds(&vec![3, 1, 2], 2));
    assert!(!holds(&vec![3, 1, 2], 4));
    assert!(!holds(&vec![], 0));
}

#[test]
fn decide_counts_either_search() {
    assert!(decide(true, None));
    assert!(decide(true, Some(false)));
    assert!(decide(false, Some(true)));
    assert!(!decide(false, Some(false)));
    assert!(!decide(false, None));
}

#[test]
fn matches_command_literal_or_regex() {
    assert!(matches_command("/usr/sbin/nginx -g daemon", "nginx"));
    assert!(matches_command("/usr/sbin/NGINX", "nginx"));
    assert!(matches_command("postgres: writer", "^postgres: (writer|checkpointer)$"));
    assert!(!matches_command("postgres: walwriter", "^postgres: (writer|checkpointer)$"));
    // A pattern that is no valid expression still matches literally.
    assert!(matches_command("run [job", "[job"));
    assert!(!matches_command("run [JOB", "[job"));
    // The literal search is case-sensitive, the expression is not.
    assert!(matches_command("a.b", "A.B"));
    assert!(matches_command("axb", "a.b"));
}
