use regrep::grep::grep;

fn found(text: &str, pattern: &str) -> Vec<String> {
    grep(text, pattern).unwrap()
}

#[test]
fn anchor_pins_to_text_start() {
    assert_eq!(found("abc", "^a"), vec!["a".to_string()]);
    assert_eq!(found("bac", "^a"), Vec::<String>::new());
}

#[test]
fn one_or_more_gives_back_for_the_rest() {
    assert_eq!(found("aaab", "a+b"), vec!["aaab".to_string()]);
    assert_eq!(found("aaab", "a+a"), vec!["aaa".to_string()]);
}

#[test]
fn classes_accept_and_reject() {
    assert_eq!(found("cat", "[cb]at"), vec!["cat".to_string()]);
    assert_eq!(found("dog", "[^abc]og"), vec!["dog".to_string()]);
}

#[test]
fn group_takes_first_matching_branch() {
    assert_eq!(found("a cat", "(cat|dog)"), vec!["cat".to_string()]);
}

#[test]
fn counted_repetition() {
    assert_eq!(found("aaa", "a{2,3}"), vec!["aaa".to_string()]);
    assert_eq!(found("a", "a{2,3}"), Vec::<String>::new());
}

use regrep::lexer::CompileError;

#[test]
fn literal_pattern_finds_each_occurrence() {
    assert_eq!(found("hello world", "o"), vec!["o".to_string(), "o".to_string()]);
    assert_eq!(found("abcabc", "bc"), vec!["bc".to_string(), "bc".to_string()]);
    assert_eq!(found("abcabc", "cb"), Vec::<String>::new());
    assert_eq!(found("a|b)", "|b)"), vec!["|b)".to_string()]);
}

#[test]
fn matches_do_not_overlap() {
    assert_eq!(found("aaaa", "aa"), vec!["aa".to_string(), "aa".to_string()]);
    assert_eq!(found("aaaaa", "a{2}"), vec!["aa".to_string(), "aa".to_string()]);
    assert_eq!(found("ababa", "aba"), vec!["aba".to_string()]);
}

#[test]
fn empty_matches_move_the_scan_on() {
    assert_eq!(found("aaa", "a*"), vec!["aaa".to_string(), "".to_string()]);
    assert_eq!(found("ab", "b*"), vec!["".to_string(), "b".to_string(), "".to_string()]);
    assert_eq!(found("abc", ""), vec!["".to_string(); 4]);
    assert_eq!(found("", ""), vec!["".to_string()]);
    assert_eq!(found("", "a"), Vec::<String>::new());
    assert_eq!(found("ab", "$"), vec!["".to_string()]);
}

#[test]
fn anchored_pattern_matches_once_at_most() {
    assert_eq!(found("aaa", "^a"), vec!["a".to_string()]);
    assert_eq!(found("a\na", "^a"), vec!["a".to_string()]);
    assert_eq!(found("abc", "^"), vec!["".to_string()]);
    assert_eq!(found("abc", "^abc$"), vec!["abc".to_string()]);
    assert_eq!(found("abcd", "^abc$"), Vec::<String>::new());
}

#[test]
fn digits_words_and_any() {
    assert_eq!(found("a1b22", "\\d+"), vec!["1".to_string(), "22".to_string()]);
    assert_eq!(found("foo_bar baz", "\\w+"), vec!["foo_bar".to_string(), "baz".to_string()]);
    assert_eq!(found("axb a\nb", "a.b"), vec!["axb".to_string()]);
    assert_eq!(found("a.b axb", "a\\.b"), vec!["a.b".to_string()]);
    assert_eq!(found("\u{663}3", "\\d"), vec!["3".to_string()]);
}

#[test]
fn text_beyond_ascii() {
    assert_eq!(found("na\u{ef}ve caf\u{e9}", "[\u{e9}\u{ef}]"), vec!["\u{ef}".to_string(), "\u{e9}".to_string()]);
    assert_eq!(found("\u{1f600}a\u{1f600}", "a"), vec!["a".to_string()]);
    assert_eq!(found("\u{1f600}a", "."), vec!["\u{1f600}".to_string(), "a".to_string()]);
}

#[test]
fn back_references_in_a_scan() {
    assert_eq!(found("aa bb ab", "(a|b)\\1"), vec!["aa".to_string(), "bb".to_string()]);
    assert_eq!(found("abcabc abcab", "(abc)\\1"), vec!["abcabc".to_string()]);
}

#[test]
fn pattern_that_does_not_compile_scans_nothing() {
    assert_eq!(grep("aaa", "+"), Err(CompileError::DanglingQuantifier));
    assert_eq!(grep("aaa", "[a"), Err(CompileError::UnterminatedClass));
    assert_eq!(grep("aaa", "(a"), Err(CompileError::UnterminatedGroup));
    assert_eq!(grep("aaa", "a{2,1}"), Err(CompileError::InvalidRange));
    assert_eq!(grep("aaa", "a\\1"), Err(CompileError::DanglingBackreference));
}
