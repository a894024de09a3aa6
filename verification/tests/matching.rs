use regrep::grep::{match_pattern, match_spans};
use regrep::lexer::lexer;
use regrep::quantifiers::{
    match_n_times, match_one_or_more, match_zero_or_more, match_zero_or_one,
};
use regrep::sequence::{match_alteration, match_sequence};
use regrep::token::{Quantifier, Token};
use regrep::utils::{any_char, digit, match_token, to_chars, word_characters};

fn chars(s: &str) -> Vec<char> {
    s.chars().collect()
}

fn at(text: &str, pattern: &str, pos: usize) -> Option<usize> {
    match_pattern(&chars(text), lexer(pattern).unwrap(), pos)
}

#[test]
fn characters_of_a_string() {
    assert_eq!(to_chars("a\u{e9}z"), vec!['a', '\u{e9}', 'z']);
    assert_eq!(to_chars(""), Vec::<char>::new());
}

#[test]
fn single_character_predicates() {
    assert!(digit(&'0') && digit(&'9') && !digit(&'a') && !digit(&'\u{663}'));
    assert!(word_characters(&'a') && word_characters(&'Z') && word_characters(&'5'));
    assert!(word_characters(&'_') && !word_characters(&'-') && !word_characters(&'\u{e9}'));
    assert!(any_char(&'x') && any_char(&' ') && !any_char(&'\n'));
}

#[test]
fn token_against_character() {
    assert!(match_token(&Token::Literal('a'), &'a'));
    assert!(!match_token(&Token::Literal('a'), &'b'));
    assert!(match_token(&Token::Digit, &'4'));
    assert!(match_token(&Token::Word, &'_'));
    assert!(match_token(&Token::AnyChar, &'#'));
    assert!(!match_token(&Token::AnyChar, &'\n'));
    assert!(!match_token(&Token::StartAnchor, &'a'));
    assert!(!match_token(&Token::Sequence(vec![Token::Literal('a')], false), &'a'));
    assert!(!match_token(&Token::Group(1), &'a'));
}

#[test]
fn match_gives_end_offset() {
    assert_eq!(at("abc", "abc", 0), Some(3));
    assert_eq!(at("abc", "bc", 1), Some(3));
    assert_eq!(at("abc", "bc", 0), None);
    assert_eq!(at("abc", "", 2), Some(2));
    assert_eq!(at("abc", "abcd", 0), None);
}

#[test]
fn match_past_the_end_of_the_text() {
    assert_eq!(at("abc", "", 7), Some(7));
    assert_eq!(at("abc", "a", 7), None);
    assert_eq!(at("abc", "a*", 7), Some(7));
    assert_eq!(at("abc", "$", 7), None);
}

#[test]
fn end_anchor_holds_at_the_end_only() {
    assert_eq!(at("abc", "c$", 2), Some(3));
    assert_eq!(at("abc", "b$", 1), None);
    assert_eq!(at("abc", "$", 3), Some(3));
    assert_eq!(at("abc", "c$c", 2), None);
    assert_eq!(at("abc", "c$$", 2), Some(3));
}

#[test]
fn start_anchor_inside_a_pattern_always_holds() {
    assert_eq!(at("ab", "a^b", 0), Some(2));
    assert_eq!(at("xab", "^ab", 1), Some(3));
}

#[test]
fn greedy_then_retreat() {
    assert_eq!(at("aaab", "a+b", 0), Some(4));
    assert_eq!(at("aaab", "a+a", 0), Some(3));
    assert_eq!(at("aaab", "a+ab", 0), Some(4));
    assert_eq!(at("aaa", "a*a", 0), Some(3));
    assert_eq!(at("aaa", "a*aaa", 0), Some(3));
    assert_eq!(at("aaa", "a*aaaa", 0), None);
    assert_eq!(at("b", "a+", 0), None);
    assert_eq!(at("b", "a*", 0), Some(0));
    assert_eq!(at("xyz", ".*", 0), Some(3));
    assert_eq!(at("x\nz", ".*", 0), Some(1));
}

#[test]
fn one_or_none() {
    assert_eq!(at("color", "colou?r", 0), Some(5));
    assert_eq!(at("colour", "colou?r", 0), Some(6));
    assert_eq!(at("colouur", "colou?r", 0), None);
    assert_eq!(at("aa", "a?a", 0), Some(2));
    assert_eq!(at("a", "a?a", 0), Some(1));
}

#[test]
fn counted_runs() {
    assert_eq!(at("aaaaa", "a{2}", 0), Some(2));
    assert_eq!(at("aaaaa", "a{2,3}", 0), Some(3));
    assert_eq!(at("aaaaa", "a{2,}", 0), Some(5));
    assert_eq!(at("a", "a{2,3}", 0), None);
    assert_eq!(at("aaa", "a{2,3}a", 0), Some(3));
    assert_eq!(at("aaa", "a{3}a", 0), None);
    assert_eq!(at("aaa", "a{0}", 0), Some(0));
    assert_eq!(at("", "a{0,}", 0), Some(0));
}

#[test]
fn groups_try_branches_in_order() {
    assert_eq!(at("cat", "(cat|dog)", 0), Some(3));
    assert_eq!(at("dog", "(cat|dog)", 0), Some(3));
    assert_eq!(at("cow", "(cat|dog)", 0), None);
    assert_eq!(at("ab", "(a|ab)", 0), Some(1));
    assert_eq!(at("abc", "(a|ab)c", 0), Some(3));
    assert_eq!(at("x", "(|x)", 0), Some(0));
    assert_eq!(at("xy", "(|x)y", 0), Some(2));
}

#[test]
fn repeated_groups() {
    assert_eq!(at("ababab", "(ab)+", 0), Some(6));
    assert_eq!(at("ababb", "(ab)+b", 0), Some(5));
    assert_eq!(at("abab", "(ab)*b", 0), None);
    assert_eq!(at("abab", "(ab)*b", 1), Some(2));
    assert_eq!(at("abcabd", "(ab(c|d))+", 0), Some(6));
    assert_eq!(at("aaa", "(a*)*", 0), Some(3));
    assert_eq!(at("b", "(a?)+", 0), None);
}

#[test]
fn back_references_repeat_the_captured_text() {
    assert_eq!(at("abab", "(ab)\\1", 0), Some(4));
    assert_eq!(at("abcd", "(ab)\\1", 0), None);
    assert_eq!(at("aa", "(a|b)\\1", 0), Some(2));
    assert_eq!(at("ab", "(a|b)\\1", 0), None);
    assert_eq!(at("abaab", "((a)b)\\2\\1", 0), Some(5));
    assert_eq!(at("abab", "((a)b)\\2\\1", 0), None);
    assert_eq!(at("ab-b", "(a)(b)-\\2", 0), Some(4));
    assert_eq!(at("ab-a", "(a)(b)-\\2", 0), None);
    assert_eq!(at("abb", "(a|b)+\\1", 0), Some(3));
    assert_eq!(at("aba", "(a|b)+\\1", 0), None);
    assert_eq!(at("", "()\\1", 0), Some(0));
}

#[test]
fn back_reference_without_a_capture_fails() {
    assert_eq!(match_pattern(&chars("aa"), vec![Token::Literal('a'), Token::Group(1)], 0), None);
    assert_eq!(at("bb", "(a)?b\\1", 0), None);
    assert_eq!(at("a", "(a\\1)", 0), None);
}

#[test]
fn class_at_an_offset() {
    let ab = || vec![Token::Literal('a'), Token::Literal('b')];
    assert_eq!(match_sequence(ab(), &chars("xb"), 1, false), Some(2));
    assert_eq!(match_sequence(ab(), &chars("xb"), 0, false), None);
    assert_eq!(match_sequence(ab(), &chars("xb"), 0, true), Some(1));
    assert_eq!(match_sequence(ab(), &chars("xb"), 1, true), None);
    assert_eq!(match_sequence(ab(), &chars("xb"), 2, false), None);
    assert_eq!(match_sequence(ab(), &chars("xb"), 2, true), None);
    assert_eq!(match_sequence(vec![], &chars("x"), 0, false), None);
    assert_eq!(match_sequence(vec![], &chars("x"), 0, true), Some(1));
    assert_eq!(match_sequence(vec![Token::Digit, Token::Word], &chars("_"), 0, false), Some(1));
}

#[test]
fn group_at_an_offset() {
    let branches = vec![
        vec![Token::Literal('c'), Token::Literal('a'), Token::Literal('t')],
        vec![Token::Literal('c')],
    ];
    assert_eq!(match_alteration(&branches, &chars("a cat"), 2), Some(5));
    assert_eq!(match_alteration(&branches, &chars("a cow"), 2), Some(3));
    assert_eq!(match_alteration(&branches, &chars("a cat"), 0), None);
    assert_eq!(match_alteration(&vec![], &chars("a"), 0), None);
    assert_eq!(match_alteration(&vec![vec![]], &chars("a"), 1), Some(1));
}

#[test]
fn one_or_more_at_an_offset() {
    let a = Token::Literal('a');
    let b = [Token::Literal('b')];
    let aa = [Token::Literal('a')];
    assert_eq!(match_one_or_more(&chars("aaab"), &a, 0, &b), Some(4));
    assert_eq!(match_one_or_more(&chars("aaab"), &a, 0, &aa), Some(3));
    assert_eq!(match_one_or_more(&chars("aaab"), &a, 0, &[]), Some(3));
    assert_eq!(match_one_or_more(&chars("aaab"), &a, 3, &[]), None);
    assert_eq!(match_one_or_more(&chars("ab"), &a, 0, &aa), None);
    let class = Token::Sequence(vec![Token::Literal('a'), Token::Literal('b')], false);
    assert_eq!(match_one_or_more(&chars("abba!"), &class, 0, &[]), Some(4));
}

#[test]
fn zero_or_more_at_an_offset() {
    let a = Token::Literal('a');
    let aa = [Token::Literal('a')];
    assert_eq!(match_zero_or_more(&chars("aaab"), &a, 0, &[]), Some(3));
    assert_eq!(match_zero_or_more(&chars("aaab"), &a, 0, &aa), Some(3));
    assert_eq!(match_zero_or_more(&chars("ab"), &a, 0, &aa), Some(1));
    assert_eq!(match_zero_or_more(&chars("b"), &a, 0, &[]), Some(0));
    assert_eq!(match_zero_or_more(&chars("b"), &a, 0, &aa), None);
    assert_eq!(match_zero_or_more(&chars("aa"), &a, 0, &[Token::EndAnchor]), Some(2));
}

#[test]
fn zero_or_one_at_an_offset() {
    let a = Token::Literal('a');
    let aa = [Token::Literal('a')];
    assert_eq!(match_zero_or_one(&chars("aab"), &a, 0, &[]), Some(1));
    assert_eq!(match_zero_or_one(&chars("aab"), &a, 0, &aa), Some(2));
    assert_eq!(match_zero_or_one(&chars("ab"), &a, 0, &aa), Some(1));
    assert_eq!(match_zero_or_one(&chars("b"), &a, 0, &[]), Some(0));
    assert_eq!(match_zero_or_one(&chars("b"), &a, 0, &aa), None);
    assert_eq!(match_zero_or_one(&chars(""), &a, 0, &[]), Some(0));
}

#[test]
fn n_times_at_an_offset() {
    let a = Token::Literal('a');
    let aa = [Token::Literal('a')];
    assert_eq!(match_n_times(&chars("aaaa"), &a, 0, &[], 2, Some(3)), Some(3));
    assert_eq!(match_n_times(&chars("aaaa"), &a, 0, &[], 2, None), Some(4));
    assert_eq!(match_n_times(&chars("aaaa"), &a, 0, &[], 2, Some(2)), Some(2));
    assert_eq!(match_n_times(&chars("a"), &a, 0, &[], 2, Some(3)), None);
    assert_eq!(match_n_times(&chars("aaa"), &a, 0, &aa, 2, Some(3)), Some(3));
    assert_eq!(match_n_times(&chars("aaa"), &a, 0, &aa, 3, Some(3)), None);
    assert_eq!(match_n_times(&chars("aaa"), &a, 0, &[], 3, Some(2)), None);
    assert_eq!(match_n_times(&chars("aaa"), &a, 0, &[], 0, Some(0)), Some(0));
}

#[test]
fn counted_forms_agree_with_the_symbols() {
    let a = Token::Literal('a');
    let rest = [Token::Literal('a'), Token::Literal('b')];
    for text in ["", "a", "ab", "aab", "aaab", "b", "aaaa"] {
        let t = chars(text);
        for pos in 0..=t.len() {
            assert_eq!(
                match_n_times(&t, &a, pos, &rest, 1, None),
                match_one_or_more(&t, &a, pos, &rest)
            );
            assert_eq!(
                match_n_times(&t, &a, pos, &rest, 0, None),
                match_zero_or_more(&t, &a, pos, &rest)
            );
            assert_eq!(
                match_n_times(&t, &a, pos, &rest, 0, Some(1)),
                match_zero_or_one(&t, &a, pos, &rest)
            );
        }
    }
}

#[test]
fn spans_of_a_scan() {
    let tokens = lexer("a+").unwrap();
    assert_eq!(match_spans(&chars("aa b aaa"), &tokens), vec![(0, 2), (5, 8)]);
    let star = lexer("a*").unwrap();
    assert_eq!(match_spans(&chars("ba"), &star), vec![(0, 0), (1, 2), (2, 2)]);
    assert_eq!(match_spans(&chars(""), &star), vec![(0, 0)]);
    assert_eq!(match_spans(&chars("abc"), &[]), vec![(0, 0), (1, 1), (2, 2), (3, 3)]);
}

#[test]
fn matches_and_gaps_make_up_the_text() {
    for (text, pattern) in [
        ("aa b aaa", "a+"),
        ("ba", "a*"),
        ("the cat and the dog", "(cat|dog|the)"),
        ("x1y22z333", "\\d{2,}"),
        ("", "a?"),
        ("abab", "(ab)\\1"),
    ] {
        let t = chars(text);
        let spans = match_spans(&t, &lexer(pattern).unwrap());
        let mut rebuilt: Vec<char> = Vec::new();
        let mut from = 0;
        let mut last_start = None;
        for &(start, end) in &spans {
            assert!(from <= start && start <= end && end <= t.len());
            assert!(last_start.map_or(true, |s| s < start));
            rebuilt.extend(&t[from..start]);
            rebuilt.extend(&t[start..end]);
            from = end;
            last_start = Some(start);
        }
        rebuilt.extend(&t[from..]);
        assert_eq!(rebuilt, t);
        assert!(spans.len() <= t.len() + 1);
    }
}

#[test]
fn quantifier_kinds_are_told_apart() {
    assert_ne!(Quantifier::OneOrMore, Quantifier::ZeroOrMore);
    assert_ne!(Quantifier::ZeroOrOne, Quantifier::ZeroOrMore);
}

#[test]
fn ninth_group_can_be_named() {
    assert_eq!(at("abcdefghii", "(a)(b)(c)(d)(e)(f)(g)(h)(i)\\9", 0), Some(10));
    assert_eq!(at("abcdefghia", "(a)(b)(c)(d)(e)(f)(g)(h)(i)\\9", 0), None);
}
