use regrep::lexer::{
    digit_of, get_alternator_token, get_n_times_match_token, get_sequence_token, lexer,
    CompileError,
};
use regrep::token::{copy_token, NMatch, Quantifier, Token};

fn chars(s: &str) -> Vec<char> {
    s.chars().collect()
}

fn lit(c: char) -> Token {
    Token::Literal(c)
}

fn quantified(atom: Token, kind: Quantifier) -> Token {
    Token::Quantified { atom: Box::new(atom), kind }
}

#[test]
fn plain_characters_become_literals() {
    assert_eq!(lexer("abc"), Ok(vec![lit('a'), lit('b'), lit('c')]));
    assert_eq!(lexer(""), Ok(vec![]));
}

#[test]
fn anchors_and_any_char() {
    assert_eq!(lexer("^$."), Ok(vec![Token::StartAnchor, Token::EndAnchor, Token::AnyChar]));
}

#[test]
fn escapes() {
    assert_eq!(lexer("\\w\\d\\x\\."), Ok(vec![Token::Word, Token::Digit, lit('x'), lit('.')]));
    assert_eq!(lexer("a\\"), Ok(vec![lit('a'), lit('\\')]));
    assert_eq!(lexer("\\\\"), Ok(vec![lit('\\')]));
}

#[test]
fn symbols_wrap_the_token_before_them() {
    assert_eq!(
        lexer("a+b"),
        Ok(vec![quantified(lit('a'), Quantifier::OneOrMore), lit('b')])
    );
    assert_eq!(lexer("a?"), Ok(vec![quantified(lit('a'), Quantifier::ZeroOrOne)]));
    assert_eq!(lexer(".*"), Ok(vec![quantified(Token::AnyChar, Quantifier::ZeroOrMore)]));
    assert_eq!(
        lexer("a+?"),
        Ok(vec![quantified(quantified(lit('a'), Quantifier::OneOrMore), Quantifier::ZeroOrOne)])
    );
}

#[test]
fn counted_repetitions() {
    let range = |min, max| Quantifier::Range(NMatch { min, max });
    assert_eq!(lexer("a{2,3}"), Ok(vec![quantified(lit('a'), range(2, Some(3)))]));
    assert_eq!(lexer("a{2}"), Ok(vec![quantified(lit('a'), range(2, Some(2)))]));
    assert_eq!(lexer("a{2,}"), Ok(vec![quantified(lit('a'), range(2, None))]));
    assert_eq!(lexer("a{12}b"), Ok(vec![quantified(lit('a'), range(12, Some(12))), lit('b')]));
    assert_eq!(lexer("a{0,255}"), Ok(vec![quantified(lit('a'), range(0, Some(255)))]));
}

#[test]
fn classes() {
    assert_eq!(lexer("[ab]"), Ok(vec![Token::Sequence(vec![lit('a'), lit('b')], false)]));
    assert_eq!(lexer("[^ab]"), Ok(vec![Token::Sequence(vec![lit('a'), lit('b')], true)]));
    assert_eq!(lexer("[a^]"), Ok(vec![Token::Sequence(vec![lit('a'), lit('^')], false)]));
    assert_eq!(lexer("[]"), Ok(vec![Token::Sequence(vec![], false)]));
    assert_eq!(lexer("[^]"), Ok(vec![Token::Sequence(vec![], true)]));
    assert_eq!(lexer("[a.\\]"), Ok(vec![Token::Sequence(vec![lit('a'), lit('.'), lit('\\')], false)]));
}

#[test]
fn groups() {
    assert_eq!(
        lexer("(a|bc)"),
        Ok(vec![Token::Alternation(vec![vec![lit('a')], vec![lit('b'), lit('c')]])])
    );
    assert_eq!(lexer("(a|)"), Ok(vec![Token::Alternation(vec![vec![lit('a')], vec![]])]));
    assert_eq!(lexer("()"), Ok(vec![Token::Alternation(vec![vec![]])]));
    assert_eq!(
        lexer("((a)b)"),
        Ok(vec![Token::Alternation(vec![vec![
            Token::Alternation(vec![vec![lit('a')]]),
            lit('b'),
        ]])])
    );
    assert_eq!(
        lexer("(a+|\\d)"),
        Ok(vec![Token::Alternation(vec![
            vec![quantified(lit('a'), Quantifier::OneOrMore)],
            vec![Token::Digit],
        ])])
    );
}

#[test]
fn group_delimiters_are_literals_outside_groups() {
    assert_eq!(lexer("a|b)"), Ok(vec![lit('a'), lit('|'), lit('b'), lit(')')]));
    assert_eq!(lexer("]}"), Ok(vec![lit(']'), lit('}')]));
}

#[test]
fn back_references() {
    assert_eq!(
        lexer("(a)\\1"),
        Ok(vec![Token::Alternation(vec![vec![lit('a')]]), Token::Group(1)])
    );
    assert_eq!(
        lexer("((a)\\2)"),
        Ok(vec![Token::Alternation(vec![vec![
            Token::Alternation(vec![vec![lit('a')]]),
            Token::Group(2),
        ]])])
    );
}

#[test]
fn dangling_quantifier() {
    assert_eq!(lexer("+a"), Err(CompileError::DanglingQuantifier));
    assert_eq!(lexer("?"), Err(CompileError::DanglingQuantifier));
    assert_eq!(lexer("*"), Err(CompileError::DanglingQuantifier));
    assert_eq!(lexer("{2}"), Err(CompileError::DanglingQuantifier));
    assert_eq!(lexer("{x"), Err(CompileError::DanglingQuantifier));
    assert_eq!(lexer("(a|+b)"), Err(CompileError::DanglingQuantifier));
}

#[test]
fn unterminated_class() {
    assert_eq!(lexer("[abc"), Err(CompileError::UnterminatedClass));
    assert_eq!(lexer("a["), Err(CompileError::UnterminatedClass));
}

#[test]
fn unterminated_group() {
    assert_eq!(lexer("(ab"), Err(CompileError::UnterminatedGroup));
    assert_eq!(lexer("(a|b"), Err(CompileError::UnterminatedGroup));
    assert_eq!(lexer("((a)"), Err(CompileError::UnterminatedGroup));
}

#[test]
fn invalid_range() {
    assert_eq!(lexer("a{3,2}"), Err(CompileError::InvalidRange));
    assert_eq!(lexer("a{x}"), Err(CompileError::InvalidRange));
    assert_eq!(lexer("a{}"), Err(CompileError::InvalidRange));
    assert_eq!(lexer("a{,3}"), Err(CompileError::InvalidRange));
    assert_eq!(lexer("a{2"), Err(CompileError::InvalidRange));
    assert_eq!(lexer("a{2,3"), Err(CompileError::InvalidRange));
    assert_eq!(lexer("a{2,x}"), Err(CompileError::InvalidRange));
    assert_eq!(lexer("a{256}"), Err(CompileError::InvalidRange));
    assert_eq!(lexer("a{1,99999999999999999999999}"), Err(CompileError::InvalidRange));
}

#[test]
fn dangling_back_reference() {
    assert_eq!(lexer("\\1"), Err(CompileError::DanglingBackreference));
    assert_eq!(lexer("(a)\\2"), Err(CompileError::DanglingBackreference));
    assert_eq!(lexer("(a)\\0"), Err(CompileError::DanglingBackreference));
}

#[test]
fn first_error_from_the_left_wins() {
    assert_eq!(lexer("+[a"), Err(CompileError::DanglingQuantifier));
    assert_eq!(lexer("[a]{3,2}(b"), Err(CompileError::InvalidRange));
    assert_eq!(lexer("(a[b"), Err(CompileError::UnterminatedClass));
}

#[test]
fn recompiling_gives_the_same_tree() {
    for pattern in ["a+(b|c\\d)*[^x-z]{2,}$", "^\\w+@\\w+\\.com$", "((a)|b)\\2?"] {
        assert_eq!(lexer(pattern), lexer(pattern));
    }
}

#[test]
fn class_lexed_on_its_own() {
    let p = chars("ab]c");
    assert_eq!(
        get_sequence_token(&p, 0),
        Ok((Token::Sequence(vec![lit('a'), lit('b')], false), 3))
    );
    let q = chars("^a]");
    assert_eq!(get_sequence_token(&q, 0), Ok((Token::Sequence(vec![lit('a')], true), 3)));
    assert_eq!(get_sequence_token(&q, 3), Err(CompileError::UnterminatedClass));
}

#[test]
fn group_lexed_on_its_own() {
    let p = chars("a|b)c");
    assert_eq!(
        get_alternator_token(&p, 0, 1),
        Ok((Token::Alternation(vec![vec![lit('a')], vec![lit('b')]]), 4, 1))
    );
    let q = chars("x(y))");
    assert_eq!(
        get_alternator_token(&q, 0, 0),
        Ok((Token::Alternation(vec![vec![lit('x'), Token::Alternation(vec![vec![lit('y')]])]]), 5, 1))
    );
    assert_eq!(get_alternator_token(&p, 4, 1), Err(CompileError::UnterminatedGroup));
}

#[test]
fn range_lexed_on_its_own() {
    let p = chars("2,3}x");
    let mut tokens = vec![lit('z'), lit('a')];
    assert_eq!(
        get_n_times_match_token(&p, 0, &mut tokens),
        Ok((quantified(lit('a'), Quantifier::Range(NMatch { min: 2, max: Some(3) })), 4))
    );
    assert_eq!(tokens, vec![lit('z')]);

    let mut none: Vec<Token> = vec![];
    assert_eq!(get_n_times_match_token(&p, 0, &mut none), Err(CompileError::DanglingQuantifier));

    let bad = chars("3,2}");
    let mut kept = vec![lit('a')];
    assert_eq!(get_n_times_match_token(&bad, 0, &mut kept), Err(CompileError::InvalidRange));
    assert_eq!(kept, vec![lit('a')]);
}

#[test]
fn digit_values() {
    assert_eq!(digit_of('0'), Some(0));
    assert_eq!(digit_of('7'), Some(7));
    assert_eq!(digit_of('9'), Some(9));
    assert_eq!(digit_of('a'), None);
    assert_eq!(digit_of('\u{663}'), None);
}

#[test]
fn bounds_are_checked_when_built() {
    assert_eq!(NMatch::new(2, Some(3)), Some(NMatch { min: 2, max: Some(3) }));
    assert_eq!(NMatch::new(2, None), Some(NMatch { min: 2, max: None }));
    assert_eq!(NMatch::new(3, Some(3)), Some(NMatch { min: 3, max: Some(3) }));
    assert_eq!(NMatch::new(3, Some(2)), None);
}

#[test]
fn quantifier_limits() {
    assert_eq!(Quantifier::OneOrMore.lower(), 1);
    assert_eq!(Quantifier::OneOrMore.upper(), None);
    assert_eq!(Quantifier::ZeroOrOne.lower(), 0);
    assert_eq!(Quantifier::ZeroOrOne.upper(), Some(1));
    assert_eq!(Quantifier::ZeroOrMore.lower(), 0);
    assert_eq!(Quantifier::ZeroOrMore.upper(), None);
    let r = Quantifier::Range(NMatch { min: 2, max: Some(5) });
    assert_eq!(r.lower(), 2);
    assert_eq!(r.upper(), Some(5));
}

#[test]
fn copies_are_equal_trees() {
    let tree = lexer("a+(b|c\\d)*[^xz]{2,}$\\1").unwrap();
    for t in &tree {
        assert_eq!(&copy_token(t), t);
        assert_eq!(&t.clone(), t);
    }
}

#[test]
fn lexing_past_the_end_of_the_pattern() {
    let p = chars("ab]");
    assert_eq!(get_sequence_token(&p, 99), Err(CompileError::UnterminatedClass));
    assert_eq!(get_alternator_token(&p, 99, 0), Err(CompileError::UnterminatedGroup));
    let mut tokens = vec![lit('a')];
    assert_eq!(get_n_times_match_token(&p, 99, &mut tokens), Err(CompileError::InvalidRange));
    assert_eq!(tokens, vec![lit('a')]);
}

#[test]
fn back_reference_after_many_groups() {
    let pattern = "(a)(b)(c)(d)(e)(f)(g)(h)(i)(j)(k)\\9\\1";
    let tokens = lexer(pattern).unwrap();
    assert_eq!(tokens.len(), 13);
    assert_eq!(tokens[11], Token::Group(9));
    assert_eq!(tokens[12], Token::Group(1));
    assert_eq!(lexer("(a)(b)(c)(d)(e)(f)(g)(h)\\9"), Err(CompileError::DanglingBackreference));
}

#[test]
fn group_count_carries_into_nested_groups() {
    let p = chars("a\\3)");
    assert_eq!(get_alternator_token(&p, 0, 2), Err(CompileError::DanglingBackreference));
    assert_eq!(
        get_alternator_token(&p, 0, 3),
        Ok((Token::Alternation(vec![vec![lit('a'), Token::Group(3)]]), 4, 3))
    );
    let q = chars("(x)\\3)");
    assert_eq!(
        get_alternator_token(&q, 0, 2),
        Ok((
            Token::Alternation(vec![vec![Token::Alternation(vec![vec![lit('x')]]), Token::Group(3)]]),
            6,
            3
        ))
    );
}
