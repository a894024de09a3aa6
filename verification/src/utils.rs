//! Single-character predicates, and the text of a string as characters.

use crate::token::{Token, TokenView};
use vstd::prelude::*;

verus! {

/// `c` is an ASCII decimal digit.
pub open spec fn is_digit(c: char) -> bool {
    '0' <= c <= '9'
}

/// `c` is an ASCII letter, an ASCII digit or an underscore.
pub open spec fn is_word(c: char) -> bool {
    ('a' <= c <= 'z') || ('A' <= c <= 'Z') || ('0' <= c <= '9') || c == '_'
}

/// `c` is anything but a line feed.
pub open spec fn is_any(c: char) -> bool {
    c != '\n'
}

/// Whether the one-character token `t` accepts `c`. Tokens that do not stand
/// for a single character accept nothing.
pub open spec fn char_matches(t: TokenView, c: char) -> bool {
    match t {
        TokenView::Literal(l) => c == l,
        TokenView::Digit => is_digit(c),
        TokenView::Word => is_word(c),
        TokenView::AnyChar => is_any(c),
        _ => false,
    }
}

/// Whether some member of a class accepts `c`.
pub open spec fn some_member_matches(members: Seq<TokenView>, c: char) -> bool {
    exists|i: int| 0 <= i < members.len() && char_matches(#[trigger] members[i], c)
}

/// Whether the class made of `members` accepts `c`: some member does, or,
/// when the class is negated, none does.
pub open spec fn class_matches(members: Seq<TokenView>, negate: bool, c: char) -> bool {
    some_member_matches(members, c) != negate
}

/// An offset, or none, as a mathematical integer.
pub open spec fn as_int(r: Option<usize>) -> Option<int> {
    match r {
        Some(x) => Some(x as int),
        None => None,
    }
}

/// Tests whether `c` is anything but a line feed.
pub fn any_char(c: &char) -> (r: bool)
    ensures
        r == is_any(*c),
{
    *c != '\n'
}

/// Tests whether `c` is an ASCII decimal digit.
pub fn digit(c: &char) -> (r: bool)
    ensures
        r == is_digit(*c),
{
    '0' <= *c && *c <= '9'
}

/// Tests whether `c` is an ASCII letter, an ASCII digit or an underscore.
pub fn word_characters(c: &char) -> (r: bool)
    ensures
        r == is_word(*c),
{
    ('a' <= *c && *c <= 'z') || ('A' <= *c && *c <= 'Z') || ('0' <= *c && *c <= '9') || *c == '_'
}

/// Tests a single character against a one-character token.
pub fn match_token(token: &Token, c: &char) -> (r: bool)
    ensures
        r == char_matches(token@, *c),
{
    match token {
        Token::Digit => digit(c),
        Token::Word => word_characters(c),
        Token::AnyChar => any_char(c),
        Token::Literal(s) => *c == *s,
        _ => false,
    }
}

/// The characters of `s`, in order.
pub fn to_chars(s: &str) -> (r: Vec<char>)
    ensures
        r@ == s@,
{
    let mut v: Vec<char> = Vec::new();
    for c in it: s.chars()
        invariant
            it.seq() == s@,
            v@ == it.seq().take(it.index() as int),
    {
        v.push(c);
        assert(it.seq().take(it.index() + 1) =~= it.seq().take(it.index() as int).push(c));
    }
    assert(s@.take(s@.len() as int) =~= s@);
    v
}

} // verus!
