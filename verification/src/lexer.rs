//! The pattern compiler: one pass over the characters of a pattern, from
//! left to right, that builds the token tree.
//!
//! The grammar is stated by the spec functions `compiled`, `lexed_seq`,
//! `lexed_token`, `lexed_group`, `class_at` and `range_at`; the executable
//! functions compute exactly those.

use crate::token::{
    branch_views, lemma_branch_views_push, lemma_views_drop_last, lemma_views_push, literal, views,
    NMatch, Quantifier, Token, TokenView,
};
use crate::utils::{is_digit, to_chars};
use vstd::prelude::*;

verus! {

/// Why a pattern does not compile.
#[derive(Clone, Copy, Debug, PartialEq, Eq, Structural)]
pub enum CompileError {
    /// `+`, `?`, `*` or `{...}` with no token before it.
    DanglingQuantifier,
    /// `[` with no `]` after it.
    UnterminatedClass,
    /// `(` with no matching `)`.
    UnterminatedGroup,
    /// `{...}` that is not `{n}`, `{n,}` or `{n,m}` with `n <= m`, both at
    /// most 255.
    InvalidRange,
    /// `\k` where fewer than `k` groups have opened, or `k` is 0.
    DanglingBackreference,
}

/// What lexing a stretch of a pattern gives: the tokens of the current
/// sequence so far, the index of the next character to read, and the number
/// of groups opened so far.
pub ghost struct Lexed {
    pub tokens: Seq<TokenView>,
    pub next: int,
    pub opened: nat,
}

/// What lexing a group gives: its branches, the index after its `)`, and the
/// number of groups opened so far.
pub ghost struct Grouped {
    pub branches: Seq<Seq<TokenView>>,
    pub next: int,
    pub opened: nat,
}

/// The value of a decimal digit.
pub open spec fn digit_value(c: char) -> nat {
    if c == '1' {
        1
    } else if c == '2' {
        2
    } else if c == '3' {
        3
    } else if c == '4' {
        4
    } else if c == '5' {
        5
    } else if c == '6' {
        6
    } else if c == '7' {
        7
    } else if c == '8' {
        8
    } else if c == '9' {
        9
    } else {
        0
    }
}

/// The number that the decimal digits `s` write.
pub open spec fn decimal(s: Seq<char>) -> nat
    decreases s.len(),
{
    if s.len() == 0 {
        0
    } else {
        10 * decimal(s.drop_last()) + digit_value(s.last())
    }
}

/// The index of the first character at or after `i` that is no decimal
/// digit, or the length of `p` if there is none.
pub open spec fn digits_end(p: Seq<char>, i: int) -> int
    decreases p.len() - i,
{
    if i < 0 || i >= p.len() || !is_digit(p[i]) {
        i
    } else {
        digits_end(p, i + 1)
    }
}

/// The index of the first `]` at or after `i`, or the length of `p` if there
/// is none.
pub open spec fn find_close(p: Seq<char>, i: int) -> int
    decreases p.len() - i,
{
    if i < 0 || i >= p.len() {
        p.len() as int
    } else if p[i] == ']' {
        i
    } else {
        find_close(p, i + 1)
    }
}

/// The literal token for the character of `s` at index `j`.
pub open spec fn literal_at(s: Seq<char>, j: int) -> TokenView {
    TokenView::Literal(s[j])
}

/// One literal token for each character of `s`.
pub open spec fn literals(s: Seq<char>) -> Seq<TokenView> {
    Seq::new(s.len(), |j: int| literal_at(s, j))
}

/// The class whose `[` stands just before index `i`, and the index after its
/// `]`. A `^` right after the `[` negates the class and is no member; every
/// other character up to the first `]` is a literal member.
pub open spec fn class_at(p: Seq<char>, i: int) -> Result<(TokenView, int), CompileError> {
    let close = find_close(p, i);
    if close >= p.len() {
        Err(CompileError::UnterminatedClass)
    } else {
        let negate = i < close && p[i] == '^';
        let from = if negate {
            i + 1
        } else {
            i
        };
        Ok((TokenView::Sequence(literals(p.subrange(from, close)), negate), close + 1))
    }
}

/// The bounds whose `{` stands just before index `i`, and the index after
/// their `}`: `{n}` is exactly `n`, `{n,}` is `n` or more, `{n,m}` is `n` to
/// `m`.
pub open spec fn range_at(p: Seq<char>, i: int) -> Result<(NMatch, int), CompileError> {
    let a = digits_end(p, i);
    let lo = decimal(p.subrange(i, a));
    if a == i || lo > 255 || a >= p.len() {
        Err(CompileError::InvalidRange)
    } else if p[a] == '}' {
        Ok((NMatch { min: lo as u8, max: Some(lo as u8) }, a + 1))
    } else if p[a] == ',' {
        let b = digits_end(p, a + 1);
        let hi = decimal(p.subrange(a + 1, b));
        if b >= p.len() || p[b] != '}' {
            Err(CompileError::InvalidRange)
        } else if b == a + 1 {
            Ok((NMatch { min: lo as u8, max: None }, b + 1))
        } else if hi > 255 || hi < lo {
            Err(CompileError::InvalidRange)
        } else {
            Ok((NMatch { min: lo as u8, max: Some(hi as u8) }, b + 1))
        }
    } else {
        Err(CompileError::InvalidRange)
    }
}

/// The highest group number that a back-reference can name.
pub const LAST_REFERENCE: usize = 9;

/// The count of opened groups once one more has opened. A back-reference
/// names the ninth group at most, and the count stops there.
pub open spec fn one_more(opened: nat) -> nat {
    if opened < LAST_REFERENCE {
        opened + 1
    } else {
        opened
    }
}

/// `acc` with its last token wrapped in the quantifier `kind`.
pub open spec fn quantify(acc: Seq<TokenView>, kind: Quantifier) -> Seq<TokenView> {
    acc.drop_last().push(TokenView::Quantified { atom: Box::new(acc.last()), kind })
}

/// The token that the character at index `i` starts, added to `acc`. A
/// quantifier wraps the last token of `acc` instead, and is an error where
/// `acc` is empty.
pub open spec fn lexed_token(p: Seq<char>, i: int, acc: Seq<TokenView>, opened: nat) -> Result<
    Lexed,
    CompileError,
>
    decreases p.len() - i, 1nat,
{
    if i < 0 || i >= p.len() {
        Ok(Lexed { tokens: acc, next: i, opened })
    } else if p[i] == '\\' {
        if i + 1 >= p.len() {
            Ok(Lexed { tokens: acc.push(TokenView::Literal('\\')), next: i + 1, opened })
        } else if p[i + 1] == 'w' {
            Ok(Lexed { tokens: acc.push(TokenView::Word), next: i + 2, opened })
        } else if p[i + 1] == 'd' {
            Ok(Lexed { tokens: acc.push(TokenView::Digit), next: i + 2, opened })
        } else if is_digit(p[i + 1]) {
            if 1 <= digit_value(p[i + 1]) <= opened {
                Ok(
                    Lexed {
                        tokens: acc.push(TokenView::Group(digit_value(p[i + 1]) as u8)),
                        next: i + 2,
                        opened,
                    },
                )
            } else {
                Err(CompileError::DanglingBackreference)
            }
        } else {
            Ok(Lexed { tokens: acc.push(literal_at(p, i + 1)), next: i + 2, opened })
        }
    } else if p[i] == '(' {
        match lexed_group(p, i + 1, Seq::empty(), one_more(opened)) {
            Ok(g) => Ok(
                Lexed {
                    tokens: acc.push(TokenView::Alternation(g.branches)),
                    next: g.next,
                    opened: g.opened,
                },
            ),
            Err(e) => Err(e),
        }
    } else if p[i] == '[' {
        match class_at(p, i + 1) {
            Ok((class, next)) => Ok(Lexed { tokens: acc.push(class), next, opened }),
            Err(e) => Err(e),
        }
    } else if p[i] == '^' {
        Ok(Lexed { tokens: acc.push(TokenView::StartAnchor), next: i + 1, opened })
    } else if p[i] == '$' {
        Ok(Lexed { tokens: acc.push(TokenView::EndAnchor), next: i + 1, opened })
    } else if p[i] == '.' {
        Ok(Lexed { tokens: acc.push(TokenView::AnyChar), next: i + 1, opened })
    } else if p[i] == '+' || p[i] == '?' || p[i] == '*' {
        if acc.len() == 0 {
            Err(CompileError::DanglingQuantifier)
        } else {
            Ok(Lexed { tokens: quantify(acc, symbol_kind(p[i])), next: i + 1, opened })
        }
    } else if p[i] == '{' {
        if acc.len() == 0 {
            Err(CompileError::DanglingQuantifier)
        } else {
            match range_at(p, i + 1) {
                Ok((bounds, next)) => Ok(
                    Lexed { tokens: quantify(acc, Quantifier::Range(bounds)), next, opened },
                ),
                Err(e) => Err(e),
            }
        }
    } else {
        Ok(Lexed { tokens: acc.push(literal_at(p, i)), next: i + 1, opened })
    }
}

/// The quantifier that `+`, `?` or `*` writes.
pub open spec fn symbol_kind(c: char) -> Quantifier {
    if c == '+' {
        Quantifier::OneOrMore
    } else if c == '?' {
        Quantifier::ZeroOrOne
    } else {
        Quantifier::ZeroOrMore
    }
}

/// Lexes tokens from index `i` on and adds them to `acc`, up to the end of
/// the pattern or, inside a group, up to the next `|` or `)`, which is left
/// unread.
pub open spec fn lexed_seq(
    p: Seq<char>,
    i: int,
    acc: Seq<TokenView>,
    opened: nat,
    nested: bool,
) -> Result<Lexed, CompileError>
    decreases p.len() - i, 2nat,
{
    if i < 0 || i >= p.len() || (nested && (p[i] == '|' || p[i] == ')')) {
        Ok(Lexed { tokens: acc, next: i, opened })
    } else {
        match lexed_token(p, i, acc, opened) {
            Ok(l) => {
                // Every token takes at least one character and none past the
                // end, so this always holds; written out, it shows that lexing
                // comes to an end.
                if i < l.next <= p.len() {
                    lexed_seq(p, l.next, l.tokens, l.opened, nested)
                } else {
                    Ok(l)
                }
            },
            Err(e) => Err(e),
        }
    }
}

/// Lexes the branches of a group from index `i` on, after the branches
/// `done`, up to and including the `)` that closes the group.
pub open spec fn lexed_group(
    p: Seq<char>,
    i: int,
    done: Seq<Seq<TokenView>>,
    opened: nat,
) -> Result<Grouped, CompileError>
    decreases p.len() - i, 3nat,
{
    match lexed_seq(p, i, Seq::empty(), opened, true) {
        Ok(l) => {
            if l.next < i || l.next >= p.len() {
                Err(CompileError::UnterminatedGroup)
            } else if p[l.next] == '|' {
                lexed_group(p, l.next + 1, done.push(l.tokens), l.opened)
            } else {
                Ok(Grouped { branches: done.push(l.tokens), next: l.next + 1, opened: l.opened })
            }
        },
        Err(e) => Err(e),
    }
}

/// The token sequence that the pattern `p` compiles to, or the reason why it
/// does not compile.
pub open spec fn compiled(p: Seq<char>) -> Result<Seq<TokenView>, CompileError> {
    match lexed_seq(p, 0, Seq::empty(), 0, false) {
        Ok(l) => Ok(l.tokens),
        Err(e) => Err(e),
    }
}

/// Appending a character appends its literal token.
pub proof fn lemma_literals_push(s: Seq<char>, c: char)
    ensures
        literals(s.push(c)) == literals(s).push(TokenView::Literal(c)),
{
    let a = literals(s.push(c));
    let b = literals(s).push(TokenView::Literal(c));
    assert(a.len() == b.len());
    assert forall|j: int| 0 <= j < a.len() implies a[j] == b[j] by {
        assert(a[j] == literal_at(s.push(c), j));
        if j < s.len() {
            assert(b[j] == literal_at(s, j));
        }
    }
    assert(a =~= b);
}

/// `digits_end` stays between its start and the end of the pattern, and
/// everything before it is a digit.
pub proof fn lemma_digits_end(p: Seq<char>, i: int)
    requires
        0 <= i <= p.len(),
    ensures
        i <= digits_end(p, i) <= p.len(),
        forall|j: int| i <= j < digits_end(p, i) ==> is_digit(#[trigger] p[j]),
        digits_end(p, i) < p.len() ==> !is_digit(p[digits_end(p, i)]),
    decreases p.len() - i,
{
    if i < p.len() && is_digit(p[i]) {
        lemma_digits_end(p, i + 1);
    }
}

/// `find_close` stays between its start and the end of the pattern, and
/// nothing before it is a `]`.
pub proof fn lemma_find_close(p: Seq<char>, i: int)
    requires
        0 <= i <= p.len(),
    ensures
        i <= find_close(p, i) <= p.len(),
        forall|j: int| i <= j < find_close(p, i) ==> #[trigger] p[j] != ']',
        find_close(p, i) < p.len() ==> p[find_close(p, i)] == ']',
    decreases p.len() - i,
{
    if i < p.len() && p[i] != ']' {
        lemma_find_close(p, i + 1);
    }
}

/// The value of a decimal digit, `None` for any other character.
pub fn digit_of(c: char) -> (r: Option<u8>)
    ensures
        r is Some == is_digit(c),
        r matches Some(d) ==> d == digit_value(c) && d <= 9,
{
    match c {
        '0' => Some(0),
        '1' => Some(1),
        '2' => Some(2),
        '3' => Some(3),
        '4' => Some(4),
        '5' => Some(5),
        '6' => Some(6),
        '7' => Some(7),
        '8' => Some(8),
        '9' => Some(9),
        _ => None,
    }
}

/// Reads the decimal digits from index `i` on. Returns the index after the
/// last digit and the number read, `None` for a number above 255.
fn read_number(p: &[char], i: usize) -> (r: (usize, Option<u8>))
    requires
        i <= p@.len(),
    ensures
        r.0 == digits_end(p@, i as int),
        i <= r.0 <= p@.len(),
        r.1 is Some == (decimal(p@.subrange(i as int, r.0 as int)) <= 255),
        r.1 matches Some(v) ==> v == decimal(p@.subrange(i as int, r.0 as int)),
{
    let mut j: usize = i;
    let mut value: u32 = 0;
    proof {
        lemma_digits_end(p@, i as int);
        assert(p@.subrange(i as int, i as int) =~= Seq::<char>::empty());
    }
    while j < p.len()
        invariant
            i <= j <= p@.len(),
            j <= digits_end(p@, i as int) <= p@.len(),
            digits_end(p@, j as int) == digits_end(p@, i as int),
            value <= 256,
            value <= 255 ==> value == decimal(p@.subrange(i as int, j as int)),
            value == 256 ==> decimal(p@.subrange(i as int, j as int)) > 255,
        decreases p@.len() - j,
    {
        match digit_of(p[j]) {
            None => {
                return (
                    j,
                    if value <= 255 {
                        Some(value as u8)
                    } else {
                        None
                    },
                );
            },
            Some(d) => {
                proof {
                    let s = p@.subrange(i as int, j + 1);
                    assert(s.drop_last() =~= p@.subrange(i as int, j as int));
                    assert(s.last() == p@[j as int]);
                    lemma_digits_end(p@, j + 1);
                }
                if value <= 255 && value * 10 + (d as u32) <= 255 {
                    value = value * 10 + (d as u32);
                } else {
                    value = 256;
                }
                j += 1;
            },
        }
    }
    (
        j,
        if value <= 255 {
            Some(value as u8)
        } else {
            None
        },
    )
}

/// Lexes the character class whose `[` stands just before index `i`.
/// Returns the class and the index after its `]`.
pub fn get_sequence_token(pattern: &[char], i: usize) -> (r: Result<(Token, usize), CompileError>)
    ensures
        match class_at(pattern@, i as int) {
            Ok((class, next)) => r matches Ok((t, n)) && t@ == class && n == next && i < n
                <= pattern@.len(),
            Err(e) => r matches Err(x) && x == e,
        },
{
    if i > pattern.len() {
        return Err(CompileError::UnterminatedClass);
    }
    let mut word: Vec<Token> = Vec::new();
    let mut negative: bool = false;
    let mut j: usize = i;
    if j < pattern.len() && pattern[j] == '^' {
        negative = true;
        j += 1;
    }
    let from: usize = j;
    proof {
        lemma_find_close(pattern@, i as int);
        assert(views(word@) =~= literals(pattern@.subrange(from as int, j as int)));
        if negative {
            assert(find_close(pattern@, i as int) == find_close(pattern@, i + 1));
        }
    }
    while j < pattern.len()
        invariant
            i <= from <= j <= pattern@.len(),
            from == (if negative {
                i + 1
            } else {
                i as int
            }),
            negative ==> pattern@[i as int] == '^',
            !negative ==> (i < pattern@.len() ==> pattern@[i as int] != '^'),
            find_close(pattern@, j as int) == find_close(pattern@, i as int),
            views(word@) == literals(pattern@.subrange(from as int, j as int)),
        decreases pattern@.len() - j,
    {
        let c: char = pattern[j];
        if c == ']' {
            return Ok((Token::Sequence(word, negative), j + 1));
        }
        let member = literal(c);
        proof {
            lemma_views_push(word@, member);
            lemma_literals_push(pattern@.subrange(from as int, j as int), c);
            assert(pattern@.subrange(from as int, j + 1) =~= pattern@.subrange(
                from as int,
                j as int,
            ).push(c));
        }
        word.push(member);
        j += 1;
    }
    Err(CompileError::UnterminatedClass)
}

/// Lexes the counted repetition whose `{` stands just before index `i`, and
/// wraps the last token of `tokens` in it: that token leaves `tokens`, and the
/// quantified token is returned with the index after the `}`.
pub fn get_n_times_match_token(pattern: &[char], i: usize, tokens: &mut Vec<Token>) -> (r: Result<
    (Token, usize),
    CompileError,
>)
    ensures
        old(tokens)@.len() == 0 ==> (r matches Err(x) && x == CompileError::DanglingQuantifier
            && final(tokens)@ == old(tokens)@),
        old(tokens)@.len() > 0 ==> match range_at(pattern@, i as int) {
            Ok((bounds, next)) => r matches Ok((t, n)) && n == next && i < n <= pattern@.len()
                && t@ == (TokenView::Quantified {
                atom: Box::new(old(tokens)@.last()@),
                kind: Quantifier::Range(bounds),
            }) && final(tokens)@ == old(tokens)@.drop_last() && bounds.wf(),
            Err(e) => r matches Err(x) && x == e && final(tokens)@ == old(tokens)@,
        },
{
    if tokens.len() == 0 {
        return Err(CompileError::DanglingQuantifier);
    }
    if i > pattern.len() {
        return Err(CompileError::InvalidRange);
    }
    let (a, lo) = read_number(pattern, i);
    let min: u8 = match lo {
        Some(v) => v,
        None => {
            return Err(CompileError::InvalidRange);
        },
    };
    if a == i || a >= pattern.len() {
        return Err(CompileError::InvalidRange);
    }
    let (max, next): (Option<u8>, usize) = if pattern[a] == '}' {
        (Some(min), a + 1)
    } else if pattern[a] == ',' {
        let (b, hi) = read_number(pattern, a + 1);
        if b >= pattern.len() || pattern[b] != '}' {
            return Err(CompileError::InvalidRange);
        }
        if b == a + 1 {
            (None, b + 1)
        } else {
            match hi {
                Some(v) => {
                    if v < min {
                        return Err(CompileError::InvalidRange);
                    }
                    (Some(v), b + 1)
                },
                None => {
                    return Err(CompileError::InvalidRange);
                },
            }
        }
    } else {
        return Err(CompileError::InvalidRange);
    };
    let atom = tokens.pop().unwrap();
    Ok((Token::Quantified { atom: Box::new(atom), kind: Quantifier::Range(NMatch { min, max }) }, next))
}

/// Wraps the last token of `tokens` in the quantifier `kind`.
fn wrap_last(tokens: &mut Vec<Token>, kind: Quantifier)
    requires
        old(tokens)@.len() > 0,
    ensures
        views(final(tokens)@) == quantify(views(old(tokens)@), kind),
{
    proof {
        lemma_views_drop_last(tokens@);
    }
    let atom = tokens.pop().unwrap();
    let wrapped = Token::Quantified { atom: Box::new(atom), kind };
    proof {
        lemma_views_push(tokens@, wrapped);
    }
    tokens.push(wrapped);
}

/// Adds the token `t` to `tokens`.
fn emit(tokens: &mut Vec<Token>, t: Token)
    ensures
        views(final(tokens)@) == views(old(tokens)@).push(t@),
        final(tokens)@ == old(tokens)@.push(t),
{
    proof {
        lemma_views_push(tokens@, t);
    }
    tokens.push(t);
}

/// Lexes the token that the character at index `i` starts and adds it to
/// `tokens`. Returns the index of the next character to read and the number
/// of groups opened so far.
fn lex_token(pattern: &[char], i: usize, tokens: &mut Vec<Token>, opened: usize) -> (r: Result<
    (usize, usize),
    CompileError,
>)
    requires
        i < pattern@.len(),
    ensures
        match lexed_token(pattern@, i as int, views(old(tokens)@), opened as nat) {
            Ok(l) => r matches Ok((next, o)) && next == l.next && o == l.opened && views(
                final(tokens)@,
            ) == l.tokens && i < next <= pattern@.len(),
            Err(e) => r matches Err(x) && x == e,
        },
    decreases pattern@.len() - i, 1nat,
{
    let c: char = pattern[i];
    if c == '\\' {
        if i + 1 >= pattern.len() {
            emit(tokens, Token::Literal('\\'));
            return Ok((i + 1, opened));
        }
        let d: char = pattern[i + 1];
        if d == 'w' {
            emit(tokens, Token::Word);
        } else if d == 'd' {
            emit(tokens, Token::Digit);
        } else {
            match digit_of(d) {
                Some(k) => {
                    if 1 <= k && (k as usize) <= opened {
                        emit(tokens, Token::Group(k));
                    } else {
                        return Err(CompileError::DanglingBackreference);
                    }
                },
                None => {
                    emit(tokens, literal(d));
                },
            }
        }
        Ok((i + 2, opened))
    } else if c == '(' {
        let more: usize = if opened < LAST_REFERENCE {
            opened + 1
        } else {
            opened
        };
        match get_alternator_token(pattern, i + 1, more) {
            Ok((group, next, o)) => {
                emit(tokens, group);
                Ok((next, o))
            },
            Err(e) => Err(e),
        }
    } else if c == '[' {
        match get_sequence_token(pattern, i + 1) {
            Ok((class, next)) => {
                emit(tokens, class);
                Ok((next, opened))
            },
            Err(e) => Err(e),
        }
    } else if c == '^' {
        emit(tokens, Token::StartAnchor);
        Ok((i + 1, opened))
    } else if c == '$' {
        emit(tokens, Token::EndAnchor);
        Ok((i + 1, opened))
    } else if c == '.' {
        emit(tokens, Token::AnyChar);
        Ok((i + 1, opened))
    } else if c == '+' || c == '?' || c == '*' {
        if tokens.len() == 0 {
            return Err(CompileError::DanglingQuantifier);
        }
        let kind = if c == '+' {
            Quantifier::OneOrMore
        } else if c == '?' {
            Quantifier::ZeroOrOne
        } else {
            Quantifier::ZeroOrMore
        };
        wrap_last(tokens, kind);
        Ok((i + 1, opened))
    } else if c == '{' {
        proof {
            if tokens@.len() > 0 {
                lemma_views_drop_last(tokens@);
            }
        }
        match get_n_times_match_token(pattern, i + 1, tokens) {
            Ok((quantified, next)) => {
                emit(tokens, quantified);
                Ok((next, opened))
            },
            Err(e) => Err(e),
        }
    } else {
        emit(tokens, literal(c));
        Ok((i + 1, opened))
    }
}

/// Lexes a token sequence from index `start` on: up to the end of the
/// pattern or, inside a group, up to the next `|` or `)`. Returns the tokens,
/// the index where it stopped and the number of groups opened so far.
fn lex_branch(pattern: &[char], start: usize, opened: usize, nested: bool) -> (r: Result<
    (Vec<Token>, usize, usize),
    CompileError,
>)
    requires
        start <= pattern@.len(),
    ensures
        match lexed_seq(pattern@, start as int, Seq::empty(), opened as nat, nested) {
            Ok(l) => r matches Ok((ts, next, o)) && views(ts@) == l.tokens && next == l.next && o
                == l.opened && start <= next <= pattern@.len(),
            Err(e) => r matches Err(x) && x == e,
        },
    decreases pattern@.len() - start, 2nat,
{
    let mut tokens: Vec<Token> = Vec::new();
    let mut i: usize = start;
    let mut o: usize = opened;
    assert(views(tokens@) =~= Seq::<TokenView>::empty());
    while i < pattern.len() && !(nested && (pattern[i] == '|' || pattern[i] == ')'))
        invariant
            start <= i <= pattern@.len(),
            lexed_seq(pattern@, i as int, views(tokens@), o as nat, nested) == lexed_seq(
                pattern@,
                start as int,
                Seq::empty(),
                opened as nat,
                nested,
            ),
        decreases pattern@.len() - i,
    {
        match lex_token(pattern, i, &mut tokens, o) {
            Ok((next, o2)) => {
                i = next;
                o = o2;
            },
            Err(e) => {
                return Err(e);
            },
        }
    }
    Ok((tokens, i, o))
}

/// Lexes the group whose `(` stands just before index `start`; `opened`
/// counts the groups opened so far, this one included. Returns the group,
/// the index after its `)` and the number of groups opened so far.
pub fn get_alternator_token(pattern: &[char], start: usize, opened: usize) -> (r: Result<
    (Token, usize, usize),
    CompileError,
>)
    ensures
        match lexed_group(pattern@, start as int, Seq::empty(), opened as nat) {
            Ok(g) => r matches Ok((t, next, o)) && t@ == TokenView::Alternation(g.branches)
                && next == g.next && o == g.opened && start < next <= pattern@.len(),
            Err(e) => r matches Err(x) && x == e,
        },
    decreases pattern@.len() - start, 3nat,
{
    if start > pattern.len() {
        assert(lexed_seq(pattern@, start as int, Seq::empty(), opened as nat, true) == Ok::<
            Lexed,
            CompileError,
        >(Lexed { tokens: Seq::empty(), next: start as int, opened: opened as nat }));
        return Err(CompileError::UnterminatedGroup);
    }
    let mut options: Vec<Vec<Token>> = Vec::new();
    let mut i: usize = start;
    let mut o: usize = opened;
    assert(branch_views(options@) =~= Seq::<Seq<TokenView>>::empty());
    loop
        invariant
            start <= i <= pattern@.len(),
            lexed_group(pattern@, i as int, branch_views(options@), o as nat) == lexed_group(
                pattern@,
                start as int,
                Seq::empty(),
                opened as nat,
            ),
        decreases pattern@.len() - i,
    {
        match lex_branch(pattern, i, o, true) {
            Ok((branch, stop, o2)) => {
                if stop >= pattern.len() {
                    return Err(CompileError::UnterminatedGroup);
                }
                proof {
                    lemma_branch_views_push(options@, branch);
                }
                options.push(branch);
                if pattern[stop] == '|' {
                    i = stop + 1;
                    o = o2;
                } else {
                    return Ok((Token::Alternation(options), stop + 1, o2));
                }
            },
            Err(e) => {
                return Err(e);
            },
        }
    }
}

/// Compiles a pattern into its token sequence.
pub fn lexer(pattern: &str) -> (r: Result<Vec<Token>, CompileError>)
    ensures
        match compiled(pattern@) {
            Ok(toks) => r matches Ok(ts) && views(ts@) == toks,
            Err(e) => r matches Err(x) && x == e,
        },
{
    let chars = to_chars(pattern);
    match lex_branch(chars.as_slice(), 0, 0, false) {
        Ok((tokens, _, _)) => Ok(tokens),
        Err(e) => Err(e),
    }
}

} // verus!
