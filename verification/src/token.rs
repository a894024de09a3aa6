//! The token model: the tree a pattern compiles to, and its mathematical view.
//!
//! `Token` is the executable tree. `TokenView` is the same tree over `Seq`,
//! which is what every contract in this crate speaks of.

use vstd::prelude::*;

verus! {

/// The bounds of a counted repetition: at least `min` times, and at most
/// `max` times where `max` is given.
#[derive(Clone, Copy, Debug, PartialEq, Eq, Structural)]
pub struct NMatch {
    pub min: u8,
    pub max: Option<u8>,
}

impl NMatch {
    /// The upper bound, where there is one, is not below the lower bound.
    pub open spec fn wf(self) -> bool {
        self.max matches Some(m) ==> m >= self.min
    }

    /// Builds the bounds `min..=max`, or `min..` for `max == None`.
    pub fn new(min: u8, max: Option<u8>) -> (r: Option<NMatch>)
        ensures
            r == (if (NMatch { min, max }).wf() {
                Some(NMatch { min, max })
            } else {
                None
            }),
    {
        match max {
            Some(m) => {
                if m < min {
                    return None;
                }
            },
            None => {},
        }
        Some(NMatch { min, max })
    }
}

/// How often a quantified atom may repeat.
#[derive(Clone, Copy, Debug, PartialEq, Eq, Structural)]
pub enum Quantifier {
    OneOrMore,
    ZeroOrOne,
    ZeroOrMore,
    Range(NMatch),
}

impl Quantifier {
    /// The least number of repetitions the quantifier accepts.
    pub open spec fn min_reps(self) -> nat {
        match self {
            Quantifier::OneOrMore => 1,
            Quantifier::ZeroOrOne => 0,
            Quantifier::ZeroOrMore => 0,
            Quantifier::Range(n) => n.min as nat,
        }
    }

    /// The greatest number of repetitions the quantifier accepts, `None` for
    /// no limit.
    pub open spec fn max_reps(self) -> Option<nat> {
        match self {
            Quantifier::OneOrMore => None,
            Quantifier::ZeroOrOne => Some(1nat),
            Quantifier::ZeroOrMore => None,
            Quantifier::Range(n) => match n.max {
                Some(m) => Some(m as nat),
                None => None,
            },
        }
    }

    /// The least number of repetitions.
    pub fn lower(&self) -> (r: usize)
        ensures
            r == self.min_reps(),
    {
        match self {
            Quantifier::OneOrMore => 1,
            Quantifier::ZeroOrOne => 0,
            Quantifier::ZeroOrMore => 0,
            Quantifier::Range(n) => n.min as usize,
        }
    }

    /// The greatest number of repetitions, `None` for no limit.
    pub fn upper(&self) -> (r: Option<usize>)
        ensures
            r is Some == self.max_reps() is Some,
            r matches Some(m) ==> self.max_reps() == Some(m as nat),
    {
        match self {
            Quantifier::OneOrMore => None,
            Quantifier::ZeroOrOne => Some(1),
            Quantifier::ZeroOrMore => None,
            Quantifier::Range(n) => match n.max {
                Some(m) => Some(m as usize),
                None => None,
            },
        }
    }
}

/// One node of a compiled pattern.
#[derive(Debug, PartialEq, Eq)]
pub enum Token {
    /// `^`: matches without consuming.
    StartAnchor,
    /// `$`: matches at the end of the text only.
    EndAnchor,
    /// Exactly this character.
    Literal(char),
    /// `.`: any character but a line feed.
    AnyChar,
    /// `\d`: an ASCII decimal digit.
    Digit,
    /// `\w`: an ASCII letter, an ASCII digit or `_`.
    Word,
    /// A character class: one character that some member matches, or, with
    /// the flag set, that no member matches.
    Sequence(Vec<Token>, bool),
    /// A group: its branches are tried in order.
    Alternation(Vec<Vec<Token>>),
    /// A repeated atom.
    Quantified { atom: Box<Token>, kind: Quantifier },
    /// A back-reference to the text of a numbered group.
    Group(u8),
}

/// The mathematical form of a `Token`.
pub ghost enum TokenView {
    StartAnchor,
    EndAnchor,
    Literal(char),
    AnyChar,
    Digit,
    Word,
    Sequence(Seq<TokenView>, bool),
    Alternation(Seq<Seq<TokenView>>),
    Quantified { atom: Box<TokenView>, kind: Quantifier },
    Group(u8),
}

impl Token {
    /// The tree this token stands for.
    pub open spec fn view(&self) -> TokenView
        decreases self,
    {
        match self {
            Token::StartAnchor => TokenView::StartAnchor,
            Token::EndAnchor => TokenView::EndAnchor,
            Token::Literal(c) => TokenView::Literal(*c),
            Token::AnyChar => TokenView::AnyChar,
            Token::Digit => TokenView::Digit,
            Token::Word => TokenView::Word,
            Token::Sequence(members, negate) => TokenView::Sequence(views(members@), *negate),
            Token::Alternation(branches) => TokenView::Alternation(branch_views(branches@)),
            Token::Quantified { atom, kind } => TokenView::Quantified {
                atom: Box::new(atom.view()),
                kind: *kind,
            },
            Token::Group(k) => TokenView::Group(*k),
        }
    }
}

/// The tree keeps the invariant of counted repetitions: wherever it holds
/// bounds with an upper bound, that bound is not below the lower one.
pub open spec fn well_formed(t: TokenView) -> bool
    decreases t,
{
    match t {
        TokenView::Sequence(members, _) => all_well_formed(members),
        TokenView::Alternation(branches) => forall|i: int|
            0 <= i < branches.len() ==> all_well_formed(#[trigger] branches[i]),
        TokenView::Quantified { atom, kind } => well_formed(*atom) && (kind matches Quantifier::Range(
            bounds,
        ) ==> bounds.wf()),
        _ => true,
    }
}

/// Every token of `s` is well formed.
pub open spec fn all_well_formed(s: Seq<TokenView>) -> bool
    decreases s,
{
    forall|i: int| 0 <= i < s.len() ==> well_formed(#[trigger] s[i])
}

/// The views of a sequence of tokens, in order.
pub open spec fn views(s: Seq<Token>) -> Seq<TokenView>
    decreases s,
{
    Seq::new(
        s.len(),
        |i: int|
            if 0 <= i < s.len() {
                s[i].view()
            } else {
                arbitrary()
            },
    )
}

/// The views of the branches of a group, in order.
pub open spec fn branch_views(s: Seq<Vec<Token>>) -> Seq<Seq<TokenView>>
    decreases s,
{
    Seq::new(
        s.len(),
        |i: int|
            if 0 <= i < s.len() {
                views(s[i]@)
            } else {
                arbitrary()
            },
    )
}

/// Appending a token appends its view.
pub proof fn lemma_views_push(s: Seq<Token>, t: Token)
    ensures
        views(s.push(t)) == views(s).push(t@),
{
    assert(views(s.push(t)) =~= views(s).push(t@));
}

/// Appending a branch appends its view.
pub proof fn lemma_branch_views_push(s: Seq<Vec<Token>>, b: Vec<Token>)
    ensures
        branch_views(s.push(b)) == branch_views(s).push(views(b@)),
{
    assert(branch_views(s.push(b)) =~= branch_views(s).push(views(b@)));
}

/// Dropping the last token drops the last view.
pub proof fn lemma_views_drop_last(s: Seq<Token>)
    requires
        s.len() > 0,
    ensures
        views(s.drop_last()) == views(s).drop_last(),
        views(s).last() == s.last()@,
{
    assert(views(s.drop_last()) =~= views(s).drop_last());
}

/// The token that matches exactly `c`.
pub fn literal(c: char) -> (t: Token)
    ensures
        t@ == TokenView::Literal(c),
{
    Token::Literal(c)
}

/// A deep copy of a token.
pub fn copy_token(t: &Token) -> (r: Token)
    ensures
        r@ == t@,
    decreases t,
{
    match t {
        Token::StartAnchor => Token::StartAnchor,
        Token::EndAnchor => Token::EndAnchor,
        Token::Literal(c) => Token::Literal(*c),
        Token::AnyChar => Token::AnyChar,
        Token::Digit => Token::Digit,
        Token::Word => Token::Word,
        Token::Sequence(members, negate) => Token::Sequence(copy_tokens(members), *negate),
        Token::Alternation(branches) => Token::Alternation(copy_branches(branches)),
        Token::Quantified { atom, kind } => Token::Quantified {
            atom: Box::new(copy_token(atom)),
            kind: *kind,
        },
        Token::Group(k) => Token::Group(*k),
    }
}

/// A deep copy of a sequence of tokens.
pub fn copy_tokens(ts: &Vec<Token>) -> (r: Vec<Token>)
    ensures
        views(r@) == views(ts@),
    decreases ts,
{
    let mut v: Vec<Token> = Vec::new();
    let mut i: usize = 0;
    while i < ts.len()
        invariant
            i <= ts.len(),
            v@.len() == i,
            forall|j: int| 0 <= j < i ==> v@[j]@ == ts@[j]@,
        decreases ts.len() - i,
    {
        v.push(copy_token(&ts[i]));
        i += 1;
    }
    assert(views(v@) =~= views(ts@));
    v
}

/// A deep copy of the branches of a group.
pub fn copy_branches(bs: &Vec<Vec<Token>>) -> (r: Vec<Vec<Token>>)
    ensures
        branch_views(r@) == branch_views(bs@),
    decreases bs,
{
    let mut v: Vec<Vec<Token>> = Vec::new();
    let mut i: usize = 0;
    while i < bs.len()
        invariant
            i <= bs.len(),
            v@.len() == i,
            forall|j: int| 0 <= j < i ==> views(v@[j]@) == views(bs@[j]@),
        decreases bs.len() - i,
    {
        v.push(copy_tokens(&bs[i]));
        i += 1;
    }
    assert(branch_views(v@) =~= branch_views(bs@));
    v
}

impl Clone for Token {
    fn clone(&self) -> (r: Self)
        ensures
            r@ == self@,
    {
        copy_token(self)
    }
}

} // verus!
