//! Matching one quantified atom, followed by the rest of a pattern, at an
//! offset.

use crate::engine::{caps_view, clip_add, count_token, run_cutback, run_greedy, Cont};
use crate::utils::as_int;
use crate::semantics::head_end;
use crate::token::{views, NMatch, Quantifier, Token, TokenView};
use vstd::prelude::*;

verus! {

/// Where a match of `atom` repeated as `kind` says, followed by `after`, that
/// starts at `pos` ends.
pub open spec fn quantified_end(
    chars: Seq<char>,
    atom: TokenView,
    kind: Quantifier,
    after: Seq<TokenView>,
    pos: int,
) -> Option<int> {
    head_end(chars, TokenView::Quantified { atom: Box::new(atom), kind }, after, pos)
}

/// Runs `token` greedily from `pos` as `kind` allows, then hands
/// `tokens_after` each run length in turn, longest first.
pub(crate) fn match_quantified(
    chars: &[char],
    token: &Token,
    kind: &Quantifier,
    pos: usize,
    tokens_after: &[Token],
) -> (r: Option<usize>)
    ensures
        as_int(r) == quantified_end(chars@, token@, *kind, views(tokens_after@), pos as int),
{
    let fresh: Vec<Option<(usize, usize)>> = Vec::new();
    proof {
        assert(caps_view(fresh@) =~= Map::<nat, crate::semantics::Span>::empty());
    }
    let runs = run_greedy(chars, token, pos, 1, &fresh, kind);
    let after_base: usize = clip_add(1, count_token(token));
    match run_cutback(chars, tokens_after, 0, after_base, &Cont::Done, &runs, kind.lower()) {
        Some(reached) => Some(reached.end),
        None => None,
    }
}

/// Matches one or more of `token` from `pos`, then `tokens_after`. Returns
/// the offset after the whole match.
pub fn match_one_or_more(chars: &[char], token: &Token, pos: usize, tokens_after: &[Token]) -> (r:
    Option<usize>)
    ensures
        as_int(r) == quantified_end(
            chars@,
            token@,
            Quantifier::OneOrMore,
            views(tokens_after@),
            pos as int,
        ),
{
    match_quantified(chars, token, &Quantifier::OneOrMore, pos, tokens_after)
}

/// Matches any number of `token` from `pos`, then `tokens_after`. Returns the
/// offset after the whole match.
pub fn match_zero_or_more(chars: &[char], token: &Token, pos: usize, tokens_after: &[Token]) -> (r:
    Option<usize>)
    ensures
        as_int(r) == quantified_end(
            chars@,
            token@,
            Quantifier::ZeroOrMore,
            views(tokens_after@),
            pos as int,
        ),
{
    match_quantified(chars, token, &Quantifier::ZeroOrMore, pos, tokens_after)
}

/// Matches `token` once or not at all from `pos`, then `tokens_after`.
/// Returns the offset after the whole match.
pub fn match_zero_or_one(chars: &[char], token: &Token, pos: usize, tokens_after: &[Token]) -> (r:
    Option<usize>)
    ensures
        as_int(r) == quantified_end(
            chars@,
            token@,
            Quantifier::ZeroOrOne,
            views(tokens_after@),
            pos as int,
        ),
{
    match_quantified(chars, token, &Quantifier::ZeroOrOne, pos, tokens_after)
}

/// Matches `token` at least `n` times, and at most `m` times where `m` is
/// given, from `pos`, then `tokens_after`. Returns the offset after the whole
/// match.
pub fn match_n_times(
    chars: &[char],
    token: &Token,
    pos: usize,
    tokens_after: &[Token],
    n: u8,
    m: Option<u8>,
) -> (r: Option<usize>)
    ensures
        as_int(r) == quantified_end(
            chars@,
            token@,
            Quantifier::Range(NMatch { min: n, max: m }),
            views(tokens_after@),
            pos as int,
        ),
{
    match_quantified(
        chars,
        token,
        &Quantifier::Range(NMatch { min: n, max: m }),
        pos,
        tokens_after,
    )
}

} // verus!
