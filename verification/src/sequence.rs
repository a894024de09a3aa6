//! Matching one character class, and one group, at an offset.

use crate::engine::{caps_view, class_accepts, run_branches, Cont};
use crate::semantics::head_end;
use crate::token::{branch_views, views, Token, TokenView};
use crate::utils::{as_int, class_matches};
use vstd::prelude::*;

verus! {

/// Where a match of the class made of `members` that starts at `pos` ends:
/// right after the one character at `pos`, if there is one and the class
/// accepts it.
pub open spec fn class_end(chars: Seq<char>, members: Seq<TokenView>, negate: bool, pos: int) -> Option<
    int,
> {
    if 0 <= pos < chars.len() && class_matches(members, negate, chars[pos]) {
        Some(pos + 1)
    } else {
        None
    }
}

/// A class on its own matches as it does at the head of a pattern.
pub proof fn lemma_class_end_is_head_end(
    chars: Seq<char>,
    members: Seq<TokenView>,
    negate: bool,
    pos: int,
)
    ensures
        class_end(chars, members, negate, pos) == head_end(
            chars,
            TokenView::Sequence(members, negate),
            Seq::empty(),
            pos,
        ),
{
    reveal_with_fuel(crate::semantics::run, 2);
}

/// Matches the character class made of `seq_tokens`, negated if `negative`,
/// against the character at `start_pos`. Returns the offset after it.
pub fn match_sequence(seq_tokens: Vec<Token>, chars: &[char], start_pos: usize, negative: bool) -> (r:
    Option<usize>)
    ensures
        as_int(r) == class_end(chars@, views(seq_tokens@), negative, start_pos as int),
{
    if start_pos < chars.len() && class_accepts(&seq_tokens, negative, chars[start_pos]) {
        Some(start_pos + 1)
    } else {
        None
    }
}

/// Matches the group with the branches `alt_tokens` at `start_pos`: the
/// first branch that matches there decides. Returns the offset after the
/// match.
pub fn match_alteration(alt_tokens: &Vec<Vec<Token>>, chars: &[char], start_pos: usize) -> (r:
    Option<usize>)
    ensures
        as_int(r) == head_end(
            chars@,
            TokenView::Alternation(branch_views(alt_tokens@)),
            Seq::empty(),
            start_pos as int,
        ),
{
    let nothing: Vec<Token> = Vec::new();
    let fresh: Vec<Option<(usize, usize)>> = Vec::new();
    proof {
        assert(views(nothing@) =~= Seq::<TokenView>::empty());
        assert(caps_view(fresh@) =~= Map::<nat, crate::semantics::Span>::empty());
    }
    match run_branches(chars, alt_tokens, nothing.as_slice(), 0, start_pos, 1, &fresh, &Cont::Done) {
        Some(reached) => Some(reached.end),
        None => None,
    }
}

} // verus!
