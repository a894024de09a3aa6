//! What it means for a token sequence to match at an offset of a text.
//!
//! The matcher walks a token sequence head first. What is still to be matched
//! once the current sequence is exhausted is the continuation: a stack of
//! frames, one for each group that has been entered and not yet left. A
//! quantifier runs its atom greedily, then hands the continuation each run
//! length in turn, longest first, until one makes the rest of the pattern
//! succeed. A group tries its branches in order, each followed by everything
//! after the group.
//!
//! Groups are numbered from 1 in the order in which they open. The text a
//! group matched last is kept for back-references; only the groups numbered
//! up to `LAST_GROUP` are kept.

use crate::token::TokenView;
use crate::utils::{char_matches, class_matches};
use vstd::prelude::*;

verus! {

/// The highest group number whose text is kept for back-references.
pub const LAST_GROUP: usize = 255;

/// A matched stretch of text, `start` inclusive and `end` exclusive.
pub ghost struct Span {
    pub start: int,
    pub end: int,
}

/// The text each group matched last, by group number.
pub type Captures = Map<nat, Span>;

/// A successful match: where it ended, and what the groups captured.
pub ghost struct Outcome {
    pub end: int,
    pub caps: Captures,
}

/// What follows a group: the tokens after it, the number the next group
/// there will get, and the group to close first.
pub ghost struct Frame {
    pub tokens: Seq<TokenView>,
    pub next: int,
    pub base: nat,
    pub group: nat,
    pub start: int,
}

/// A continuation: the frames of the groups entered and not yet left,
/// innermost first.
pub ghost enum ContView {
    Done,
    Then(Frame, Box<ContView>),
}

/// The number of groups a token opens, itself included. The members of a
/// class open none.
pub open spec fn groups(t: TokenView) -> nat
    decreases t, 0nat,
{
    match t {
        TokenView::Alternation(bs) => 1 + branches_groups(bs, bs.len()),
        TokenView::Quantified { atom, .. } => groups(*atom),
        _ => 0,
    }
}

/// The number of groups the first `n` tokens of `s` open.
pub open spec fn seq_groups(s: Seq<TokenView>, n: nat) -> nat
    decreases s, n,
{
    if n == 0 || n > s.len() {
        0
    } else {
        seq_groups(s, (n - 1) as nat) + groups(s[n - 1])
    }
}

/// The number of groups the first `n` branches of `bs` open.
pub open spec fn branches_groups(bs: Seq<Seq<TokenView>>, n: nat) -> nat
    decreases bs, n,
{
    if n == 0 || n > bs.len() {
        0
    } else {
        branches_groups(bs, (n - 1) as nat) + seq_groups(bs[n - 1], bs[n - 1].len())
    }
}

/// The group number `n` groups after `base`. Numbers past `LAST_GROUP` are
/// not told apart.
pub open spec fn bump(base: nat, n: nat) -> nat {
    if base + n > LAST_GROUP {
        (LAST_GROUP + 1) as nat
    } else {
        base + n
    }
}

/// The size of a token as the matcher sees it.
pub open spec fn weight(t: TokenView) -> nat
    decreases t, 0nat,
{
    match t {
        TokenView::Alternation(bs) => 2 + branches_weight(bs, 0),
        TokenView::Quantified { atom, .. } => 2 + weight(*atom),
        _ => 1,
    }
}

/// The size of the tokens of `s` from index `i` on.
pub open spec fn seq_weight(s: Seq<TokenView>, i: int) -> nat
    decreases s, s.len() - i,
{
    if i < 0 || i >= s.len() {
        0
    } else {
        weight(s[i]) + seq_weight(s, i + 1)
    }
}

/// The size of the branches of `bs` from index `i` on.
pub open spec fn branches_weight(bs: Seq<Seq<TokenView>>, i: int) -> nat
    decreases bs, bs.len() - i,
{
    if i < 0 || i >= bs.len() {
        0
    } else {
        1 + seq_weight(bs[i], 0) + branches_weight(bs, i + 1)
    }
}

/// The size of a continuation.
pub open spec fn cont_weight(k: ContView) -> nat
    decreases k,
{
    match k {
        ContView::Done => 0,
        ContView::Then(f, outer) => 1 + seq_weight(f.tokens, f.next) + cont_weight(*outer),
    }
}

/// The captures after group `group` matched `start..end`.
pub open spec fn record(caps: Captures, group: nat, start: int, end: int) -> Captures {
    if 1 <= group <= LAST_GROUP {
        caps.insert(group, Span { start, end })
    } else {
        caps
    }
}

/// Where a back-reference to `group` ends when tried at `pos`: the text the
/// group matched last must stand at `pos` again.
pub open spec fn backref_end(chars: Seq<char>, caps: Captures, group: u8, pos: int) -> Option<int> {
    if caps.contains_key(group as nat) {
        let s = caps[group as nat];
        if 0 <= s.start <= s.end <= chars.len() && 0 <= pos && pos + (s.end - s.start)
            <= chars.len() && chars.subrange(pos, pos + (s.end - s.start)) == chars.subrange(
            s.start,
            s.end,
        ) {
            Some(pos + (s.end - s.start))
        } else {
            None
        }
    } else {
        None
    }
}

/// Matches `toks` from index `i` on at `pos`, then the continuation `k`.
/// `base` is the number the next group in `toks` gets.
pub open spec fn run(
    chars: Seq<char>,
    toks: Seq<TokenView>,
    i: int,
    pos: int,
    base: nat,
    caps: Captures,
    k: ContView,
) -> Option<Outcome>
    decreases seq_weight(toks, i) + cont_weight(k), 1nat,
{
    if i < 0 || i >= toks.len() {
        match k {
            ContView::Done => Some(Outcome { end: pos, caps }),
            ContView::Then(f, outer) => run(
                chars,
                f.tokens,
                f.next,
                pos,
                f.base,
                record(caps, f.group, f.start, pos),
                *outer,
            ),
        }
    } else {
        run_head(chars, toks[i], toks, i + 1, pos, base, caps, k)
    }
}

/// Matches the token `t` at `pos`, then `toks` from index `next` on, then
/// the continuation `k`. `base` is the number the next group in `t` gets.
pub open spec fn run_head(
    chars: Seq<char>,
    t: TokenView,
    toks: Seq<TokenView>,
    next: int,
    pos: int,
    base: nat,
    caps: Captures,
    k: ContView,
) -> Option<Outcome>
    decreases weight(t) + seq_weight(toks, next) + cont_weight(k), 0nat,
{
    match t {
        TokenView::StartAnchor => run(chars, toks, next, pos, base, caps, k),
        TokenView::EndAnchor => if pos == chars.len() {
            run(chars, toks, next, pos, base, caps, k)
        } else {
            None
        },
        TokenView::Sequence(members, negate) => if 0 <= pos < chars.len() && class_matches(
            members,
            negate,
            chars[pos],
        ) {
            run(chars, toks, next, pos + 1, base, caps, k)
        } else {
            None
        },
        TokenView::Group(g) => match backref_end(chars, caps, g, pos) {
            Some(e) => run(chars, toks, next, e, base, caps, k),
            None => None,
        },
        TokenView::Alternation(bs) => first_branch(chars, bs, 0, toks, next, pos, base, caps, k),
        TokenView::Quantified { atom, kind } => {
            let runs = greedy(chars, *atom, base, kind.max_reps(), seq![Outcome { end: pos, caps }]);
            cutback(
                chars,
                toks,
                next,
                bump(base, groups(*atom)),
                k,
                runs,
                runs.len() - 1,
                kind.min_reps(),
            )
        },
        _ => if 0 <= pos < chars.len() && char_matches(t, chars[pos]) {
            run(chars, toks, next, pos + 1, base, caps, k)
        } else {
            None
        },
    }
}

/// Tries the branches `bs` of a group from branch `b` on, each followed by
/// `toks` from index `next` on and then `k`. The first branch with which all
/// of that succeeds decides. `base` is the number of the group.
pub open spec fn first_branch(
    chars: Seq<char>,
    bs: Seq<Seq<TokenView>>,
    b: int,
    toks: Seq<TokenView>,
    next: int,
    pos: int,
    base: nat,
    caps: Captures,
    k: ContView,
) -> Option<Outcome>
    decreases 1 + branches_weight(bs, b) + seq_weight(toks, next) + cont_weight(k), 0nat,
{
    if b < 0 || b >= bs.len() {
        None
    } else {
        match run(
            chars,
            bs[b],
            0,
            pos,
            bump(base, 1 + branches_groups(bs, b as nat)),
            caps,
            ContView::Then(group_frame(bs, toks, next, pos, base), Box::new(k)),
        ) {
            Some(o) => Some(o),
            None => first_branch(chars, bs, b + 1, toks, next, pos, base, caps, k),
        }
    }
}

/// What follows a branch of the group with branches `bs` and number `base`
/// that was entered at `pos`: the group closes, then `toks` goes on from
/// index `next`.
pub open spec fn group_frame(
    bs: Seq<Seq<TokenView>>,
    toks: Seq<TokenView>,
    next: int,
    pos: int,
    base: nat,
) -> Frame {
    Frame {
        tokens: toks,
        next,
        base: bump(base, 1 + branches_groups(bs, bs.len())),
        group: base,
        start: pos,
    }
}

/// Repeats `atom` as often as it will go, from the end of the last entry of
/// `runs`, and returns `runs` with one entry added for each repetition: entry
/// `n` is where `n` repetitions end. A repetition counts only if it consumes
/// at least one character, and no more than `max` are made.
pub open spec fn greedy(
    chars: Seq<char>,
    atom: TokenView,
    base: nat,
    max: Option<nat>,
    runs: Seq<Outcome>,
) -> Seq<Outcome>
    decreases 1 + weight(atom), chars.len() - runs.last().end,
{
    if runs.len() == 0 || (max matches Some(m) && runs.len() > m) {
        runs
    } else {
        let last = runs.last();
        match run_head(
            chars,
            atom,
            Seq::empty(),
            0,
            last.end,
            base,
            last.caps,
            ContView::Done,
        ) {
            Some(o) => if last.end < o.end <= chars.len() {
                greedy(chars, atom, base, max, runs.push(o))
            } else {
                runs
            },
            None => runs,
        }
    }
}

/// Hands `toks` from index `next` on, and then `k`, the run lengths `j`,
/// `j - 1`, ... down to `min`, and returns the first success. `base` is the
/// number the next group in `toks` gets.
pub open spec fn cutback(
    chars: Seq<char>,
    toks: Seq<TokenView>,
    next: int,
    base: nat,
    k: ContView,
    runs: Seq<Outcome>,
    j: int,
    min: nat,
) -> Option<Outcome>
    decreases 1 + seq_weight(toks, next) + cont_weight(k), j,
{
    if j < 0 || j < min || j >= runs.len() {
        None
    } else {
        match run(chars, toks, next, runs[j].end, base, runs[j].caps, k) {
            Some(o) => Some(o),
            None => if j > 0 {
                cutback(chars, toks, next, base, k, runs, j - 1, min)
            } else {
                None
            },
        }
    }
}

/// Where an outcome ends.
pub open spec fn end_of(o: Option<Outcome>) -> Option<int> {
    match o {
        Some(o) => Some(o.end),
        None => None,
    }
}

/// Where a match of `toks` from index `i` on that starts at `pos` ends, or
/// `None` where there is none.
pub open spec fn match_end_from(chars: Seq<char>, toks: Seq<TokenView>, i: int, pos: int) -> Option<
    int,
> {
    end_of(run(chars, toks, i, pos, 1, Map::empty(), ContView::Done))
}

/// Where a match of `toks` that starts at `pos` ends, or `None` where there
/// is none.
pub open spec fn match_end(chars: Seq<char>, toks: Seq<TokenView>, pos: int) -> Option<int> {
    match_end_from(chars, toks, 0, pos)
}

/// Where a match of the single token `t`, followed by `after`, that starts at
/// `pos` ends.
pub open spec fn head_end(chars: Seq<char>, t: TokenView, after: Seq<TokenView>, pos: int) -> Option<
    int,
> {
    end_of(run_head(chars, t, after, 0, pos, 1, Map::empty(), ContView::Done))
}

} // verus!
