//! Facts about the matching semantics that the rest of the crate builds on.

use crate::semantics::{
    backref_end, cutback, first_branch, greedy, group_frame, run, run_head, Captures, ContView,
    Outcome,
};
use crate::token::TokenView;
use vstd::prelude::*;

verus! {

/// Every outcome in `runs` ends between `lo` and the end of the text.
pub open spec fn ends_within(runs: Seq<Outcome>, lo: int, len: int) -> bool {
    forall|j: int| 0 <= j < runs.len() ==> lo <= (#[trigger] runs[j]).end <= len
}

/// A match that starts inside the text ends inside the text, at or after its
/// start.
pub proof fn lemma_run_bounds(
    chars: Seq<char>,
    toks: Seq<TokenView>,
    i: int,
    pos: int,
    base: nat,
    caps: Captures,
    k: ContView,
)
    requires
        0 <= pos <= chars.len(),
    ensures
        run(chars, toks, i, pos, base, caps, k) matches Some(o) ==> pos <= o.end <= chars.len(),
    decreases crate::semantics::seq_weight(toks, i) + crate::semantics::cont_weight(k), 1nat,
{
    if i < 0 || i >= toks.len() {
        match k {
            ContView::Done => {},
            ContView::Then(f, outer) => {
                lemma_run_bounds(
                    chars,
                    f.tokens,
                    f.next,
                    pos,
                    f.base,
                    crate::semantics::record(caps, f.group, f.start, pos),
                    *outer,
                );
            },
        }
    } else {
        lemma_run_head_bounds(chars, toks[i], toks, i + 1, pos, base, caps, k);
    }
}

/// A match of a token and what follows it that starts inside the text ends
/// inside the text, at or after its start.
pub proof fn lemma_run_head_bounds(
    chars: Seq<char>,
    t: TokenView,
    toks: Seq<TokenView>,
    next: int,
    pos: int,
    base: nat,
    caps: Captures,
    k: ContView,
)
    requires
        0 <= pos <= chars.len(),
    ensures
        run_head(chars, t, toks, next, pos, base, caps, k) matches Some(o) ==> pos <= o.end
            <= chars.len(),
    decreases
            crate::semantics::weight(t) + crate::semantics::seq_weight(toks, next)
                + crate::semantics::cont_weight(k),
            0nat,
{
    match t {
        TokenView::StartAnchor => {
            lemma_run_bounds(chars, toks, next, pos, base, caps, k);
        },
        TokenView::EndAnchor => {
            if pos == chars.len() {
                lemma_run_bounds(chars, toks, next, pos, base, caps, k);
            }
        },
        TokenView::Sequence(members, negate) => {
            if pos < chars.len() {
                lemma_run_bounds(chars, toks, next, pos + 1, base, caps, k);
            }
        },
        TokenView::Group(g) => {
            match backref_end(chars, caps, g, pos) {
                Some(e) => {
                    lemma_run_bounds(chars, toks, next, e, base, caps, k);
                },
                None => {},
            }
        },
        TokenView::Alternation(bs) => {
            lemma_first_branch_bounds(chars, bs, 0, toks, next, pos, base, caps, k);
        },
        TokenView::Quantified { atom, kind } => {
            let start = seq![Outcome { end: pos, caps }];
            lemma_greedy_bounds(chars, *atom, base, kind.max_reps(), start, pos);
            let runs = greedy(chars, *atom, base, kind.max_reps(), start);
            lemma_cutback_bounds(
                chars,
                toks,
                next,
                crate::semantics::bump(base, crate::semantics::groups(*atom)),
                k,
                runs,
                runs.len() - 1,
                kind.min_reps(),
                pos,
            );
        },
        _ => {
            if pos < chars.len() {
                lemma_run_bounds(chars, toks, next, pos + 1, base, caps, k);
            }
        },
    }
}

/// A match through a branch of a group that starts inside the text ends
/// inside the text, at or after its start.
pub proof fn lemma_first_branch_bounds(
    chars: Seq<char>,
    bs: Seq<Seq<TokenView>>,
    b: int,
    toks: Seq<TokenView>,
    next: int,
    pos: int,
    base: nat,
    caps: Captures,
    k: ContView,
)
    requires
        0 <= pos <= chars.len(),
    ensures
        first_branch(chars, bs, b, toks, next, pos, base, caps, k) matches Some(o) ==> pos <= o.end
            <= chars.len(),
    decreases
            1 + crate::semantics::branches_weight(bs, b) + crate::semantics::seq_weight(toks, next)
                + crate::semantics::cont_weight(k),
            0nat,
{
    if 0 <= b < bs.len() {
        let inner = ContView::Then(group_frame(bs, toks, next, pos, base), Box::new(k));
        let branch_base = crate::semantics::bump(
            base,
            1 + crate::semantics::branches_groups(bs, b as nat),
        );
        lemma_run_bounds(chars, bs[b], 0, pos, branch_base, caps, inner);
        if run(chars, bs[b], 0, pos, branch_base, caps, inner) is None {
            lemma_first_branch_bounds(chars, bs, b + 1, toks, next, pos, base, caps, k);
        }
    }
}

/// The greedy runs of an atom end inside the text, at or after the start of
/// the first.
pub proof fn lemma_greedy_bounds(
    chars: Seq<char>,
    atom: TokenView,
    base: nat,
    max: Option<nat>,
    runs: Seq<Outcome>,
    lo: int,
)
    requires
        ends_within(runs, lo, chars.len() as int),
    ensures
        ends_within(greedy(chars, atom, base, max, runs), lo, chars.len() as int),
        greedy(chars, atom, base, max, runs).len() >= runs.len(),
    decreases 1 + crate::semantics::weight(atom), chars.len() - runs.last().end,
{
    if runs.len() == 0 || (max matches Some(m) && runs.len() > m) {
    } else {
        let last = runs.last();
        match run_head(chars, atom, Seq::empty(), 0, last.end, base, last.caps, ContView::Done) {
            Some(o) => {
                if last.end < o.end <= chars.len() {
                    lemma_greedy_bounds(chars, atom, base, max, runs.push(o), lo);
                }
            },
            None => {},
        }
    }
}

/// A match found by cutting a greedy run back ends inside the text, at or
/// after the start of the run.
pub proof fn lemma_cutback_bounds(
    chars: Seq<char>,
    toks: Seq<TokenView>,
    next: int,
    base: nat,
    k: ContView,
    runs: Seq<Outcome>,
    j: int,
    min: nat,
    lo: int,
)
    requires
        0 <= lo,
        ends_within(runs, lo, chars.len() as int),
    ensures
        cutback(chars, toks, next, base, k, runs, j, min) matches Some(o) ==> lo <= o.end
            <= chars.len(),
    decreases 1 + crate::semantics::seq_weight(toks, next) + crate::semantics::cont_weight(k), j,
{
    if j < 0 || j < min || j >= runs.len() {
    } else {
        lemma_run_bounds(chars, toks, next, runs[j].end, base, runs[j].caps, k);
        if run(chars, toks, next, runs[j].end, base, runs[j].caps, k) is None && j > 0 {
            lemma_cutback_bounds(chars, toks, next, base, k, runs, j - 1, min, lo);
        }
    }
}

} // verus!
