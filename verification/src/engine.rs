//! The backtracking matcher itself. Each function here computes the function
//! of the same shape in the matching semantics, on the executable tree.

use crate::semantics::{
    backref_end, branches_groups, branches_weight, bump, cont_weight, cutback, first_branch,
    greedy, group_frame, groups, record, run, run_head, seq_groups, seq_weight, weight, Captures,
    ContView, Frame, Outcome, Span, LAST_GROUP,
};
use crate::token::{branch_views, views, Quantifier, Token};
use crate::utils::{as_int, char_matches, class_matches, match_token};
use vstd::prelude::*;

verus! {

/// The captures as the matcher holds them: entry `g` is what group `g`
/// matched last.
pub open spec fn caps_view(v: Seq<Option<(usize, usize)>>) -> Captures {
    Map::new(|g: nat| g < v.len() && v[g as int] is Some, |g: nat| span_of(v[g as int]))
}

/// The span an entry of the captures holds.
pub open spec fn span_of(entry: Option<(usize, usize)>) -> Span {
    match entry {
        Some((start, end)) => Span { start: start as int, end: end as int },
        None => Span { start: 0, end: 0 },
    }
}

/// Where a successful match ended, and what the groups captured.
pub struct Reached {
    pub end: usize,
    pub caps: Vec<Option<(usize, usize)>>,
}

impl Reached {
    pub open spec fn view(&self) -> Outcome {
        Outcome { end: self.end as int, caps: caps_view(self.caps@) }
    }
}

/// The outcome a result of the matcher stands for.
pub open spec fn reached_view(r: Option<Reached>) -> Option<Outcome> {
    match r {
        Some(x) => Some(x@),
        None => None,
    }
}

/// The outcomes a list of results stands for.
pub open spec fn outcomes(s: Seq<Reached>) -> Seq<Outcome> {
    Seq::new(s.len(), |i: int| s[i]@)
}

/// A continuation: what to match once the current token sequence is
/// exhausted.
pub enum Cont<'a> {
    Done,
    Then {
        tokens: &'a [Token],
        next: usize,
        base: usize,
        group: usize,
        start: usize,
        outer: &'a Cont<'a>,
    },
}

impl<'a> Cont<'a> {
    pub open spec fn view(&self) -> ContView
        decreases self,
    {
        match self {
            Cont::Done => ContView::Done,
            Cont::Then { tokens, next, base, group, start, outer } => ContView::Then(
                Frame {
                    tokens: views(tokens@),
                    next: *next as int,
                    base: *base as nat,
                    group: *group as nat,
                    start: *start as int,
                },
                Box::new(outer.view()),
            ),
        }
    }
}

/// The group number `n` groups after `base`.
pub(crate) fn clip_add(base: usize, n: usize) -> (r: usize)
    ensures
        r == bump(base as nat, n as nat),
        r <= LAST_GROUP + 1,
{
    if base > LAST_GROUP || n > LAST_GROUP - base {
        LAST_GROUP + 1
    } else {
        base + n
    }
}

/// The number of groups `t` opens, as far as group numbers are told apart.
pub(crate) fn count_token(t: &Token) -> (r: usize)
    ensures
        r == bump(0, groups(t@)),
    decreases t,
{
    match t {
        Token::Alternation(bs) => clip_add(1, count_branches(bs)),
        Token::Quantified { atom, .. } => count_token(atom),
        _ => 0,
    }
}

/// The number of groups `ts` opens, as far as group numbers are told apart.
pub(crate) fn count_tokens(ts: &Vec<Token>) -> (r: usize)
    ensures
        r == bump(0, seq_groups(views(ts@), ts@.len())),
    decreases ts,
{
    let mut n: usize = 0;
    let mut i: usize = 0;
    while i < ts.len()
        invariant
            i <= ts.len(),
            n == bump(0, seq_groups(views(ts@), i as nat)),
        decreases ts.len() - i,
    {
        n = clip_add(n, count_token(&ts[i]));
        i += 1;
    }
    n
}

/// The number of groups the branches `bs` open, as far as group numbers are
/// told apart.
pub(crate) fn count_branches(bs: &Vec<Vec<Token>>) -> (r: usize)
    ensures
        r == bump(0, branches_groups(branch_views(bs@), bs@.len())),
    decreases bs,
{
    let mut n: usize = 0;
    let mut i: usize = 0;
    while i < bs.len()
        invariant
            i <= bs.len(),
            n == bump(0, branches_groups(branch_views(bs@), i as nat)),
        decreases bs.len() - i,
    {
        n = clip_add(n, count_tokens(&bs[i]));
        i += 1;
    }
    n
}

/// A copy of the captures.
pub(crate) fn copy_caps(caps: &Vec<Option<(usize, usize)>>) -> (r: Vec<Option<(usize, usize)>>)
    ensures
        r@ == caps@,
{
    let mut v: Vec<Option<(usize, usize)>> = Vec::new();
    let mut i: usize = 0;
    while i < caps.len()
        invariant
            i <= caps.len(),
            v@ == caps@.subrange(0, i as int),
        decreases caps.len() - i,
    {
        v.push(caps[i]);
        assert(v@ =~= caps@.subrange(0, i + 1));
        i += 1;
    }
    assert(v@ =~= caps@);
    v
}

/// The captures after group `group` matched `start..end`.
pub(crate) fn record_capture(
    caps: &Vec<Option<(usize, usize)>>,
    group: usize,
    start: usize,
    end: usize,
) -> (r: Vec<Option<(usize, usize)>>)
    ensures
        caps_view(r@) == record(caps_view(caps@), group as nat, start as int, end as int),
{
    let mut v = copy_caps(caps);
    if 1 <= group && group <= LAST_GROUP {
        while v.len() <= group
            invariant
                v@.len() >= caps@.len(),
                v@.subrange(0, caps@.len() as int) == caps@,
                forall|i: int| caps@.len() <= i < v@.len() ==> v@[i] is None,
            decreases group + 1 - v.len(),
        {
            v.push(None);
            assert(v@.subrange(0, caps@.len() as int) =~= caps@);
        }
        let ghost w = v@;
        v.set(group, Some((start, end)));
        assert forall|g: nat| g != group implies (caps_view(v@).contains_key(g) == caps_view(
            caps@,
        ).contains_key(g) && (caps_view(v@).contains_key(g) ==> caps_view(v@)[g] == caps_view(
            caps@,
        )[g])) by {
            if g < caps@.len() {
                assert(w.subrange(0, caps@.len() as int)[g as int] == w[g as int]);
            }
        }
        assert(caps_view(v@) =~= record(
            caps_view(caps@),
            group as nat,
            start as int,
            end as int,
        ));
    }
    v
}

/// Where a back-reference to `group` ends when tried at `pos`.
#[verifier::loop_isolation(false)]
pub(crate) fn backref(
    chars: &[char],
    caps: &Vec<Option<(usize, usize)>>,
    group: u8,
    pos: usize,
) -> (r: Option<usize>)
    ensures
        as_int(r) == backref_end(chars@, caps_view(caps@), group, pos as int),
{
    let g: usize = group as usize;
    if g >= caps.len() {
        return None;
    }
    match caps[g] {
        None => None,
        Some((s, e)) => {
            if s > e || e > chars.len() || pos > chars.len() || e - s > chars.len() - pos {
                return None;
            }
            let n: usize = e - s;
            let mut j: usize = 0;
            while j < n
                invariant
                    j <= n,
                    n == e - s,
                    s <= e <= chars@.len(),
                    pos + n <= chars@.len(),
                    chars@.subrange(pos as int, pos + j) == chars@.subrange(s as int, s + j),
                decreases n - j,
            {
                if chars[pos + j] != chars[s + j] {
                    assert(chars@.subrange(pos as int, pos + n)[j as int] != chars@.subrange(
                        s as int,
                        e as int,
                    )[j as int]);
                    return None;
                }
                assert(chars@.subrange(pos as int, pos + j + 1) =~= chars@.subrange(
                    pos as int,
                    pos + j,
                ).push(chars@[pos + j]));
                assert(chars@.subrange(s as int, s + j + 1) =~= chars@.subrange(
                    s as int,
                    s + j,
                ).push(chars@[s + j]));
                j += 1;
            }
            Some(pos + n)
        },
    }
}

/// Tests `c` against the class made of `members`.
pub(crate) fn class_accepts(members: &Vec<Token>, negate: bool, c: char) -> (r: bool)
    ensures
        r == class_matches(views(members@), negate, c),
{
    let mut i: usize = 0;
    while i < members.len()
        invariant
            i <= members.len(),
            forall|j: int| 0 <= j < i ==> !char_matches(#[trigger] views(members@)[j], c),
        decreases members.len() - i,
    {
        if match_token(&members[i], &c) {
            assert(char_matches(views(members@)[i as int], c));
            return !negate;
        }
        i += 1;
    }
    negate
}

/// Matches `tokens` from index `i` on at `pos`, then the continuation `k`.
pub(crate) fn run_tokens<'a>(
    chars: &[char],
    tokens: &'a [Token],
    i: usize,
    pos: usize,
    base: usize,
    caps: &Vec<Option<(usize, usize)>>,
    k: &Cont<'a>,
) -> (r: Option<Reached>)
    ensures
        reached_view(r) == run(
            chars@,
            views(tokens@),
            i as int,
            pos as int,
            base as nat,
            caps_view(caps@),
            k@,
        ),
    decreases seq_weight(views(tokens@), i as int) + cont_weight(k@), 1nat,
{
    if i >= tokens.len() {
        match k {
            Cont::Done => Some(Reached { end: pos, caps: copy_caps(caps) }),
            Cont::Then { tokens: after, next, base: after_base, group, start, outer } => {
                let closed = record_capture(caps, *group, *start, pos);
                run_tokens(chars, after, *next, pos, *after_base, &closed, outer)
            },
        }
    } else {
        run_one(chars, &tokens[i], tokens, i + 1, pos, base, caps, k)
    }
}

/// Matches the token `t` at `pos`, then `tokens` from index `next` on, then
/// the continuation `k`.
pub(crate) fn run_one<'a>(
    chars: &[char],
    t: &'a Token,
    tokens: &'a [Token],
    next: usize,
    pos: usize,
    base: usize,
    caps: &Vec<Option<(usize, usize)>>,
    k: &Cont<'a>,
) -> (r: Option<Reached>)
    ensures
        reached_view(r) == run_head(
            chars@,
            t@,
            views(tokens@),
            next as int,
            pos as int,
            base as nat,
            caps_view(caps@),
            k@,
        ),
    decreases weight(t@) + seq_weight(views(tokens@), next as int) + cont_weight(k@), 0nat,
{
    match t {
        Token::StartAnchor => run_tokens(chars, tokens, next, pos, base, caps, k),
        Token::EndAnchor => {
            if pos == chars.len() {
                run_tokens(chars, tokens, next, pos, base, caps, k)
            } else {
                None
            }
        },
        Token::Sequence(members, negate) => {
            if pos < chars.len() && class_accepts(members, *negate, chars[pos]) {
                run_tokens(chars, tokens, next, pos + 1, base, caps, k)
            } else {
                None
            }
        },
        Token::Group(g) => {
            match backref(chars, caps, *g, pos) {
                Some(e) => run_tokens(chars, tokens, next, e, base, caps, k),
                None => None,
            }
        },
        Token::Alternation(bs) => run_branches(chars, bs, tokens, next, pos, base, caps, k),
        Token::Quantified { atom, kind } => {
            let runs = run_greedy(chars, atom, pos, base, caps, kind);
            let after_base: usize = clip_add(base, count_token(atom));
            run_cutback(chars, tokens, next, after_base, k, &runs, kind.lower())
        },
        _ => {
            if pos < chars.len() && match_token(t, &chars[pos]) {
                run_tokens(chars, tokens, next, pos + 1, base, caps, k)
            } else {
                None
            }
        },
    }
}

/// Tries the branches `bs` of a group in order, each followed by `tokens`
/// from index `next` on and then `k`.
pub(crate) fn run_branches<'a>(
    chars: &[char],
    bs: &'a Vec<Vec<Token>>,
    tokens: &'a [Token],
    next: usize,
    pos: usize,
    base: usize,
    caps: &Vec<Option<(usize, usize)>>,
    k: &Cont<'a>,
) -> (r: Option<Reached>)
    ensures
        reached_view(r) == first_branch(
            chars@,
            branch_views(bs@),
            0,
            views(tokens@),
            next as int,
            pos as int,
            base as nat,
            caps_view(caps@),
            k@,
        ),
    decreases
            1 + branches_weight(branch_views(bs@), 0) + seq_weight(views(tokens@), next as int)
                + cont_weight(k@),
            0nat,
{
    let total: usize = count_branches(bs);
    let frame = Cont::Then {
        tokens,
        next,
        base: clip_add(base, clip_add(1, total)),
        group: base,
        start: pos,
        outer: k,
    };
    assert(frame@ == ContView::Then(
        group_frame(branch_views(bs@), views(tokens@), next as int, pos as int, base as nat),
        Box::new(k@),
    ));
    let mut b: usize = 0;
    let mut before: usize = 0;
    while b < bs.len()
        invariant
            b <= bs.len(),
            before == bump(0, branches_groups(branch_views(bs@), b as nat)),
            branches_weight(branch_views(bs@), b as int) <= branches_weight(branch_views(bs@), 0),
            frame@ == ContView::Then(
                group_frame(
                    branch_views(bs@),
                    views(tokens@),
                    next as int,
                    pos as int,
                    base as nat,
                ),
                Box::new(k@),
            ),
            first_branch(
                chars@,
                branch_views(bs@),
                b as int,
                views(tokens@),
                next as int,
                pos as int,
                base as nat,
                caps_view(caps@),
                k@,
            ) == first_branch(
                chars@,
                branch_views(bs@),
                0,
                views(tokens@),
                next as int,
                pos as int,
                base as nat,
                caps_view(caps@),
                k@,
            ),
        decreases bs.len() - b,
    {
        let branch_base: usize = clip_add(base, clip_add(1, before));
        match run_tokens(chars, bs[b].as_slice(), 0, pos, branch_base, caps, &frame) {
            Some(r) => {
                return Some(r);
            },
            None => {},
        }
        before = clip_add(before, count_tokens(&bs[b]));
        b += 1;
    }
    None
}

/// Repeats `atom` from `pos` as often as `kind` allows and the text gives,
/// and returns where each number of repetitions ends.
pub(crate) fn run_greedy(
    chars: &[char],
    atom: &Token,
    pos: usize,
    base: usize,
    caps: &Vec<Option<(usize, usize)>>,
    kind: &Quantifier,
) -> (runs: Vec<Reached>)
    ensures
        runs@.len() >= 1,
        outcomes(runs@) == greedy(
            chars@,
            atom@,
            base as nat,
            kind.max_reps(),
            seq![Outcome { end: pos as int, caps: caps_view(caps@) }],
        ),
    decreases 1 + weight(atom@), 0nat,
{
    let max = kind.upper();
    let nothing: Vec<Token> = Vec::new();
    let mut runs: Vec<Reached> = Vec::new();
    runs.push(Reached { end: pos, caps: copy_caps(caps) });
    let ghost target = greedy(
        chars@,
        atom@,
        base as nat,
        kind.max_reps(),
        seq![Outcome { end: pos as int, caps: caps_view(caps@) }],
    );
    assert(outcomes(runs@) =~= seq![Outcome { end: pos as int, caps: caps_view(caps@) }]);
    let mut going = true;
    while going
        invariant
            runs@.len() >= 1,
            nothing@.len() == 0,
            max is Some == kind.max_reps() is Some,
            max matches Some(m) ==> kind.max_reps() == Some(m as nat),
            greedy(chars@, atom@, base as nat, kind.max_reps(), outcomes(runs@)) == target,
            !going ==> outcomes(runs@) == target,
        decreases chars@.len() - runs@.last().end, going as int,
    {
        let n: usize = runs.len();
        let capped: bool = match max {
            Some(m) => n > m,
            None => false,
        };
        if capped {
            going = false;
        } else {
            let last_end: usize = runs[n - 1].end;
            assert(outcomes(runs@).last() == runs@[n - 1]@);
            assert(views(nothing@) =~= Seq::<crate::token::TokenView>::empty());
            let step = run_one(
                chars,
                atom,
                nothing.as_slice(),
                0,
                last_end,
                base,
                &runs[n - 1].caps,
                &Cont::Done,
            );
            match step {
                Some(o) => {
                    if last_end < o.end && o.end <= chars.len() {
                        proof {
                            assert(outcomes(runs@.push(o)) =~= outcomes(runs@).push(o@));
                        }
                        runs.push(o);
                    } else {
                        going = false;
                    }
                },
                None => {
                    going = false;
                },
            }
        }
    }
    runs
}

/// Hands `tokens` from index `next` on, and then `k`, the run lengths of
/// `runs` from the longest down to `min`, and returns the first success.
pub(crate) fn run_cutback<'a>(
    chars: &[char],
    tokens: &'a [Token],
    next: usize,
    base: usize,
    k: &Cont<'a>,
    runs: &Vec<Reached>,
    min: usize,
) -> (r: Option<Reached>)
    ensures
        reached_view(r) == cutback(
            chars@,
            views(tokens@),
            next as int,
            base as nat,
            k@,
            outcomes(runs@),
            runs@.len() - 1,
            min as nat,
        ),
    decreases 1 + seq_weight(views(tokens@), next as int) + cont_weight(k@), 0nat,
{
    let mut j: usize = runs.len();
    while j > min && j > 0
        invariant
            j <= runs.len(),
            cutback(
                chars@,
                views(tokens@),
                next as int,
                base as nat,
                k@,
                outcomes(runs@),
                j - 1,
                min as nat,
            ) == cutback(
                chars@,
                views(tokens@),
                next as int,
                base as nat,
                k@,
                outcomes(runs@),
                runs@.len() - 1,
                min as nat,
            ),
        decreases j,
    {
        let c: usize = j - 1;
        match run_tokens(chars, tokens, next, runs[c].end, base, &runs[c].caps, k) {
            Some(r) => {
                return Some(r);
            },
            None => {},
        }
        j = c;
    }
    None
}

} // verus!
